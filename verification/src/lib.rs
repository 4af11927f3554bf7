//! Codec for the "Ears" cosmetic-feature extension format carried inside a
//! 64x64 RGBA character-skin image.
//!
//! Two channels carry data: magic-pixel cells at a fixed location encode
//! versioned feature flags (V0 colour-coded, V1 bit-packed), and the
//! "Alfalfa" sidechannel smuggles a key -> byte-array dictionary inside the
//! low seven bits of the alpha channel across ten fixed rectangles.

pub mod alfalfa;
pub mod alpha;
pub mod bits;
pub mod cape;
pub mod emissive;
pub mod erase;
pub mod errors;
pub mod features;
pub mod image;
pub mod magic_pixels;
pub mod model;
pub mod parser;
pub mod parser_v0;
pub mod parser_v1;

pub use errors::EarsError;
