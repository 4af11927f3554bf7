//! The V0 colour-coded feature codec: eleven magic-pixel cells at
//! `(idx % 4, 32 + idx / 4)`, each holding one palette symbol or a packed
//! byte value.

use vstd::prelude::*;
use crate::errors::EarsError;
use crate::features::{
    EarAnchor, EarMode, EarsFeatures, SnoutData, TailData, TailMode, WingData, WingMode,
    features_valid, snout_valid, tail_valid, wing_valid,
};
use crate::image::{rgba_argb, to_argb_hex, from_argb_hex, EarsImage, Rgba};
use crate::magic_pixels::MagicPixelsV0;

verus! {

/// ARGB value of the V0 cell with the given index.
pub open spec fn cell_argb(im: EarsImage, idx: int) -> int {
    im.argb(idx % 4, 32 + idx / 4)
}

pub open spec fn cell_x(idx: int) -> int {
    idx % 4
}

pub open spec fn cell_y(idx: int) -> int {
    32 + idx / 4
}

/// Whether `(x, y)` is one of the eleven V0 cells.
pub open spec fn is_v0_cell(x: int, y: int) -> bool {
    0 <= x < 4 && 32 <= y < 35 && (y - 32) * 4 + x < 11
}

pub open spec fn cell_sym(im: EarsImage, idx: int) -> MagicPixelsV0 {
    MagicPixelsV0::from_argb_spec(cell_argb(im, idx))
}

/// V0 is detected when cell 0 holds the blue palette colour.
pub open spec fn v0_detected_spec(im: EarsImage) -> bool {
    cell_argb(im, 0) == 0xFF3F23D8
}

pub open spec fn v0_ear_mode(s: MagicPixelsV0) -> EarMode {
    match s {
        MagicPixelsV0::Blue => EarMode::Above,
        MagicPixelsV0::Green => EarMode::Sides,
        MagicPixelsV0::Purple => EarMode::Behind,
        MagicPixelsV0::Cyan => EarMode::Around,
        MagicPixelsV0::Orange => EarMode::Floppy,
        MagicPixelsV0::Pink => EarMode::Cross,
        MagicPixelsV0::Purple2 => EarMode::Out,
        MagicPixelsV0::White => EarMode::Tall,
        MagicPixelsV0::Gray => EarMode::TallCross,
        _ => EarMode::Off,
    }
}

pub open spec fn v0_ear_anchor(s: MagicPixelsV0) -> EarAnchor {
    match s {
        MagicPixelsV0::Blue => EarAnchor::Center,
        MagicPixelsV0::Green => EarAnchor::Front,
        MagicPixelsV0::Red => EarAnchor::Back,
        _ => EarAnchor::Center,
    }
}

pub open spec fn v0_claws_horn(s: MagicPixelsV0) -> (bool, bool) {
    match s {
        MagicPixelsV0::Green => (true, false),
        MagicPixelsV0::Purple => (false, true),
        MagicPixelsV0::Cyan => (true, true),
        _ => (false, false),
    }
}

pub open spec fn v0_tail_mode(s: MagicPixelsV0) -> TailMode {
    match s {
        MagicPixelsV0::Blue => TailMode::Down,
        MagicPixelsV0::Green => TailMode::Back,
        MagicPixelsV0::Purple => TailMode::Up,
        MagicPixelsV0::Orange => TailMode::Vertical,
        MagicPixelsV0::Pink => TailMode::Cross,
        MagicPixelsV0::Purple2 => TailMode::CrossOverlap,
        MagicPixelsV0::White => TailMode::Star,
        MagicPixelsV0::Gray => TailMode::StarOverlap,
        _ => TailMode::Off,
    }
}

pub open spec fn v0_wing_mode(s: MagicPixelsV0) -> WingMode {
    match s {
        MagicPixelsV0::Pink => WingMode::SymmetricDual,
        MagicPixelsV0::Green => WingMode::SymmetricSingle,
        MagicPixelsV0::Cyan => WingMode::AsymmetricL,
        MagicPixelsV0::Orange => WingMode::AsymmetricR,
        MagicPixelsV0::Purple => WingMode::AsymmetricDual,
        MagicPixelsV0::Purple2 => WingMode::Flat,
        _ => WingMode::Off,
    }
}

/// Signed-magnitude division truncating toward zero, as the hardware `/`
/// does on signed integers.
pub open spec fn trunc_div(a: int, b: int) -> int {
    if a >= 0 {
        a / b
    } else {
        -((-a) / b)
    }
}

/// Decodes one stored pixel byte into a bend step over 128, with the
/// zero-preserving shift: byte 0 means 0, bytes below 128 are negative
/// steps, bytes from 128 up are positive ones.
pub open spec fn px_val_to_unit(i: int) -> int {
    if i == 0 {
        0
    } else if i < 128 {
        i - 129
    } else {
        i - 127
    }
}

/// Encodes a bend numerator over `BEND_SCALE` into its stored pixel byte;
/// the exact inverse of `px_val_to_unit` on its image.
pub open spec fn unit_to_px_val(num: int) -> int {
    if num == 0 {
        0
    } else {
        let j = trunc_div(num, 63);
        if j >= 1 {
            j + 127
        } else if j == 0 {
            128
        } else {
            j + 129
        }
    }
}

/// A bend numerator the V0 pixel grid can carry exactly.
pub open spec fn v0_bend_representable(b: int) -> bool {
    exists|j: int|
        b == 63 * j && (j == 0 || (1 <= j <= 128) || (-128 <= j <= -2)) && #[trigger] (j * 63)
            == b * 1
}

/// Tail-bend encode/decode symmetry: decoding a stored pixel byte and
/// encoding it again is the identity on representable bends.
pub proof fn lemma_tail_bend_symmetry(num: int)
    requires
        v0_bend_representable(num),
    ensures
        63 * px_val_to_unit(unit_to_px_val(num)) == num,
{
    let j = choose|j: int|
        num == 63 * j && (j == 0 || (1 <= j <= 128) || (-128 <= j <= -2)) && #[trigger] (j * 63)
            == num * 1;
    lemma_trunc_div_63(j);
    if num != 0 {
        assert(trunc_div(num, 63) == j);
    }
}

/// `(63 * j) / 63 == j` for truncating division.
proof fn lemma_trunc_div_63(j: int)
    ensures
        trunc_div(63 * j, 63) == j,
{
    if j >= 0 {
        vstd::arithmetic::div_mod::lemma_div_multiples_vanish(j, 63);
    } else {
        vstd::arithmetic::div_mod::lemma_div_multiples_vanish(-j, 63);
        assert(-(63 * j) == 63 * (-j)) by (nonlinear_arith);
    }
}

/// What the tail cells decode to.
pub open spec fn v0_tail_rel(argb4: int, argb5: int, tail: Option<TailData>) -> bool {
    let tmode = v0_tail_mode(MagicPixelsV0::from_argb_spec(argb4));
    let j0 = px_val_to_unit(255 - argb5 / 0x1000000);
    let j1 = px_val_to_unit((argb5 / 0x10000) % 0x100);
    let j2 = px_val_to_unit((argb5 / 0x100) % 0x100);
    let j3 = px_val_to_unit(argb5 % 0x100);
    &&& (tmode == TailMode::Off ==> tail is None)
    &&& (tmode != TailMode::Off ==> {
        &&& tail matches Some(t)
        &&& t.mode == tmode
        &&& t.bends[0] == 63 * j0
        &&& t.bends[1] == 63 * j1
        &&& t.bends[2] == 63 * j2
        &&& t.bends[3] == 63 * j3
        &&& t.segments == 1 + (if 63 * j1 != 0 {
            1int
        } else {
            0int
        }) + (if 63 * j2 != 0 {
            1int
        } else {
            0int
        }) + (if 63 * j3 != 0 {
            1int
        } else {
            0int
        })
    })
}

/// What the snout cells decode to, after range clamping.
pub open spec fn v0_snout_rel(argb6: int, argb7: int, snout: Option<SnoutData>) -> bool {
    let w0 = (argb6 / 0x10000) % 0x100;
    let h0 = (argb6 / 0x100) % 0x100;
    let d0 = argb6 % 0x100;
    let w = if w0 > 7 {
        7
    } else {
        w0
    };
    let h = if h0 > 4 {
        4
    } else {
        h0
    };
    let d = if d0 > 8 {
        8
    } else {
        d0
    };
    let off0 = (argb7 / 0x100) % 0x100;
    let off = if off0 > 8 - h {
        8 - h
    } else {
        off0
    };
    &&& (w == 0 && h == 0 && d == 0 ==> snout is None)
    &&& (!(w == 0 && h == 0 && d == 0) ==> snout == Some(
        SnoutData { offset: off as u8, width: w as u8, height: h as u8, depth: d as u8 },
    ))
}

/// What the wing cells decode to.
pub open spec fn v0_wing_rel(argb8: int, argb9: int, wing: Option<WingData>) -> bool {
    let wmode = v0_wing_mode(MagicPixelsV0::from_argb_spec(argb8));
    &&& (wmode == WingMode::Off ==> wing is None)
    &&& (wmode != WingMode::Off ==> wing == Some(
        WingData { mode: wmode, animated: argb9 != 0xFFD82350 },
    ))
}

/// What the chest byte of cell 7 decodes to.
pub open spec fn v0_chest_rel(argb7: int, chest: u16) -> bool {
    let chest_byte0 = (argb7 / 0x10000) % 0x100;
    let chest_byte = if chest_byte0 > 128 {
        128
    } else {
        chest_byte0
    };
    chest == chest_byte * 31
}

/// How the decoder reads an image's eleven cells into a feature record.
/// This relation pins every field of `f`.
pub open spec fn v0_decodes_to(im: EarsImage, f: EarsFeatures) -> bool {
    let mode = v0_ear_mode(cell_sym(im, 1));
    &&& f.ear_mode == mode
    &&& f.ear_anchor == (if mode != EarMode::Off && mode != EarMode::Behind {
        v0_ear_anchor(cell_sym(im, 2))
    } else {
        EarAnchor::Center
    })
    &&& f.claws == v0_claws_horn(cell_sym(im, 3)).0
    &&& f.horn == v0_claws_horn(cell_sym(im, 3)).1
    &&& v0_tail_rel(cell_argb(im, 4), cell_argb(im, 5), f.tail)
    &&& v0_snout_rel(cell_argb(im, 6), cell_argb(im, 7), f.snout)
    &&& v0_chest_rel(cell_argb(im, 7), f.chest_size)
    &&& f.cape_enabled == ((cell_argb(im, 7) / 16) % 2 == 1)
    &&& v0_wing_rel(cell_argb(im, 8), cell_argb(im, 9), f.wing)
    &&& f.emissive == (cell_argb(im, 10) == 0xFFD87823)
    &&& f.data_version == 0
}

/// Decodes the tail cells.
fn read_tail_data(argb4: u32, argb5: u32) -> (r: Option<TailData>)
    ensures
        v0_tail_rel(argb4 as int, argb5 as int, r),
        r matches Some(t) ==> tail_valid(t),
{
    let tail_mode: TailMode = match MagicPixelsV0::get_by_argb_hex(argb4) {
        MagicPixelsV0::Blue => TailMode::Down,
        MagicPixelsV0::Green => TailMode::Back,
        MagicPixelsV0::Purple => TailMode::Up,
        MagicPixelsV0::Orange => TailMode::Vertical,
        MagicPixelsV0::Pink => TailMode::Cross,
        MagicPixelsV0::Purple2 => TailMode::CrossOverlap,
        MagicPixelsV0::White => TailMode::Star,
        MagicPixelsV0::Gray => TailMode::StarOverlap,
        _ => TailMode::Off,
    };
    if tail_mode == TailMode::Off {
        return None;
    }
    proof {
        assert(argb5 >> 24u32 == argb5 / 0x1000000 && argb5 >> 24u32 < 0x100 && (argb5 >> 16u32)
            & 0xFF == (argb5 / 0x10000) % 0x100 && (argb5 >> 8u32) & 0xFF == (argb5 / 0x100)
            % 0x100 && argb5 & 0xFF == argb5 % 0x100) by (bit_vector);
    }
    let b0: u32 = 255 - (argb5 >> 24u32);
    let b1: u32 = (argb5 >> 16u32) & 0xFF;
    let b2: u32 = (argb5 >> 8u32) & 0xFF;
    let b3: u32 = argb5 & 0xFF;
    let j0: i32 = px_val_to_unit_exec(b0);
    let j1: i32 = px_val_to_unit_exec(b1);
    let j2: i32 = px_val_to_unit_exec(b2);
    let j3: i32 = px_val_to_unit_exec(b3);
    let bend0: i16 = (63 * j0) as i16;
    let bend1: i16 = (63 * j1) as i16;
    let bend2: i16 = (63 * j2) as i16;
    let bend3: i16 = (63 * j3) as i16;
    let mut segments: u8 = 1;
    if bend1 != 0 {
        segments = segments + 1;
    }
    if bend2 != 0 {
        segments = segments + 1;
    }
    if bend3 != 0 {
        segments = segments + 1;
    }
    Some(TailData { mode: tail_mode, segments, bends: [bend0, bend1, bend2, bend3] })
}

/// Decodes the snout cells.
fn read_snout_data(argb6: u32, argb7: u32) -> (r: Option<SnoutData>)
    ensures
        v0_snout_rel(argb6 as int, argb7 as int, r),
        r matches Some(sn) ==> sn.width <= 7 && sn.height <= 4 && sn.depth <= 8 && sn.offset <= 8,
{
    proof {
        assert((argb6 >> 16u32) & 0xFF == (argb6 / 0x10000) % 0x100 && (argb6 >> 8u32) & 0xFF == (
        argb6 / 0x100) % 0x100 && argb6 & 0xFF == argb6 % 0x100) by (bit_vector);
        assert((argb7 >> 8u32) & 0xFF == (argb7 / 0x100) % 0x100) by (bit_vector);
    }
    let mut w: u8 = ((argb6 >> 16u32) & 0xFF) as u8;
    let mut h: u8 = ((argb6 >> 8u32) & 0xFF) as u8;
    let mut d: u8 = (argb6 & 0xFF) as u8;
    let mut off: u8 = ((argb7 >> 8u32) & 0xFF) as u8;
    if w > 7 {
        w = 7;
    }
    if h > 4 {
        h = 4;
    }
    if d > 8 {
        d = 8;
    }
    if off > 8 - h {
        off = 8 - h;
    }
    if w == 0 && h == 0 && d == 0 {
        None
    } else {
        Some(SnoutData { offset: off, width: w, height: h, depth: d })
    }
}

/// Decodes the wing cells.
fn read_wing_data(argb8: u32, argb9: u32) -> (r: Option<WingData>)
    ensures
        v0_wing_rel(argb8 as int, argb9 as int, r),
        r matches Some(wg) ==> wing_valid(wg),
{
    let wing_mode: WingMode = match MagicPixelsV0::get_by_argb_hex(argb8) {
        MagicPixelsV0::Pink => WingMode::SymmetricDual,
        MagicPixelsV0::Green => WingMode::SymmetricSingle,
        MagicPixelsV0::Cyan => WingMode::AsymmetricL,
        MagicPixelsV0::Orange => WingMode::AsymmetricR,
        MagicPixelsV0::Purple => WingMode::AsymmetricDual,
        MagicPixelsV0::Purple2 => WingMode::Flat,
        _ => WingMode::Off,
    };
    if wing_mode != WingMode::Off {
        Some(WingData { mode: wing_mode, animated: argb9 != 0xFFD82350 })
    } else {
        None
    }
}

/// Reads the ARGB value of one V0 cell.
fn read_cell(image: &EarsImage, idx: u32) -> (r: Result<u32, EarsError>)
    requires
        image.wf(),
        idx <= 10,
    ensures
        image.in_bounds(cell_x(idx as int), cell_y(idx as int)) ==> {
            &&& r matches Ok(v)
            &&& v == cell_argb(*image, idx as int)
        },
        !image.in_bounds(cell_x(idx as int), cell_y(idx as int)) ==> {
            &&& r matches Err(e)
            &&& e == EarsError::InvalidMagicPixelLocation(idx)
        },
{
    match image.get_pixel(idx % 4, 32 + idx / 4) {
        Some(p) => Ok(to_argb_hex(&p)),
        None => Err(EarsError::InvalidMagicPixelLocation(idx)),
    }
}

/// Writes the ARGB value of one V0 cell, leaving every other pixel alone.
pub(crate) fn write_raw_magic_pixel(image: &mut EarsImage, idx: u32, value: u32) -> (r: Result<
    (),
    EarsError,
>)
    requires
        old(image).wf(),
        idx <= 15,
    ensures
        final(image).wf(),
        final(image).width_spec() == old(image).width_spec(),
        final(image).height_spec() == old(image).height_spec(),
        old(image).in_bounds(cell_x(idx as int), cell_y(idx as int)) ==> {
            &&& r matches Ok(u)
            &&& cell_argb(*final(image), idx as int) == value
            &&& forall|x: int, y: int|
                old(image).in_bounds(x, y) && !(x == cell_x(idx as int) && y == cell_y(idx as int))
                    ==> final(image).px(x, y) == old(image).px(x, y)
        },
        !old(image).in_bounds(cell_x(idx as int), cell_y(idx as int)) ==> {
            &&& r matches Err(e)
            &&& e == EarsError::InvalidMagicPixelLocation(idx)
            &&& *final(image) == *old(image)
        },
{
    let p: Rgba = from_argb_hex(value);
    if image.set_pixel(idx % 4, 32 + idx / 4, p) {
        proof {
            assert(rgba_argb(p) == value);
        }
        Ok(())
    } else {
        Err(EarsError::InvalidMagicPixelLocation(idx))
    }
}

/// Decodes one stored pixel byte into a bend step over 128.
fn px_val_to_unit_exec(i: u32) -> (r: i32)
    requires
        i <= 255,
    ensures
        r == px_val_to_unit(i as int),
{
    if i == 0 {
        0
    } else if i < 128 {
        (i as i32) - 129
    } else {
        (i as i32) - 127
    }
}

pub struct EarsParserV0;

impl EarsParserV0 {
    pub fn get_data_version() -> (r: u8)
        ensures
            r == 0,
    {
        0
    }

    /// V0 is present when cell 0 holds the blue palette colour.
    pub fn detect(image: &EarsImage) -> (r: bool)
        requires
            image.wf(),
        ensures
            r == (image.in_bounds(0, 32) && v0_detected_spec(*image)),
    {
        match image.get_pixel(0, 32) {
            Some(p) => to_argb_hex(&p) == 0xFF3F23D8,
            None => false,
        }
    }

    /// Parses the V0 cells into a feature record. Yields `None` when the
    /// detection pixel does not match; fails only when a cell lies outside
    /// the image.
    #[verifier::rlimit(100)]
    pub fn parse(image: &EarsImage) -> (r: Result<Option<EarsFeatures>, EarsError>)
        requires
            image.wf(),
        ensures
            !(image.in_bounds(0, 32) && v0_detected_spec(*image)) ==> {
                &&& r matches Ok(o)
                &&& o is None
            },
            image.in_bounds(0, 32) && v0_detected_spec(*image) && image.width_spec() >= 4
                && image.height_spec() >= 35 ==> {
                &&& r matches Ok(o)
                &&& o matches Some(f)
                &&& v0_decodes_to(*image, f)
            },
            image.in_bounds(0, 32) && v0_detected_spec(*image) && !(image.width_spec() >= 4
                && image.height_spec() >= 35) ==> r is Err,
    {
        if !Self::detect(image) {
            return Ok(None);
        }
        let mut cells: Vec<u32> = Vec::new();
        let mut idx: u32 = 0;
        while idx < 11
            invariant
                image.wf(),
                image.in_bounds(0, 32),
                v0_detected_spec(*image),
                idx == cells@.len(),
                idx <= 11,
                forall|i: int| 0 <= i < idx ==> #[trigger] cells@[i] == cell_argb(*image, i),
                forall|i: int| 0 <= i < idx ==> image.in_bounds(#[trigger] cell_x(i), cell_y(i)),
            decreases 11 - idx,
        {
            match read_cell(image, idx) {
                Ok(v) => {
                    cells.push(v);
                },
                Err(e) => {
                    proof {
                        assert(!image.in_bounds(cell_x(idx as int), cell_y(idx as int)));
                        assert(0 <= cell_x(idx as int) < 4 && 32 <= cell_y(idx as int) < 35);
                    }
                    return Err(e);
                },
            }
            idx = idx + 1;
        }
        let argb1: u32 = cells[1];
        let argb2: u32 = cells[2];
        let argb3: u32 = cells[3];
        let argb4: u32 = cells[4];
        let argb5: u32 = cells[5];
        let argb6: u32 = cells[6];
        let argb7: u32 = cells[7];
        let argb8: u32 = cells[8];
        let argb9: u32 = cells[9];
        let argb10: u32 = cells[10];
        let ear_mode: EarMode = match MagicPixelsV0::get_by_argb_hex(argb1) {
            MagicPixelsV0::Blue => EarMode::Above,
            MagicPixelsV0::Green => EarMode::Sides,
            MagicPixelsV0::Purple => EarMode::Behind,
            MagicPixelsV0::Cyan => EarMode::Around,
            MagicPixelsV0::Orange => EarMode::Floppy,
            MagicPixelsV0::Pink => EarMode::Cross,
            MagicPixelsV0::Purple2 => EarMode::Out,
            MagicPixelsV0::White => EarMode::Tall,
            MagicPixelsV0::Gray => EarMode::TallCross,
            _ => EarMode::Off,
        };
        let ear_anchor: EarAnchor = if ear_mode != EarMode::Off && ear_mode != EarMode::Behind {
            match MagicPixelsV0::get_by_argb_hex(argb2) {
                MagicPixelsV0::Blue => EarAnchor::Center,
                MagicPixelsV0::Green => EarAnchor::Front,
                MagicPixelsV0::Red => EarAnchor::Back,
                _ => EarAnchor::Center,
            }
        } else {
            EarAnchor::Center
        };
        let (claws, horn): (bool, bool) = match MagicPixelsV0::get_by_argb_hex(argb3) {
            MagicPixelsV0::Green => (true, false),
            MagicPixelsV0::Purple => (false, true),
            MagicPixelsV0::Cyan => (true, true),
            _ => (false, false),
        };
        let tail: Option<TailData> = read_tail_data(argb4, argb5);
        let snout: Option<SnoutData> = read_snout_data(argb6, argb7);
        let chest_byte: u32 = (argb7 >> 16u32) & 0xFF;
        proof {
            assert((argb7 >> 16u32) & 0xFF == (argb7 / 0x10000) % 0x100 && (argb7 >> 16u32) & 0xFF
                < 0x100 && (argb7 & 16 != 0) == ((argb7 / 16) % 2 == 1)) by (bit_vector);
        }
        let chest_size: u16 = if chest_byte > 128 {
            128 * 31
        } else {
            (chest_byte as u16) * 31
        };
        let cape_enabled: bool = (argb7 & 16) != 0;
        let wing: Option<WingData> = read_wing_data(argb8, argb9);
        let emissive: bool = argb10 == 0xFFD87823;
        let features = EarsFeatures {
            ear_mode,
            ear_anchor,
            tail,
            snout,
            wing,
            claws,
            horn,
            chest_size,
            cape_enabled,
            emissive,
            data_version: 0,
        };
        proof {
            assert(image.in_bounds(cell_x(3), cell_y(3)));
            assert(image.in_bounds(cell_x(10), cell_y(10)));
            assert(image.width_spec() >= 4 && image.height_spec() >= 35);
            assert(v0_tail_rel(cell_argb(*image, 4), cell_argb(*image, 5), features.tail));
            assert(v0_snout_rel(cell_argb(*image, 6), cell_argb(*image, 7), features.snout));
            assert(v0_chest_rel(cell_argb(*image, 7), features.chest_size));
            assert(v0_wing_rel(cell_argb(*image, 8), cell_argb(*image, 9), features.wing));
            assert(features.ear_mode == v0_ear_mode(cell_sym(*image, 1)));
            assert(v0_decodes_to(*image, features));
        }
        Ok(Some(features))
    }
}

} // verus!

verus! {

/// The palette symbol the writer uses for each enumeration value.
pub open spec fn ear_mode_sym(m: EarMode) -> MagicPixelsV0 {
    match m {
        EarMode::Above => MagicPixelsV0::Blue,
        EarMode::Sides => MagicPixelsV0::Green,
        EarMode::Behind => MagicPixelsV0::Purple,
        EarMode::Around => MagicPixelsV0::Cyan,
        EarMode::Floppy => MagicPixelsV0::Orange,
        EarMode::Cross => MagicPixelsV0::Pink,
        EarMode::Out => MagicPixelsV0::Purple2,
        EarMode::Tall => MagicPixelsV0::White,
        EarMode::TallCross => MagicPixelsV0::Gray,
        EarMode::Off => MagicPixelsV0::Unknown,
    }
}

pub open spec fn ear_anchor_sym(a: EarAnchor) -> MagicPixelsV0 {
    match a {
        EarAnchor::Center => MagicPixelsV0::Blue,
        EarAnchor::Front => MagicPixelsV0::Green,
        EarAnchor::Back => MagicPixelsV0::Red,
    }
}

pub open spec fn claws_horn_sym(claws: bool, horn: bool) -> MagicPixelsV0 {
    if claws && !horn {
        MagicPixelsV0::Green
    } else if !claws && horn {
        MagicPixelsV0::Purple
    } else if claws && horn {
        MagicPixelsV0::Cyan
    } else {
        MagicPixelsV0::Unknown
    }
}

pub open spec fn tail_mode_sym(m: TailMode) -> MagicPixelsV0 {
    match m {
        TailMode::Down => MagicPixelsV0::Blue,
        TailMode::Back => MagicPixelsV0::Green,
        TailMode::Up => MagicPixelsV0::Purple,
        TailMode::Vertical => MagicPixelsV0::Orange,
        TailMode::Cross => MagicPixelsV0::Pink,
        TailMode::CrossOverlap => MagicPixelsV0::Purple2,
        TailMode::Star => MagicPixelsV0::White,
        TailMode::StarOverlap => MagicPixelsV0::Gray,
        TailMode::Off => MagicPixelsV0::Unknown,
    }
}

pub open spec fn wing_mode_sym(m: WingMode) -> MagicPixelsV0 {
    match m {
        WingMode::SymmetricDual => MagicPixelsV0::Pink,
        WingMode::SymmetricSingle => MagicPixelsV0::Green,
        WingMode::AsymmetricL => MagicPixelsV0::Cyan,
        WingMode::AsymmetricR => MagicPixelsV0::Orange,
        WingMode::AsymmetricDual => MagicPixelsV0::Purple,
        WingMode::Flat => MagicPixelsV0::Purple2,
        WingMode::Off => MagicPixelsV0::Unknown,
    }
}

/// The packed bends value the writer stores in cell 5.
pub open spec fn v0_bends_argb(t: TailData) -> int {
    (255 - unit_to_px_val(t.bends[0] as int)) * 0x1000000 + unit_to_px_val(t.bends[1] as int)
        * 0x10000 + unit_to_px_val(t.bends[2] as int) * 0x100 + unit_to_px_val(t.bends[3] as int)
}

/// Clamped snout geometry as written: width at most 7, height at most 4,
/// depth at most 8, and the offset clamped so the snout fits below the
/// brow (`offset <= 8 - height`).
pub open spec fn v0_snout_argb(s: SnoutData) -> int {
    let w = if s.width > 7 {
        7int
    } else {
        s.width as int
    };
    let h = if s.height > 4 {
        4int
    } else {
        s.height as int
    };
    let d = if s.depth > 8 {
        8int
    } else {
        s.depth as int
    };
    w * 0x10000 + h * 0x100 + d
}

pub open spec fn v0_snout_offset(s: SnoutData) -> int {
    let h = if s.height > 4 {
        4int
    } else {
        s.height as int
    };
    if s.offset > 8 - h {
        8 - h
    } else {
        s.offset as int
    }
}

/// The `etc` value of cell 7: chest byte, snout offset, cape flag.
pub open spec fn v0_etc_argb(f: EarsFeatures) -> int {
    let off = match f.snout {
        Some(s) => v0_snout_offset(s),
        None => 0,
    };
    (f.chest_size as int / 31) * 0x10000 + off * 0x100 + (if f.cape_enabled {
        16int
    } else {
        0int
    })
}

/// The ARGB value the writer stores in each cell, or `None` where the cell
/// is left untouched.
pub open spec fn v0_written_cell(f: EarsFeatures, idx: int) -> Option<int> {
    if idx == 0 {
        Some(0xFF3F23D8)
    } else if idx == 1 {
        Some(ear_mode_sym(f.ear_mode).hex_spec())
    } else if idx == 2 {
        if f.ear_mode != EarMode::Off && f.ear_mode != EarMode::Behind {
            Some(ear_anchor_sym(f.ear_anchor).hex_spec())
        } else {
            None
        }
    } else if idx == 3 {
        Some(claws_horn_sym(f.claws, f.horn).hex_spec())
    } else if idx == 4 {
        match f.tail {
            Some(t) => Some(tail_mode_sym(t.mode).hex_spec()),
            None => None,
        }
    } else if idx == 5 {
        match f.tail {
            Some(t) => if t.mode != TailMode::Off {
                Some(v0_bends_argb(t))
            } else {
                None
            },
            None => None,
        }
    } else if idx == 6 {
        match f.snout {
            Some(s) => Some(v0_snout_argb(s)),
            None => None,
        }
    } else if idx == 7 {
        Some(v0_etc_argb(f))
    } else if idx == 8 {
        match f.wing {
            Some(w) => Some(wing_mode_sym(w.mode).hex_spec()),
            None => None,
        }
    } else if idx == 9 {
        match f.wing {
            Some(w) => Some(
                (if w.animated {
                    MagicPixelsV0::Blue
                } else {
                    MagicPixelsV0::Red
                }).hex_spec(),
            ),
            None => None,
        }
    } else if idx == 10 {
        Some(
            (if f.emissive {
                MagicPixelsV0::Orange
            } else {
                MagicPixelsV0::Blue
            }).hex_spec(),
        )
    } else {
        None
    }
}

/// A record every field of which survives a V0 write-then-parse round
/// trip.
pub open spec fn v0_representable(f: EarsFeatures) -> bool {
    &&& features_valid(f)
    &&& f.data_version == 0
    &&& (f.ear_mode == EarMode::Off || f.ear_mode == EarMode::Behind ==> f.ear_anchor
        == EarAnchor::Center)
    &&& (f.tail matches Some(t) ==> {
        &&& v0_bend_representable(t.bends[0] as int)
        &&& v0_bend_representable(t.bends[1] as int)
        &&& v0_bend_representable(t.bends[2] as int)
        &&& v0_bend_representable(t.bends[3] as int)
        &&& t.segments == 1 + (if t.bends[1] != 0 {
            1int
        } else {
            0int
        }) + (if t.bends[2] != 0 {
            1int
        } else {
            0int
        }) + (if t.bends[3] != 0 {
            1int
        } else {
            0int
        })
    })
    &&& (f.snout matches Some(s) ==> s.offset + s.height <= 8)
    &&& f.chest_size % 31 == 0
}

/// An image whose conditionally written cells read as "feature absent", so
/// that a fresh write round-trips. A fully transparent black image
/// qualifies.
pub open spec fn v0_neutral(im: EarsImage) -> bool {
    &&& v0_tail_mode(cell_sym(im, 4)) == TailMode::Off
    &&& (cell_argb(im, 6) / 0x10000) % 0x100 == 0
    &&& (cell_argb(im, 6) / 0x100) % 0x100 == 0
    &&& cell_argb(im, 6) % 0x100 == 0
    &&& v0_wing_mode(cell_sym(im, 8)) == WingMode::Off
}

/// Encodes a bend numerator into its stored pixel byte.
fn unit_to_px_val_exec(num: i16) -> (r: u32)
    requires
        -8064 <= num <= 8064,
    ensures
        r == unit_to_px_val(num as int),
        r <= 255,
{
    if num == 0 {
        return 0;
    }
    let mag: u16 = if num >= 0 {
        num as u16
    } else {
        let m32: i32 = 0 - (num as i32);
        m32 as u16
    };
    let q: u16 = mag / 63;
    proof {
        assert(mag as int == (if num >= 0 { num as int } else { -(num as int) }));
        if num >= 0 {
            assert(trunc_div(num as int, 63) == q);
        } else {
            assert(trunc_div(num as int, 63) == -(q as int));
        }
    }
    if num > 0 {
        if q >= 1 {
            (q as u32) + 127
        } else {
            128
        }
    } else {
        if q >= 2 {
            129 - (q as u32)
        } else {
            128
        }
    }
}

pub struct EarsWriterV0;

impl EarsWriterV0 {
    /// Writes a feature record into the V0 magic-pixel cells. On a
    /// sufficiently large image (at least 4 by 35) every targeted cell is
    /// set and the call succeeds; pixels outside the cell grid are never
    /// touched. Writing a representable record over a neutral image
    /// produces an image that parses back to exactly that record.
    #[verifier::rlimit(100)]
    pub fn write(image: &mut EarsImage, features: &EarsFeatures) -> (r: Result<(), EarsError>)
        requires
            old(image).wf(),
            features_valid(*features),
        ensures
            final(image).wf(),
            final(image).width_spec() == old(image).width_spec(),
            final(image).height_spec() == old(image).height_spec(),
            !(old(image).width_spec() >= 4 && old(image).height_spec() >= 35) ==> {
                &&& r is Err
                &&& *final(image) == *old(image)
            },
            old(image).width_spec() >= 4 && old(image).height_spec() >= 35 ==> {
                &&& r matches Ok(u)
                &&& forall|idx: int|
                    0 <= idx < 11 ==> match #[trigger] v0_written_cell(*features, idx) {
                        Some(v) => cell_argb(*final(image), idx) == v,
                        None => final(image).px(cell_x(idx), cell_y(idx)) == old(image).px(
                            cell_x(idx),
                            cell_y(idx),
                        ),
                    }
                &&& forall|x: int, y: int|
                    old(image).in_bounds(x, y) && !is_v0_cell(x, y) ==> final(image).px(x, y)
                        == old(image).px(x, y)
            },
            old(image).width_spec() >= 4 && old(image).height_spec() >= 35 && v0_representable(
                *features,
            ) && v0_neutral(*old(image)) ==> v0_decodes_to(*final(image), *features),
    {
        if !(image.width() >= 4 && image.height() >= 35) {
            return Err(EarsError::InvalidMagicPixelLocation(0));
        }
        let mut plan: Vec<(u32, Option<u32>)> = Vec::new();
        plan.push((0, Some(0xFF3F23D8)));
        plan.push(
            (
                1,
                Some(
                    match features.ear_mode {
                        EarMode::Above => 0xFF3F23D8,
                        EarMode::Sides => 0xFF23D848,
                        EarMode::Behind => 0xFFB923D8,
                        EarMode::Around => 0xFF23D8C6,
                        EarMode::Floppy => 0xFFD87823,
                        EarMode::Cross => 0xFFD823B7,
                        EarMode::Out => 0xFFD823FF,
                        EarMode::Tall => 0xFFFEFDF2,
                        EarMode::TallCross => 0xFF5E605A,
                        EarMode::Off => 0xFF000000,
                    },
                ),
            ),
        );
        if features.ear_mode != EarMode::Off && features.ear_mode != EarMode::Behind {
            plan.push(
                (
                    2,
                    Some(
                        match features.ear_anchor {
                            EarAnchor::Center => 0xFF3F23D8,
                            EarAnchor::Front => 0xFF23D848,
                            EarAnchor::Back => 0xFFD82350,
                        },
                    ),
                ),
            );
        } else {
            plan.push((2, None));
        }
        plan.push(
            (
                3,
                Some(
                    if features.claws && !features.horn {
                        0xFF23D848
                    } else if !features.claws && features.horn {
                        0xFFB923D8
                    } else if features.claws && features.horn {
                        0xFF23D8C6
                    } else {
                        0xFF000000
                    },
                ),
            ),
        );
        if let Some(t) = features.tail {
            plan.push(
                (
                    4,
                    Some(
                        match t.mode {
                            TailMode::Down => 0xFF3F23D8,
                            TailMode::Back => 0xFF23D848,
                            TailMode::Up => 0xFFB923D8,
                            TailMode::Vertical => 0xFFD87823,
                            TailMode::Cross => 0xFFD823B7,
                            TailMode::CrossOverlap => 0xFFD823FF,
                            TailMode::Star => 0xFFFEFDF2,
                            TailMode::StarOverlap => 0xFF5E605A,
                            TailMode::Off => 0xFF000000,
                        },
                    ),
                ),
            );
            if t.mode != TailMode::Off {
                proof {
                    assert(tail_valid(t));
                    assert(-8064 <= t.bends[0] <= 8064);
                    assert(-8064 <= t.bends[1] <= 8064);
                    assert(-8064 <= t.bends[2] <= 8064);
                    assert(-8064 <= t.bends[3] <= 8064);
                }
                let px0: u32 = unit_to_px_val_exec(t.bends[0]);
                let px1: u32 = unit_to_px_val_exec(t.bends[1]);
                let px2: u32 = unit_to_px_val_exec(t.bends[2]);
                let px3: u32 = unit_to_px_val_exec(t.bends[3]);
                let argb5: u32 = (255 - px0) * 0x1000000 + px1 * 0x10000 + px2 * 0x100 + px3;
                plan.push((5, Some(argb5)));
            } else {
                plan.push((5, None));
            }
        } else {
            plan.push((4, None));
            plan.push((5, None));
        }
        if let Some(s) = features.snout {
            let w: u8 = if s.width > 7 {
                7
            } else {
                s.width
            };
            let h: u8 = if s.height > 4 {
                4
            } else {
                s.height
            };
            let d: u8 = if s.depth > 8 {
                8
            } else {
                s.depth
            };
            let argb6: u32 = (w as u32) * 0x10000 + (h as u32) * 0x100 + (d as u32);
            plan.push((6, Some(argb6)));
        } else {
            plan.push((6, None));
        }
        let off: u8 = match features.snout {
            Some(s) => {
                let h: u8 = if s.height > 4 {
                    4
                } else {
                    s.height
                };
                if s.offset > 8 - h {
                    8 - h
                } else {
                    s.offset
                }
            },
            None => 0,
        };
        let chest_byte: u32 = (features.chest_size / 31) as u32;
        let argb7: u32 = chest_byte * 0x10000 + (off as u32) * 0x100 + (if features.cape_enabled {
            16
        } else {
            0
        });
        plan.push((7, Some(argb7)));
        if let Some(w) = features.wing {
            plan.push(
                (
                    8,
                    Some(
                        match w.mode {
                            WingMode::SymmetricDual => 0xFFD823B7,
                            WingMode::SymmetricSingle => 0xFF23D848,
                            WingMode::AsymmetricL => 0xFF23D8C6,
                            WingMode::AsymmetricR => 0xFFD87823,
                            WingMode::AsymmetricDual => 0xFFB923D8,
                            WingMode::Flat => 0xFFD823FF,
                            WingMode::Off => 0xFF000000,
                        },
                    ),
                ),
            );
            plan.push(
                (
                    9,
                    Some(
                        if w.animated {
                            0xFF3F23D8
                        } else {
                            0xFFD82350
                        },
                    ),
                ),
            );
        } else {
            plan.push((8, None));
            plan.push((9, None));
        }
        plan.push(
            (
                10,
                Some(
                    if features.emissive {
                        0xFFD87823
                    } else {
                        0xFF3F23D8
                    },
                ),
            ),
        );
        proof {
            assert(plan@.len() == 11);
            assert forall|i: int| 0 <= i < 11 implies {
                &&& (#[trigger] plan@[i]).0 == i
                &&& (match plan@[i].1 {
                    Some(v) => v0_written_cell(*features, i) == Some(v as int),
                    None => v0_written_cell(*features, i) is None,
                })
            } by {}
        }
        let n: usize = plan.len();
        let mut i: usize = 0;
        while i < n
            invariant
                image.wf(),
                image.width_spec() == old(image).width_spec(),
                image.height_spec() == old(image).height_spec(),
                old(image).width_spec() >= 4,
                old(image).height_spec() >= 35,
                n == 11,
                n == plan@.len(),
                i <= n,
                forall|p: int|
                    0 <= p < 11 ==> {
                        &&& (#[trigger] plan@[p]).0 == p
                        &&& (match plan@[p].1 {
                            Some(v) => v0_written_cell(*features, p) == Some(v as int),
                            None => v0_written_cell(*features, p) is None,
                        })
                    },
                forall|p: int|
                    0 <= p < i ==> match (#[trigger] plan@[p]).1 {
                        Some(v) => cell_argb(*image, p) == v,
                        None => image.px(cell_x(p), cell_y(p)) == old(image).px(
                            cell_x(p),
                            cell_y(p),
                        ),
                    },
                forall|x: int, y: int|
                    old(image).in_bounds(x, y) && !(exists|p: int|
                        0 <= p < i && x == #[trigger] cell_x(p) && y == cell_y(p)) ==> #[trigger] image.px(
                        x,
                        y,
                    ) == old(image).px(x, y),
            decreases n - i,
        {
            let entry: (u32, Option<u32>) = plan[i];
            let ghost pre = *image;
            proof {
                vstd::arithmetic::div_mod::lemma_fundamental_div_mod(i as int, 4);
                assert(old(image).in_bounds(cell_x(i as int), cell_y(i as int)));
            }
            match entry.1 {
                Some(value) => {
                    let res = write_raw_magic_pixel(image, entry.0, value);
                    proof {
                        assert(res matches Ok(u2));
                    }
                },
                None => {},
            }
            proof {
                assert forall|p: int| 0 <= p < i + 1 implies match (#[trigger] plan@[p]).1 {
                    Some(v) => cell_argb(*image, p) == v,
                    None => image.px(cell_x(p), cell_y(p)) == old(image).px(cell_x(p), cell_y(p)),
                } by {
                    if p < i {
                        assert(!(cell_x(p) == cell_x(i as int) && cell_y(p) == cell_y(
                            i as int,
                        ))) by {
                            vstd::arithmetic::div_mod::lemma_fundamental_div_mod(p, 4);
                            vstd::arithmetic::div_mod::lemma_fundamental_div_mod(i as int, 4);
                        }
                        assert(image.px(cell_x(p), cell_y(p)) == pre.px(cell_x(p), cell_y(p)));
                    }
                }
                assert forall|x: int, y: int|
                    old(image).in_bounds(x, y) && !(exists|p: int|
                        0 <= p < i + 1 && x == #[trigger] cell_x(p) && y == cell_y(p)) implies #[trigger] image.px(
                    x,
                    y,
                ) == old(image).px(x, y) by {
                    assert(!(x == cell_x(i as int) && y == cell_y(i as int)));
                    assert(image.px(x, y) == pre.px(x, y));
                    assert(!(exists|p: int| 0 <= p < i && x == #[trigger] cell_x(p) && y == cell_y(p)));
                }
            }
            i = i + 1;
        }
        proof {
            assert forall|idx: int|
                0 <= idx < 11 implies match #[trigger] v0_written_cell(*features, idx) {
                Some(v) => cell_argb(*image, idx) == v,
                None => image.px(cell_x(idx), cell_y(idx)) == old(image).px(
                    cell_x(idx),
                    cell_y(idx),
                ),
            } by {
                assert((plan@[idx]).0 == idx);
            }
            assert forall|x: int, y: int|
                old(image).in_bounds(x, y) && !is_v0_cell(x, y) implies final(image).px(x, y)
                == old(image).px(x, y) by {
                if exists|p: int| 0 <= p < 11 && x == #[trigger] cell_x(p) && y == cell_y(p) {
                    let p = choose|p: int| 0 <= p < 11 && x == #[trigger] cell_x(p) && y == cell_y(p);
                    vstd::arithmetic::div_mod::lemma_fundamental_div_mod(p, 4);
                    assert(is_v0_cell(x, y));
                }
            }
        }
        proof {
            if v0_representable(*features) && v0_neutral(*old(image)) {
                lemma_v0_roundtrip(*old(image), *image, *features);
            }
        }
        Ok(())
    }
}

/// Writing a representable record over a neutral image yields an image
/// that decodes to exactly that record.
#[verifier::rlimit(100)]
proof fn lemma_v0_roundtrip(im0: EarsImage, im1: EarsImage, f: EarsFeatures)
    requires
        v0_representable(f),
        v0_neutral(im0),
        forall|idx: int|
            0 <= idx < 11 ==> match #[trigger] v0_written_cell(f, idx) {
                Some(v) => cell_argb(im1, idx) == v,
                None => im1.px(cell_x(idx), cell_y(idx)) == im0.px(cell_x(idx), cell_y(idx)),
            },
    ensures
        v0_decodes_to(im1, f),
{
    let c0 = v0_written_cell(f, 0);
    let c1 = v0_written_cell(f, 1);
    let c2 = v0_written_cell(f, 2);
    let c3 = v0_written_cell(f, 3);
    let c7 = v0_written_cell(f, 7);
    let c10 = v0_written_cell(f, 10);
    assert(cell_argb(im1, 0) == 0xFF3F23D8);
    assert(cell_argb(im1, 1) == ear_mode_sym(f.ear_mode).hex_spec());
    assert(f.ear_mode == v0_ear_mode(cell_sym(im1, 1)));
    if f.ear_mode != EarMode::Off && f.ear_mode != EarMode::Behind {
        assert(cell_argb(im1, 2) == ear_anchor_sym(f.ear_anchor).hex_spec());
        assert(f.ear_anchor == v0_ear_anchor(cell_sym(im1, 2)));
    }
    assert(cell_argb(im1, 3) == claws_horn_sym(f.claws, f.horn).hex_spec());
    assert(f.claws == v0_claws_horn(cell_sym(im1, 3)).0);
    assert(f.horn == v0_claws_horn(cell_sym(im1, 3)).1);
    lemma_v0_tail_roundtrip(im0, im1, f);
    lemma_v0_snout_roundtrip(im0, im1, f);
    assert(v0_chest_rel(cell_argb(im1, 7), f.chest_size)) by {
        lemma_v0_etc_bytes(f);
        assert((f.chest_size as int / 31) * 31 == f.chest_size) by {
            vstd::arithmetic::div_mod::lemma_fundamental_div_mod(f.chest_size as int, 31);
        }
    }
    assert(f.cape_enabled == ((cell_argb(im1, 7) / 16) % 2 == 1)) by {
        lemma_v0_etc_bytes(f);
    }
    lemma_v0_wing_roundtrip(im0, im1, f);
    assert(f.emissive == (cell_argb(im1, 10) == 0xFFD87823));
}

/// Byte decomposition of the cell-7 value.
proof fn lemma_v0_etc_bytes(f: EarsFeatures)
    requires
        v0_representable(f),
    ensures
        (v0_etc_argb(f) / 0x10000) % 0x100 == f.chest_size as int / 31,
        (v0_etc_argb(f) / 0x100) % 0x100 == (match f.snout {
            Some(s) => v0_snout_offset(s),
            None => 0,
        }),
        ((v0_etc_argb(f) / 16) % 2 == 1) == f.cape_enabled,
        v0_etc_argb(f) / 0x1000000 == 0,
{
    let chest = f.chest_size as int / 31;
    let off = match f.snout {
        Some(s) => v0_snout_offset(s),
        None => 0,
    };
    let cape = if f.cape_enabled {
        16int
    } else {
        0int
    };
    let x = v0_etc_argb(f);
    assert(0 <= chest <= 128) by {
        assert(f.chest_size <= 3968);
        assert(f.chest_size as int / 31 <= 3968int / 31) by {
            vstd::arithmetic::div_mod::lemma_div_is_ordered(f.chest_size as int, 3968, 31);
        }
    }
    assert(0 <= off <= 8);
    vstd::arithmetic::div_mod::lemma_fundamental_div_mod_converse(
        x,
        0x10000,
        chest,
        off * 0x100 + cape,
    );
    vstd::arithmetic::div_mod::lemma_fundamental_div_mod_converse(chest, 0x100, 0, chest);
    vstd::arithmetic::div_mod::lemma_fundamental_div_mod_converse(
        x,
        0x100,
        chest * 0x100 + off,
        cape,
    );
    vstd::arithmetic::div_mod::lemma_fundamental_div_mod_converse(
        chest * 0x100 + off,
        0x100,
        chest,
        off,
    );
    vstd::arithmetic::div_mod::lemma_fundamental_div_mod_converse(
        x,
        16,
        chest * 0x1000 + off * 0x10 + (if f.cape_enabled {
            1int
        } else {
            0int
        }),
        0,
    );
    vstd::arithmetic::div_mod::lemma_fundamental_div_mod_converse(
        chest * 0x1000 + off * 0x10 + (if f.cape_enabled {
            1int
        } else {
            0int
        }),
        2,
        chest * 0x800 + off * 0x8,
        if f.cape_enabled {
            1int
        } else {
            0int
        },
    );
    vstd::arithmetic::div_mod::lemma_fundamental_div_mod_converse(x, 0x1000000, 0, x);
}

#[verifier::rlimit(100)]
proof fn lemma_v0_tail_roundtrip(im0: EarsImage, im1: EarsImage, f: EarsFeatures)
    requires
        v0_representable(f),
        v0_neutral(im0),
        forall|idx: int|
            0 <= idx < 11 ==> match #[trigger] v0_written_cell(f, idx) {
                Some(v) => cell_argb(im1, idx) == v,
                None => im1.px(cell_x(idx), cell_y(idx)) == im0.px(cell_x(idx), cell_y(idx)),
            },
    ensures
        v0_tail_rel(cell_argb(im1, 4), cell_argb(im1, 5), f.tail),
{
    let c4 = v0_written_cell(f, 4);
    let c5 = v0_written_cell(f, 5);
    match f.tail {
        None => {
            assert(v0_written_cell(f, 4) is None);
            assert(cell_argb(im1, 4) == cell_argb(im0, 4));
            assert(v0_tail_mode(cell_sym(im1, 4)) == TailMode::Off);
        },
        Some(t) => {
            assert(tail_valid(t));
            assert(t.mode != TailMode::Off);
            assert(cell_argb(im1, 4) == tail_mode_sym(t.mode).hex_spec());
            assert(v0_tail_mode(cell_sym(im1, 4)) == t.mode);
            let argb5 = cell_argb(im1, 5);
            assert(argb5 == v0_bends_argb(t));
            let px0 = unit_to_px_val(t.bends[0] as int);
            let px1 = unit_to_px_val(t.bends[1] as int);
            let px2 = unit_to_px_val(t.bends[2] as int);
            let px3 = unit_to_px_val(t.bends[3] as int);
            lemma_unit_px_range(t.bends[0] as int);
            lemma_unit_px_range(t.bends[1] as int);
            lemma_unit_px_range(t.bends[2] as int);
            lemma_unit_px_range(t.bends[3] as int);
            vstd::arithmetic::div_mod::lemma_fundamental_div_mod_converse(
                argb5,
                0x1000000,
                255 - px0,
                px1 * 0x10000 + px2 * 0x100 + px3,
            );
            vstd::arithmetic::div_mod::lemma_fundamental_div_mod_converse(
                argb5,
                0x10000,
                (255 - px0) * 0x100 + px1,
                px2 * 0x100 + px3,
            );
            vstd::arithmetic::div_mod::lemma_fundamental_div_mod_converse(
                (255 - px0) * 0x100 + px1,
                0x100,
                255 - px0,
                px1,
            );
            vstd::arithmetic::div_mod::lemma_fundamental_div_mod_converse(
                argb5,
                0x100,
                ((255 - px0) * 0x10000 + px1 * 0x100 + px2),
                px3,
            );
            vstd::arithmetic::div_mod::lemma_fundamental_div_mod_converse(
                (255 - px0) * 0x10000 + px1 * 0x100 + px2,
                0x100,
                (255 - px0) * 0x100 + px1,
                px2,
            );
            assert(argb5 / 0x1000000 == 255 - px0);
            assert((argb5 / 0x10000) % 0x100 == px1);
            assert((argb5 / 0x100) % 0x100 == px2);
            assert(argb5 % 0x100 == px3);
            lemma_tail_bend_symmetry(t.bends[0] as int);
            lemma_tail_bend_symmetry(t.bends[1] as int);
            lemma_tail_bend_symmetry(t.bends[2] as int);
            lemma_tail_bend_symmetry(t.bends[3] as int);
        },
    }
}

/// The stored pixel byte always lies in `0 ..= 255`.
proof fn lemma_unit_px_range(num: int)
    requires
        v0_bend_representable(num),
    ensures
        0 <= unit_to_px_val(num) <= 255,
{
    let j = choose|j: int|
        num == 63 * j && (j == 0 || (1 <= j <= 128) || (-128 <= j <= -2)) && #[trigger] (j * 63)
            == num * 1;
    lemma_trunc_div_63(j);
}

#[verifier::rlimit(100)]
proof fn lemma_v0_snout_roundtrip(im0: EarsImage, im1: EarsImage, f: EarsFeatures)
    requires
        v0_representable(f),
        v0_neutral(im0),
        forall|idx: int|
            0 <= idx < 11 ==> match #[trigger] v0_written_cell(f, idx) {
                Some(v) => cell_argb(im1, idx) == v,
                None => im1.px(cell_x(idx), cell_y(idx)) == im0.px(cell_x(idx), cell_y(idx)),
            },
    ensures
        v0_snout_rel(cell_argb(im1, 6), cell_argb(im1, 7), f.snout),
{
    let c6 = v0_written_cell(f, 6);
    let c7 = v0_written_cell(f, 7);
    lemma_v0_etc_bytes(f);
    match f.snout {
        None => {
            assert(v0_written_cell(f, 6) is None);
            assert(cell_argb(im1, 6) == cell_argb(im0, 6));
        },
        Some(s) => {
            assert(snout_valid(s));
            let argb6 = cell_argb(im1, 6);
            assert(argb6 == v0_snout_argb(s));
            let w = s.width as int;
            let h = s.height as int;
            let d = s.depth as int;
            vstd::arithmetic::div_mod::lemma_fundamental_div_mod_converse(
                argb6,
                0x10000,
                w,
                h * 0x100 + d,
            );
            vstd::arithmetic::div_mod::lemma_fundamental_div_mod_converse(w, 0x100, 0, w);
            vstd::arithmetic::div_mod::lemma_fundamental_div_mod_converse(
                argb6,
                0x100,
                w * 0x100 + h,
                d,
            );
            vstd::arithmetic::div_mod::lemma_fundamental_div_mod_converse(
                w * 0x100 + h,
                0x100,
                w,
                h,
            );
            assert((argb6 / 0x10000) % 0x100 == w);
            assert((argb6 / 0x100) % 0x100 == h);
            assert(argb6 % 0x100 == d);
            assert(s.offset + s.height <= 8);
        },
    }
}

#[verifier::rlimit(100)]
proof fn lemma_v0_wing_roundtrip(im0: EarsImage, im1: EarsImage, f: EarsFeatures)
    requires
        v0_representable(f),
        v0_neutral(im0),
        forall|idx: int|
            0 <= idx < 11 ==> match #[trigger] v0_written_cell(f, idx) {
                Some(v) => cell_argb(im1, idx) == v,
                None => im1.px(cell_x(idx), cell_y(idx)) == im0.px(cell_x(idx), cell_y(idx)),
            },
    ensures
        v0_wing_rel(cell_argb(im1, 8), cell_argb(im1, 9), f.wing),
{
    let c8 = v0_written_cell(f, 8);
    let c9 = v0_written_cell(f, 9);
    match f.wing {
        None => {
            assert(v0_written_cell(f, 8) is None);
            assert(cell_argb(im1, 8) == cell_argb(im0, 8));
        },
        Some(w) => {
            assert(wing_valid(w));
            assert(cell_argb(im1, 8) == wing_mode_sym(w.mode).hex_spec());
            assert(v0_wing_mode(cell_sym(im1, 8)) == w.mode);
            if w.animated {
                assert(cell_argb(im1, 9) == 0xFF3F23D8);
            } else {
                assert(cell_argb(im1, 9) == 0xFFD82350);
            }
        },
    }
}

} // verus!
