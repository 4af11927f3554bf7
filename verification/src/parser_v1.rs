//! The V1 bit-packed feature codec: cell `(0, 32)` holds the detection
//! colour, and the remaining fifteen cells of the four-by-four grid carry a
//! 45-byte payload in their R, G, B channels, decoded MSB first.

use vstd::prelude::*;
use crate::bits::{bits_value, bytes_bits, BitReader, BitWriter, val_bits, zero_bits};
use crate::errors::EarsError;
use crate::features::{
    EarAnchor, EarMode, EarsFeatures, SnoutData, TailData, TailMode, WingData, WingMode,
    features_valid, snout_valid, tail_valid, wing_valid,
};
use crate::image::{to_argb_hex, EarsImage};
use crate::parser_v0::{cell_argb, cell_x, cell_y, write_raw_magic_pixel};

verus! {

/// Whether `(x, y)` is one of the sixteen V1 cells.
pub open spec fn is_v1_cell(x: int, y: int) -> bool {
    0 <= x < 4 && 32 <= y < 36
}

/// V1 is detected when cell 0 holds `0xFFEA2501`.
pub open spec fn v1_detected_spec(im: EarsImage) -> bool {
    cell_argb(im, 0) == 0xFFEA2501
}

/// Byte `i` of the 45-byte payload: the R, G or B channel of cell
/// `1 + i / 3`.
pub open spec fn v1_payload_byte(im: EarsImage, i: int) -> u8 {
    let c = 1 + i / 3;
    let argb = cell_argb(im, c);
    if i % 3 == 0 {
        ((argb / 0x10000) % 0x100) as u8
    } else if i % 3 == 1 {
        ((argb / 0x100) % 0x100) as u8
    } else {
        (argb % 0x100) as u8
    }
}

pub open spec fn v1_payload(im: EarsImage) -> Seq<u8> {
    Seq::new(45, |i: int| v1_payload_byte(im, i))
}

/// Value of `n` bits of `s` starting at `pos`, MSB first.
pub open spec fn take_val(s: Seq<bool>, pos: int, n: int) -> int {
    bits_value(s.subrange(pos, pos + n)) as int
}

/// The tail mode a 3-bit ordinal denotes; reserved ordinals mean "none".
pub open spec fn v1_tail_mode_of(i: int) -> TailMode {
    if i == 1 {
        TailMode::Down
    } else if i == 2 {
        TailMode::Back
    } else if i == 3 {
        TailMode::Up
    } else if i == 4 {
        TailMode::Vertical
    } else {
        TailMode::Off
    }
}

/// How the decoder reads a payload bit sequence into a feature record.
/// This relation pins every field of `f`.
pub open spec fn v1_decodes_bits(s: Seq<bool>, f: EarsFeatures) -> bool {
    let ears = take_val(s, 8, 6);
    let mode = if ears == 0 {
        EarMode::Off
    } else {
        match EarMode::from_ordinal_spec((ears - 1) / 3 + 1) {
            Some(m) => m,
            None => EarMode::Off,
        }
    };
    let anchor = if ears == 0 {
        EarAnchor::Center
    } else {
        match EarAnchor::from_ordinal_spec((ears - 1) % 3) {
            Some(a) => a,
            None => EarAnchor::Center,
        }
    };
    let tmode = v1_tail_mode_of(take_val(s, 16, 3));
    let segments = take_val(s, 19, 2) + 1;
    let p_tail = if tmode == TailMode::Off {
        19int
    } else {
        21 + 7 * segments
    };
    let sw = take_val(s, p_tail, 3);
    let p_snout = if sw > 0 {
        p_tail + 11
    } else {
        p_tail + 3
    };
    let chest = take_val(s, p_snout, 5);
    let wing_i = take_val(s, p_snout + 5, 3);
    let wmode = match WingMode::from_ordinal_spec(wing_i) {
        Some(m) => m,
        None => WingMode::Off,
    };
    let p_wing = if wmode == WingMode::Off {
        p_snout + 8
    } else {
        p_snout + 9
    };
    &&& f.ear_mode == mode
    &&& f.ear_anchor == anchor
    &&& f.claws == s[14]
    &&& f.horn == s[15]
    &&& (tmode == TailMode::Off ==> f.tail is None)
    &&& (tmode != TailMode::Off ==> {
        &&& f.tail matches Some(t)
        &&& t.mode == tmode
        &&& t.segments == segments
        &&& t.bends[0] == v1_sam_value(s, 21)
        &&& t.bends[1] == (if segments > 1 {
            v1_sam_value(s, 28)
        } else {
            0int
        })
        &&& t.bends[2] == (if segments > 2 {
            v1_sam_value(s, 35)
        } else {
            0int
        })
        &&& t.bends[3] == (if segments > 3 {
            v1_sam_value(s, 42)
        } else {
            0int
        })
    })
    &&& (sw == 0 ==> f.snout is None)
    &&& (sw > 0 ==> f.snout == Some(
        SnoutData {
            offset: take_val(s, p_tail + 8, 3) as u8,
            width: sw as u8,
            height: (take_val(s, p_tail + 3, 2) + 1) as u8,
            depth: (take_val(s, p_tail + 5, 3) + 1) as u8,
        },
    ))
    &&& f.chest_size == chest * 128
    &&& (wmode == WingMode::Off ==> f.wing is None)
    &&& (wmode != WingMode::Off ==> f.wing == Some(
        WingData { mode: wmode, animated: s[p_snout + 8] },
    ))
    &&& f.cape_enabled == s[p_wing]
    &&& f.emissive == s[p_wing + 1]
    &&& f.data_version == 1
}

/// Value of a 7-bit sign-and-magnitude bend field starting at `pos`, as a
/// numerator over `BEND_SCALE`.
pub open spec fn v1_sam_value(s: Seq<bool>, pos: int) -> int {
    let mag = take_val(s, pos + 1, 6) * 128;
    if s[pos] {
        -mag
    } else {
        mag
    }
}

/// Decoding relation at the image level.
pub open spec fn v1_decodes_to(im: EarsImage, f: EarsFeatures) -> bool {
    v1_decodes_bits(bytes_bits(v1_payload(im)), f)
}

pub struct EarsParserV1;

impl EarsParserV1 {
    pub fn get_data_version() -> (r: u8)
        ensures
            r == 1,
    {
        1
    }

    /// V1 is present when cell 0 holds the V1 magic colour.
    pub fn detect(image: &EarsImage) -> (r: bool)
        requires
            image.wf(),
        ensures
            r == (image.in_bounds(0, 32) && v1_detected_spec(*image)),
    {
        match image.get_pixel(0, 32) {
            Some(p) => to_argb_hex(&p) == 0xFFEA2501,
            None => false,
        }
    }

    /// Parses the V1 payload into a feature record. Yields `None` when the
    /// detection pixel does not match; fails only when a cell lies outside
    /// the image.
    #[verifier::rlimit(100)]
    pub fn parse(image: &EarsImage) -> (r: Result<Option<EarsFeatures>, EarsError>)
        requires
            image.wf(),
        ensures
            !(image.in_bounds(0, 32) && v1_detected_spec(*image)) ==> {
                &&& r matches Ok(o)
                &&& o is None
            },
            image.in_bounds(0, 32) && v1_detected_spec(*image) && image.width_spec() >= 4
                && image.height_spec() >= 36 ==> {
                &&& r matches Ok(o)
                &&& o matches Some(f)
                &&& v1_decodes_to(*image, f)
            },
            image.in_bounds(0, 32) && v1_detected_spec(*image) && !(image.width_spec() >= 4
                && image.height_spec() >= 36) ==> r is Err,
    {
        if !Self::detect(image) {
            return Ok(None);
        }
        let data: Vec<u8> = match Self::read_payload(image) {
            Ok(d) => d,
            Err(e) => {
                return Err(e);
            },
        };
        let features: EarsFeatures = match Self::parse_payload(&data) {
            Ok(f) => f,
            Err(e) => {
                proof {
                    assert(false);
                }
                return Err(e);
            },
        };
        proof {
            assert(v1_decodes_to(*image, features));
        }
        Ok(Some(features))
    }

    /// Decodes the 45-byte payload with the bit reader, field by field.
    #[verifier::rlimit(100)]
    fn parse_payload(data: &Vec<u8>) -> (r: Result<EarsFeatures, EarsError>)
        requires
            data@.len() == 45,
        ensures
            r matches Ok(f) && v1_decodes_bits(bytes_bits(data@), f),
    {
        let ghost s = bytes_bits(data@);
        let mut reader = BitReader::new(data.as_slice());
        proof {
            vstd::arithmetic::power2::lemma2_to64();
        }
        let _version: u32 = match reader.read(8) {
            Ok(v) => v,
            Err(e) => {
                proof {
                    assert(false);
                }
                return Err(e);
            },
        };
        let ears: u32 = match reader.read(6) {
            Ok(v) => v,
            Err(e) => {
                proof {
                    assert(false);
                }
                return Err(e);
            },
        };
        let (ear_mode, ear_anchor): (EarMode, EarAnchor) = if ears == 0 {
            (EarMode::Off, EarAnchor::Center)
        } else {
            let m = match EarMode::from_ordinal((((ears - 1) / 3) + 1) as u8) {
                Some(m) => m,
                None => EarMode::Off,
            };
            let a = match EarAnchor::from_ordinal(((ears - 1) % 3) as u8) {
                Some(a) => a,
                None => EarAnchor::Center,
            };
            (m, a)
        };
        let claws: bool = match reader.read_bool() {
            Ok(v) => v,
            Err(e) => {
                proof {
                    assert(false);
                }
                return Err(e);
            },
        };
        let horn: bool = match reader.read_bool() {
            Ok(v) => v,
            Err(e) => {
                proof {
                    assert(false);
                }
                return Err(e);
            },
        };
        let tail_i: u32 = match reader.read(3) {
            Ok(v) => v,
            Err(e) => {
                proof {
                    assert(false);
                }
                return Err(e);
            },
        };
        let tail_mode: TailMode = if tail_i == 1 {
            TailMode::Down
        } else if tail_i == 2 {
            TailMode::Back
        } else if tail_i == 3 {
            TailMode::Up
        } else if tail_i == 4 {
            TailMode::Vertical
        } else {
            TailMode::Off
        };
        let tail: Option<TailData> = if tail_mode != TailMode::Off {
            match Self::read_tail(&mut reader, tail_mode) {
                Ok(t) => Some(t),
                Err(e) => {
                    proof {
                        assert(false);
                    }
                    return Err(e);
                },
            }
        } else {
            None
        };
        let snout: Option<SnoutData> = match Self::read_snout(&mut reader) {
            Ok(sn) => sn,
            Err(e) => {
                proof {
                    assert(false);
                }
                return Err(e);
            },
        };
        let chest: u32 = match reader.read(5) {
            Ok(v) => v,
            Err(e) => {
                proof {
                    assert(false);
                }
                return Err(e);
            },
        };
        let wing_i: u32 = match reader.read(3) {
            Ok(v) => v,
            Err(e) => {
                proof {
                    assert(false);
                }
                return Err(e);
            },
        };
        let wing_mode: WingMode = match WingMode::from_ordinal(wing_i as u8) {
            Some(m) => m,
            None => WingMode::Off,
        };
        let wing: Option<WingData> = if wing_mode != WingMode::Off {
            let animated: bool = match reader.read_bool() {
                Ok(v) => v,
                Err(e) => {
                    proof {
                        assert(false);
                    }
                    return Err(e);
                },
            };
            Some(WingData { mode: wing_mode, animated })
        } else {
            None
        };
        let cape_enabled: bool = match reader.read_bool() {
            Ok(v) => v,
            Err(e) => {
                proof {
                    assert(false);
                }
                return Err(e);
            },
        };
        let emissive: bool = match reader.read_bool() {
            Ok(v) => v,
            Err(e) => {
                proof {
                    assert(false);
                }
                return Err(e);
            },
        };
        let features = EarsFeatures {
            ear_mode,
            ear_anchor,
            tail,
            snout,
            wing,
            claws,
            horn,
            chest_size: (chest * 128) as u16,
            cape_enabled,
            emissive,
            data_version: 1,
        };
        proof {
            assert(v1_decodes_bits(s, features));
        }
        Ok(features)
    }

    /// Gathers the 45 payload bytes from the fifteen data cells.
    fn read_payload(image: &EarsImage) -> (r: Result<Vec<u8>, EarsError>)
        requires
            image.wf(),
        ensures
            image.width_spec() >= 4 && image.height_spec() >= 36 ==> {
                &&& r matches Ok(d)
                &&& d@ == v1_payload(*image)
            },
            !(image.width_spec() >= 4 && image.height_spec() >= 36) ==> r is Err,
    {
        let mut data: Vec<u8> = Vec::new();
        let mut c: u32 = 1;
        while c < 16
            invariant
                image.wf(),
                1 <= c <= 16,
                data@.len() == 3 * (c - 1),
                forall|j: int| 0 <= j < 3 * (c - 1) ==> #[trigger] data@[j] == v1_payload_byte(*image, j),
                forall|i: int| 1 <= i < c ==> image.in_bounds(#[trigger] cell_x(i), cell_y(i)),
            decreases 16 - c,
        {
            let argb: u32 = match image.get_pixel(c % 4, 32 + c / 4) {
                Some(p) => to_argb_hex(&p),
                None => {
                    proof {
                        assert(!image.in_bounds(cell_x(c as int), cell_y(c as int)));
                        assert(0 <= cell_x(c as int) < 4 && 32 <= cell_y(c as int) < 36) by {
                            vstd::arithmetic::div_mod::lemma_fundamental_div_mod(c as int, 4);
                        }
                    }
                    return Err(EarsError::InvalidPixelLocation(c % 4, c / 4));
                },
            };
            proof {
                assert((argb >> 16u32) & 0xFF == (argb / 0x10000) % 0x100 && (argb >> 8u32) & 0xFF
                    == (argb / 0x100) % 0x100 && argb & 0xFF == argb % 0x100) by (bit_vector);
                assert(argb == cell_argb(*image, c as int));
                let base = 3 * (c - 1);
                vstd::arithmetic::div_mod::lemma_fundamental_div_mod_converse(
                    base as int,
                    3,
                    c as int - 1,
                    0,
                );
                vstd::arithmetic::div_mod::lemma_fundamental_div_mod_converse(
                    base as int + 1,
                    3,
                    c as int - 1,
                    1,
                );
                vstd::arithmetic::div_mod::lemma_fundamental_div_mod_converse(
                    base as int + 2,
                    3,
                    c as int - 1,
                    2,
                );
            }
            data.push(((argb >> 16u32) & 0xFF) as u8);
            data.push(((argb >> 8u32) & 0xFF) as u8);
            data.push((argb & 0xFF) as u8);
            c = c + 1;
        }
        proof {
            assert(data@ =~= v1_payload(*image));
            assert(image.in_bounds(cell_x(3), cell_y(3)));
            assert(image.in_bounds(cell_x(12), cell_y(12)));
            assert(image.width_spec() >= 4 && image.height_spec() >= 36);
        }
        proof {
            assert(data@ =~= v1_payload(*image));
            assert(image.in_bounds(cell_x(3), cell_y(3)));
            assert(image.in_bounds(cell_x(12), cell_y(12)));
            assert(image.width_spec() >= 4 && image.height_spec() >= 36);
        }
        Ok(data)
    }

    /// Reads the tail block: a two-bit segment count, then one
    /// sign-and-magnitude bend per present segment.
    fn read_tail(reader: &mut BitReader, tail_mode: TailMode) -> (r: Result<TailData, EarsError>)
        requires
            old(reader).wf(),
            tail_mode != TailMode::Off,
        ensures
            final(reader).wf(),
            final(reader).data() == old(reader).data(),
            old(reader).pos() + 30 <= 8 * old(reader).data().len() ==> {
                &&& r matches Ok(t)
                &&& t.mode == tail_mode
                &&& 1 <= t.segments <= 4
                &&& t.segments == take_val(old(reader).bits(), old(reader).pos(), 2) + 1
                &&& t.bends[0] == v1_sam_value(old(reader).bits(), old(reader).pos() + 2)
                &&& t.bends[1] == (if t.segments > 1 {
                    v1_sam_value(old(reader).bits(), old(reader).pos() + 9)
                } else {
                    0int
                })
                &&& t.bends[2] == (if t.segments > 2 {
                    v1_sam_value(old(reader).bits(), old(reader).pos() + 16)
                } else {
                    0int
                })
                &&& t.bends[3] == (if t.segments > 3 {
                    v1_sam_value(old(reader).bits(), old(reader).pos() + 23)
                } else {
                    0int
                })
                &&& final(reader).pos() == old(reader).pos() + 2 + 7 * t.segments
            },
    {
        proof {
            vstd::arithmetic::power2::lemma2_to64();
        }
        let segments: u32 = match reader.read(2) {
            Ok(v) => v + 1,
            Err(e) => {
                return Err(e);
            },
        };
        let bend0: i16 = match Self::read_sam_unit(reader) {
            Ok(v) => v,
            Err(e) => {
                return Err(e);
            },
        };
        let bend1: i16 = if segments > 1 {
            match Self::read_sam_unit(reader) {
                Ok(v) => v,
                Err(e) => {
                    return Err(e);
                },
            }
        } else {
            0
        };
        let bend2: i16 = if segments > 2 {
            match Self::read_sam_unit(reader) {
                Ok(v) => v,
                Err(e) => {
                    return Err(e);
                },
            }
        } else {
            0
        };
        let bend3: i16 = if segments > 3 {
            match Self::read_sam_unit(reader) {
                Ok(v) => v,
                Err(e) => {
                    return Err(e);
                },
            }
        } else {
            0
        };
        Ok(
            TailData {
                mode: tail_mode,
                segments: segments as u8,
                bends: [bend0, bend1, bend2, bend3],
            },
        )
    }

    /// Reads the snout block: a three-bit width, zero meaning "no snout",
    /// then height, depth and offset.
    fn read_snout(reader: &mut BitReader) -> (r: Result<Option<SnoutData>, EarsError>)
        requires
            old(reader).wf(),
        ensures
            final(reader).wf(),
            final(reader).data() == old(reader).data(),
            old(reader).pos() + 11 <= 8 * old(reader).data().len() ==> {
                &&& r matches Ok(sn)
                &&& {
                    let s = old(reader).bits();
                    let p = old(reader).pos();
                    let sw = take_val(s, p, 3);
                    &&& (sw == 0 ==> sn is None && final(reader).pos() == p + 3)
                    &&& (sw > 0 ==> sn == Some(
                        SnoutData {
                            offset: take_val(s, p + 8, 3) as u8,
                            width: sw as u8,
                            height: (take_val(s, p + 3, 2) + 1) as u8,
                            depth: (take_val(s, p + 5, 3) + 1) as u8,
                        },
                    ) && final(reader).pos() == p + 11)
                }
            },
    {
        proof {
            vstd::arithmetic::power2::lemma2_to64();
        }
        let snout_width: u32 = match reader.read(3) {
            Ok(v) => v,
            Err(e) => {
                return Err(e);
            },
        };
        if snout_width == 0 {
            return Ok(None);
        }
        let h: u32 = match reader.read(2) {
            Ok(v) => v + 1,
            Err(e) => {
                return Err(e);
            },
        };
        let d: u32 = match reader.read(3) {
            Ok(v) => v + 1,
            Err(e) => {
                return Err(e);
            },
        };
        let off: u32 = match reader.read(3) {
            Ok(v) => v,
            Err(e) => {
                return Err(e);
            },
        };
        Ok(
            Some(
                SnoutData {
                    offset: off as u8,
                    width: snout_width as u8,
                    height: h as u8,
                    depth: d as u8,
                },
            ),
        )
    }

    /// Reads one sign-and-magnitude bend: a sign bit, then six magnitude
    /// bits, scaled to a numerator over `BEND_SCALE`.
    fn read_sam_unit(reader: &mut BitReader) -> (r: Result<i16, EarsError>)
        requires
            old(reader).wf(),
        ensures
            final(reader).wf(),
            final(reader).data() == old(reader).data(),
            old(reader).pos() + 7 <= 8 * old(reader).data().len() ==> {
                &&& r matches Ok(v)
                &&& v == v1_sam_value(old(reader).bits(), old(reader).pos())
                &&& -8064 <= v <= 8064
                &&& v % 128 == 0
                &&& final(reader).pos() == old(reader).pos() + 7
            },
            old(reader).pos() + 7 > 8 * old(reader).data().len() ==> r is Err,
    {
        let sign: bool = match reader.read_bool() {
            Ok(v) => v,
            Err(e) => {
                return Err(e);
            },
        };
        let mag: u32 = match reader.read(6) {
            Ok(v) => v,
            Err(e) => {
                return Err(e);
            },
        };
        proof {
            vstd::arithmetic::power2::lemma2_to64();
            assert(mag < 64);
        }
        let m: i16 = (mag as i16) * 128;
        proof {
            let s0 = old(reader).bits();
            let p0 = old(reader).pos();
            assert(s0.subrange(p0 + 1, p0 + 7) =~= s0.subrange(p0 + 1, p0 + 1 + 6));
        }
        if sign {
            Ok(-m)
        } else {
            Ok(m)
        }
    }
}

} // verus!

verus! {

/// Magnitude of a bend in 63ths (its numerator over `BEND_SCALE` divided
/// by 128), as stored in the six magnitude bits.
pub open spec fn bend_mag6(b: i16) -> nat {
    (((if b < 0 {
        -(b as int)
    } else {
        b as int
    })) / 128) as nat
}

/// The seven bits of one stored bend: sign, then magnitude.
pub open spec fn sam_bits(b: i16) -> Seq<bool> {
    seq![b < 0] + val_bits(bend_mag6(b), 6)
}

/// The six-bit ears composite: zero for no ears, else a base-3 pairing of
/// mode and anchor ordinals.
pub open spec fn v1_ears_val(f: EarsFeatures) -> nat {
    if f.ear_mode == EarMode::Off {
        0
    } else {
        ((f.ear_mode.ordinal_spec() - 1) * 3 + f.ear_anchor.ordinal_spec() + 1) as nat
    }
}

pub open spec fn v1_tail_ord(f: EarsFeatures) -> nat {
    match f.tail {
        Some(t) => t.mode.ordinal_spec() as nat,
        None => 0,
    }
}

pub open spec fn v1_tail_bits(t: TailData) -> Seq<bool> {
    val_bits((t.segments - 1) as nat, 2) + sam_bits(t.bends[0]) + (if t.segments > 1 {
        sam_bits(t.bends[1])
    } else {
        Seq::empty()
    }) + (if t.segments > 2 {
        sam_bits(t.bends[2])
    } else {
        Seq::empty()
    }) + (if t.segments > 3 {
        sam_bits(t.bends[3])
    } else {
        Seq::empty()
    })
}

pub open spec fn v1_snout_bits(s: Option<SnoutData>) -> Seq<bool> {
    match s {
        None => val_bits(0, 3),
        Some(sn) => val_bits(sn.width as nat, 3) + val_bits((sn.height - 1) as nat, 2) + val_bits(
            (sn.depth - 1) as nat,
            3,
        ) + val_bits(sn.offset as nat, 3),
    }
}

pub open spec fn v1_wing_bits(w: Option<WingData>) -> Seq<bool> {
    match w {
        None => val_bits(0, 3),
        Some(wd) => val_bits(wd.mode.ordinal_spec() as nat, 3) + seq![wd.animated],
    }
}

/// The exact bit sequence the writer emits for a record, before byte
/// alignment.
pub open spec fn v1_bits(f: EarsFeatures) -> Seq<bool> {
    val_bits(0, 8) + val_bits(v1_ears_val(f), 6) + seq![f.claws, f.horn] + val_bits(
        v1_tail_ord(f),
        3,
    ) + (match f.tail {
        Some(t) => v1_tail_bits(t),
        None => Seq::empty(),
    }) + v1_snout_bits(f.snout) + val_bits((f.chest_size / 128) as nat, 5) + v1_wing_bits(f.wing)
        + seq![f.cape_enabled, f.emissive]
}

/// A record every field of which survives a V1 write-then-parse round
/// trip.
pub open spec fn v1_representable(f: EarsFeatures) -> bool {
    &&& features_valid(f)
    &&& f.data_version == 1
    &&& (f.ear_mode == EarMode::Off ==> f.ear_anchor == EarAnchor::Center)
    &&& (f.tail matches Some(t) ==> {
        &&& (t.mode == TailMode::Down || t.mode == TailMode::Back || t.mode == TailMode::Up
            || t.mode == TailMode::Vertical)
        &&& t.bends[0] % 128 == 0
        &&& t.bends[1] % 128 == 0
        &&& t.bends[2] % 128 == 0
        &&& t.bends[3] % 128 == 0
        &&& (t.segments <= 1 ==> t.bends[1] == 0)
        &&& (t.segments <= 2 ==> t.bends[2] == 0)
        &&& (t.segments <= 3 ==> t.bends[3] == 0)
    })
    &&& f.chest_size % 128 == 0
}

/// Writes one sign-and-magnitude bend.
fn write_sam_unit(writer: &mut BitWriter, bend: i16)
    requires
        old(writer).wf(),
        -8064 <= bend <= 8064,
    ensures
        final(writer).wf(),
        final(writer).bits() =~= old(writer).bits() + sam_bits(bend),
{
    writer.write_bool(bend < 0);
    let mag: u16 = if bend >= 0 {
        (bend as u16) / 128
    } else {
        let m32: i32 = 0 - (bend as i32);
        (m32 as u16) / 128
    };
    proof {
        assert(mag as nat == bend_mag6(bend));
    }
    let res = writer.write_long(6, mag as u64);
    proof {
        assert(res matches Ok(u));
    }
}

/// Writes the tail block.
fn write_tail_bits(writer: &mut BitWriter, t: TailData)
    requires
        old(writer).wf(),
        tail_valid(t),
    ensures
        final(writer).wf(),
        final(writer).bits() =~= old(writer).bits() + v1_tail_bits(t),
{
    let r1 = writer.write_long(2, (t.segments - 1) as u64);
    proof {
        assert(r1 matches Ok(u));
        assert(-8064 <= t.bends[0] <= 8064);
        assert(-8064 <= t.bends[1] <= 8064);
        assert(-8064 <= t.bends[2] <= 8064);
        assert(-8064 <= t.bends[3] <= 8064);
    }
    write_sam_unit(writer, t.bends[0]);
    if t.segments > 1 {
        write_sam_unit(writer, t.bends[1]);
    }
    if t.segments > 2 {
        write_sam_unit(writer, t.bends[2]);
    }
    if t.segments > 3 {
        write_sam_unit(writer, t.bends[3]);
    }
}

/// Writes the snout block.
fn write_snout_bits(writer: &mut BitWriter, s: Option<SnoutData>)
    requires
        old(writer).wf(),
        s matches Some(sn) ==> snout_valid(sn),
    ensures
        final(writer).wf(),
        final(writer).bits() =~= old(writer).bits() + v1_snout_bits(s),
{
    match s {
        Some(sn) => {
            let r1 = writer.write_long(3, sn.width as u64);
            let r2 = writer.write_long(2, (sn.height - 1) as u64);
            let r3 = writer.write_long(3, (sn.depth - 1) as u64);
            let r4 = writer.write_long(3, sn.offset as u64);
            proof {
                assert(r1 matches Ok(a) && r2 matches Ok(b) && r3 matches Ok(c) && r4 matches Ok(
                    d,
                ));
            }
        },
        None => {
            let r1 = writer.write_long(3, 0);
            proof {
                assert(r1 matches Ok(a));
            }
        },
    }
}

pub struct EarsWriterV1;

impl EarsWriterV1 {
    /// Writes the fixed-width head of the stream: version, ears, claws,
    /// horn, and the tail-mode ordinal.
    #[verifier::rlimit(100)]
    fn write_features_head(feat: &EarsFeatures, writer: &mut BitWriter)
        requires
            old(writer).wf(),
            features_valid(*feat),
        ensures
            final(writer).wf(),
            final(writer).bits() =~= old(writer).bits() + (val_bits(0, 8) + val_bits(
                v1_ears_val(*feat),
                6,
            ) + seq![feat.claws, feat.horn] + val_bits(v1_tail_ord(*feat), 3)),
    {
        let ghost b0 = old(writer).bits();
        let r1 = writer.write_long(8, 0);
        let ears: u64 = if matches!(feat.ear_mode, EarMode::Off) {
            0
        } else {
            ((feat.ear_mode.ordinal() - 1) as u64) * 3 + (feat.ear_anchor.ordinal() as u64) + 1
        };
        let ghost p1 = val_bits(0, 8);
        proof {
            assert(r1 matches Ok(a));
        }
        let r2 = writer.write_long(6, ears);
        let ghost p2 = p1 + val_bits(v1_ears_val(*feat), 6);
        proof {
            assert(r2 matches Ok(a));
            assert(ears as nat == v1_ears_val(*feat));
            vstd::seq_lib::lemma_concat_associative(b0, p1, val_bits(v1_ears_val(*feat), 6));
            assert(writer.bits() =~= b0 + p2);
        }
        writer.write_bool(feat.claws);
        writer.write_bool(feat.horn);
        let ghost p3 = p2 + seq![feat.claws, feat.horn];
        proof {
            assert((b0 + p2).push(feat.claws).push(feat.horn) =~= (b0 + p2) + seq![
                feat.claws,
                feat.horn,
            ]);
            vstd::seq_lib::lemma_concat_associative(b0, p2, seq![feat.claws, feat.horn]);
            assert(writer.bits() =~= b0 + p3);
        }
        let tail_ord: u64 = match feat.tail {
            Some(t) => t.mode.ordinal() as u64,
            None => 0,
        };
        let r3 = writer.write_long(3, tail_ord);
        let ghost p4 = p3 + val_bits(v1_tail_ord(*feat), 3);
        proof {
            assert(r3 matches Ok(a));
            assert(tail_ord as nat == v1_tail_ord(*feat));
            vstd::seq_lib::lemma_concat_associative(b0, p3, val_bits(v1_tail_ord(*feat), 3));
            assert(writer.bits() =~= b0 + p4);
        }
    }

    /// Serialises a record into the V1 bit stream (unaligned).
    #[verifier::rlimit(100)]
    fn write_features(feat: &EarsFeatures, writer: &mut BitWriter)
        requires
            old(writer).wf(),
            features_valid(*feat),
        ensures
            final(writer).wf(),
            final(writer).bits() =~= old(writer).bits() + v1_bits(*feat),
    {
        let ghost b0 = old(writer).bits();
        let ghost p4 = val_bits(0, 8) + val_bits(v1_ears_val(*feat), 6) + seq![
            feat.claws,
            feat.horn,
        ] + val_bits(v1_tail_ord(*feat), 3);
        Self::write_features_head(feat, writer);
        proof {
            assert(writer.bits() =~= b0 + p4);
        }
        if let Some(t) = feat.tail {
            write_tail_bits(writer, t);
        }
        let ghost tail_chunk = (match feat.tail {
            Some(t) => v1_tail_bits(t),
            None => Seq::<bool>::empty(),
        });
        let ghost p5 = p4 + tail_chunk;
        proof {
            if feat.tail is None {
                assert((b0 + p4) + tail_chunk =~= b0 + p4);
            }
            vstd::seq_lib::lemma_concat_associative(b0, p4, tail_chunk);
            assert(writer.bits() =~= b0 + p5);
        }
        write_snout_bits(writer, feat.snout);
        let ghost p6 = p5 + v1_snout_bits(feat.snout);
        proof {
            vstd::seq_lib::lemma_concat_associative(b0, p5, v1_snout_bits(feat.snout));
            assert(writer.bits() =~= b0 + p6);
        }
        let r4 = writer.write_long(5, (feat.chest_size / 128) as u64);
        let ghost p7 = p6 + val_bits((feat.chest_size / 128) as nat, 5);
        proof {
            assert(r4 matches Ok(a));
            vstd::seq_lib::lemma_concat_associative(
                b0,
                p6,
                val_bits((feat.chest_size / 128) as nat, 5),
            );
            assert(writer.bits() =~= b0 + p7);
        }
        match feat.wing {
            Some(w) => {
                let r5 = writer.write_long(3, w.mode.ordinal() as u64);
                proof {
                    assert(r5 matches Ok(a));
                }
                writer.write_bool(w.animated);
                proof {
                    assert(writer.bits() =~= ((b0 + p7) + val_bits(
                        w.mode.ordinal_spec() as nat,
                        3,
                    )).push(w.animated));
                    assert(writer.bits() =~= (b0 + p7) + v1_wing_bits(feat.wing));
                }
            },
            None => {
                let r5 = writer.write_long(3, 0);
                proof {
                    assert(r5 matches Ok(a));
                    assert(writer.bits() =~= (b0 + p7) + v1_wing_bits(feat.wing));
                }
            },
        }
        let ghost p8 = p7 + v1_wing_bits(feat.wing);
        proof {
            vstd::seq_lib::lemma_concat_associative(b0, p7, v1_wing_bits(feat.wing));
            assert(writer.bits() =~= b0 + p8);
        }
        writer.write_bool(feat.cape_enabled);
        writer.write_bool(feat.emissive);
        let ghost p9 = p8 + seq![feat.cape_enabled, feat.emissive];
        proof {
            assert((b0 + p8).push(feat.cape_enabled).push(feat.emissive) =~= (b0 + p8) + seq![
                feat.cape_enabled,
                feat.emissive,
            ]);
            vstd::seq_lib::lemma_concat_associative(b0, p8, seq![feat.cape_enabled, feat.emissive]);
            assert(writer.bits() =~= b0 + p9);
            assert(p9 =~= v1_bits(*feat));
        }
    }
}

} // verus!

verus! {

use vstd::arithmetic::power2::pow2;

/// Byte `i` of a sequence, or zero past its end.
pub open spec fn zext(bs: Seq<u8>, i: int) -> int {
    if 0 <= i < bs.len() {
        bs[i] as int
    } else {
        0
    }
}

/// The ARGB value the V1 writer stores in cell `c`: the detection colour
/// in cell 0, else three payload bytes under an opaque alpha.
pub open spec fn v1_cell_value(bytes: Seq<u8>, c: int) -> int {
    if c == 0 {
        0xFFEA2501
    } else {
        0xFF000000 + zext(bytes, 3 * (c - 1)) * 0x10000 + zext(bytes, 3 * (c - 1) + 1) * 0x100
            + zext(bytes, 3 * (c - 1) + 2)
    }
}

/// Reading `n` bits just after a known prefix recovers the written value.
proof fn lemma_take_at(s: Seq<bool>, pre: Seq<bool>, v: nat, n: int, suf: Seq<bool>)
    requires
        0 <= n,
        v < pow2(n as nat),
        s == pre + val_bits(v, n) + suf,
    ensures
        take_val(s, pre.len() as int, n) == v,
{
    crate::bits::lemma_concat_subrange(pre, val_bits(v, n), suf);
    crate::bits::lemma_val_bits_value(v, n);
}

/// The bit just after a known prefix is the written bit.
proof fn lemma_bool_at(s: Seq<bool>, pre: Seq<bool>, b: bool, suf: Seq<bool>)
    requires
        s == pre + seq![b] + suf,
    ensures
        s[pre.len() as int] == b,
{
}

/// A written sign-and-magnitude bend reads back as itself.
proof fn lemma_sam_at(s: Seq<bool>, pre: Seq<bool>, b: i16, suf: Seq<bool>)
    requires
        -8064 <= b <= 8064,
        b % 128 == 0,
        s == pre + sam_bits(b) + suf,
    ensures
        v1_sam_value(s, pre.len() as int) == b,
{
    let p = pre.len() as int;
    assert(sam_bits(b) == seq![b < 0] + val_bits(bend_mag6(b), 6));
    lemma_concat_associative(seq![b < 0], val_bits(bend_mag6(b), 6), suf);
    lemma_concat_associative(pre, seq![b < 0], val_bits(bend_mag6(b), 6) + suf);
    lemma_concat_associative(pre, sam_bits(b), suf);
    assert(s == pre + (sam_bits(b) + suf));
    assert(sam_bits(b) + suf == seq![b < 0] + (val_bits(bend_mag6(b), 6) + suf));
    assert(s == pre + seq![b < 0] + (val_bits(bend_mag6(b), 6) + suf));
    lemma_bool_at(s, pre, b < 0, val_bits(bend_mag6(b), 6) + suf);
    lemma_concat_associative(pre + seq![b < 0], val_bits(bend_mag6(b), 6), suf);
    assert(s == (pre + seq![b < 0]) + val_bits(bend_mag6(b), 6) + suf);
    assert(bend_mag6(b) < 64) by {
        vstd::arithmetic::div_mod::lemma_div_is_ordered(
            (if b < 0 {
                -(b as int)
            } else {
                b as int
            }),
            8064,
            128,
        );
    }
    assert(bend_mag6(b) < pow2(6)) by {
        vstd::arithmetic::power2::lemma2_to64();
    }
    lemma_take_at(s, pre + seq![b < 0], bend_mag6(b), 6, suf);
    let m = if b < 0 {
        -(b as int)
    } else {
        b as int
    };
    assert((m / 128) * 128 == m) by {
        vstd::arithmetic::div_mod::lemma_fundamental_div_mod(b as int, 128);
        let q = (b as int) / 128;
        assert(b as int == 128 * q);
        if b < 0 {
            vstd::arithmetic::div_mod::lemma_fundamental_div_mod_converse(m, 128, -q, 0);
        } else {
            vstd::arithmetic::div_mod::lemma_fundamental_div_mod_converse(m, 128, q, 0);
        }
    }
}

} // verus!

verus! {

/// The stream is between 32 and 71 bits long.
proof fn lemma_v1_bits_len(f: EarsFeatures)
    requires
        features_valid(*&f),
    ensures
        32 <= v1_bits(f).len() <= 71,
{
}

impl EarsWriterV1 {
    /// Writes a feature record into the sixteen V1 cells: the detection
    /// colour, then the bit-packed payload in the R, G, B channels, zero
    /// padded. Pixels outside the cell grid are never touched. Writing a
    /// representable record parses back to exactly that record.
    #[verifier::rlimit(100)]
    pub fn write(image: &mut EarsImage, features: &EarsFeatures) -> (r: Result<(), EarsError>)
        requires
            old(image).wf(),
            features_valid(*features),
        ensures
            final(image).wf(),
            final(image).width_spec() == old(image).width_spec(),
            final(image).height_spec() == old(image).height_spec(),
            !(old(image).width_spec() >= 4 && old(image).height_spec() >= 36) ==> {
                &&& r is Err
                &&& *final(image) == *old(image)
            },
            old(image).width_spec() >= 4 && old(image).height_spec() >= 36 ==> {
                &&& r matches Ok(u)
                &&& cell_argb(*final(image), 0) == 0xFFEA2501
                &&& bytes_bits(v1_payload(*final(image))) =~= v1_bits(*features) + zero_bits(
                    360 - v1_bits(*features).len(),
                )
                &&& forall|x: int, y: int|
                    old(image).in_bounds(x, y) && !is_v1_cell(x, y) ==> final(image).px(x, y)
                        == old(image).px(x, y)
            },
            old(image).width_spec() >= 4 && old(image).height_spec() >= 36 && v1_representable(
                *features,
            ) ==> v1_decodes_to(*final(image), *features),
    {
        if !(image.width() >= 4 && image.height() >= 36) {
            return Err(EarsError::InvalidPixelLocation(0, 0));
        }
        let mut writer = BitWriter::new();
        Self::write_features(features, &mut writer);
        writer.align();
        proof {
            lemma_v1_bits_len(*features);
            assert(Seq::<bool>::empty() + v1_bits(*features) =~= v1_bits(*features));
        }
        let buf: Vec<u8> = writer.into_bytes();
        let ghost fb = v1_bits(*features) + zero_bits(
            ((v1_bits(*features).len() + 7) / 8) * 8 - v1_bits(*features).len(),
        );
        proof {
            assert(bytes_bits(buf@) == fb);
            assert(buf@.len() <= 9);
        }
        let mut plan: Vec<(u32, u32)> = Vec::new();
        plan.push((0, 0xFFEA2501));
        let mut c: u32 = 1;
        while c < 16
            invariant
                1 <= c <= 16,
                plan@.len() == c,
                buf@.len() <= 9,
                forall|p: int|
                    0 <= p < c ==> {
                        &&& (#[trigger] plan@[p]).0 == p
                        &&& plan@[p].1 == v1_cell_value(buf@, p)
                    },
            decreases 16 - c,
        {
            let base: usize = 3 * ((c - 1) as usize);
            let r: u8 = if base < buf.len() {
                buf[base]
            } else {
                0
            };
            let g: u8 = if base + 1 < buf.len() {
                buf[base + 1]
            } else {
                0
            };
            let b: u8 = if base + 2 < buf.len() {
                buf[base + 2]
            } else {
                0
            };
            let argb: u32 = 0xFF000000 + (r as u32) * 0x10000 + (g as u32) * 0x100 + (b as u32);
            plan.push((c, argb));
            c = c + 1;
        }
        let n: usize = plan.len();
        let mut i: usize = 0;
        while i < n
            invariant
                image.wf(),
                image.width_spec() == old(image).width_spec(),
                image.height_spec() == old(image).height_spec(),
                old(image).width_spec() >= 4,
                old(image).height_spec() >= 36,
                n == 16,
                n == plan@.len(),
                i <= n,
                forall|p: int|
                    0 <= p < 16 ==> {
                        &&& (#[trigger] plan@[p]).0 == p
                        &&& plan@[p].1 == v1_cell_value(buf@, p)
                    },
                forall|p: int| 0 <= p < i ==> cell_argb(*image, p) == v1_cell_value(buf@, p),
                forall|x: int, y: int|
                    old(image).in_bounds(x, y) && !(exists|p: int|
                        0 <= p < i && x == #[trigger] cell_x(p) && y == cell_y(p)) ==> #[trigger] image.px(
                        x,
                        y,
                    ) == old(image).px(x, y),
            decreases n - i,
        {
            let entry: (u32, u32) = plan[i];
            let ghost pre = *image;
            proof {
                vstd::arithmetic::div_mod::lemma_fundamental_div_mod(i as int, 4);
                assert(old(image).in_bounds(cell_x(i as int), cell_y(i as int)));
            }
            let res = write_raw_magic_pixel(image, entry.0, entry.1);
            proof {
                assert(res matches Ok(u2));
                assert forall|p: int| 0 <= p < i + 1 implies cell_argb(*image, p) == v1_cell_value(
                    buf@,
                    p,
                ) by {
                    if p < i {
                        assert(!(cell_x(p) == cell_x(i as int) && cell_y(p) == cell_y(
                            i as int,
                        ))) by {
                            vstd::arithmetic::div_mod::lemma_fundamental_div_mod(p, 4);
                            vstd::arithmetic::div_mod::lemma_fundamental_div_mod(i as int, 4);
                        }
                        assert(image.px(cell_x(p), cell_y(p)) == pre.px(cell_x(p), cell_y(p)));
                    }
                }
                assert forall|x: int, y: int|
                    old(image).in_bounds(x, y) && !(exists|p: int|
                        0 <= p < i + 1 && x == #[trigger] cell_x(p) && y == cell_y(p)) implies #[trigger] image.px(
                    x,
                    y,
                ) == old(image).px(x, y) by {
                    assert(!(x == cell_x(i as int) && y == cell_y(i as int)));
                    assert(image.px(x, y) == pre.px(x, y));
                    assert(!(exists|p: int|
                        0 <= p < i && x == #[trigger] cell_x(p) && y == cell_y(p)));
                }
            }
            i = i + 1;
        }
        proof {
            lemma_v1_write_payload(*image, *old(image), buf@, fb, *features);
            if v1_representable(*features) {
                lemma_v1_roundtrip_bits(
                    *features,
                    zero_bits(360 - v1_bits(*features).len()),
                );
                assert(v1_decodes_bits(bytes_bits(v1_payload(*image)), *features));
            }
            assert forall|x: int, y: int|
                old(image).in_bounds(x, y) && !is_v1_cell(x, y) implies final(image).px(x, y)
                == old(image).px(x, y) by {
                if exists|p: int| 0 <= p < 16 && x == #[trigger] cell_x(p) && y == cell_y(p) {
                    let p = choose|p: int|
                        0 <= p < 16 && x == #[trigger] cell_x(p) && y == cell_y(p);
                    vstd::arithmetic::div_mod::lemma_fundamental_div_mod(p, 4);
                    assert(is_v1_cell(x, y));
                }
            }
        }
        Ok(())
    }
}

/// After the cell writes, the image's payload carries exactly the written
/// bit stream, zero-extended to the full 360 bits.
proof fn lemma_v1_write_payload(
    im: EarsImage,
    im0: EarsImage,
    buf: Seq<u8>,
    fb: Seq<bool>,
    f: EarsFeatures,
)
    requires
        buf.len() <= 9,
        bytes_bits(buf) == fb,
        fb =~= v1_bits(f) + zero_bits(fb.len() - v1_bits(f).len()),
        v1_bits(f).len() <= fb.len(),
        forall|p: int| 0 <= p < 16 ==> cell_argb(im, p) == v1_cell_value(buf, p),
    ensures
        bytes_bits(v1_payload(im)) =~= v1_bits(f) + zero_bits(360 - v1_bits(f).len()),
{
    let zbuf = buf + Seq::new((45 - buf.len()) as nat, |i: int| 0u8);
    assert forall|j: int| 0 <= j < 45 implies #[trigger] v1_payload(im)[j] == zbuf[j] by {
        let c = 1 + j / 3;
        vstd::arithmetic::div_mod::lemma_fundamental_div_mod(j, 3);
        assert(1 <= c < 16);
        assert(cell_argb(im, c) == v1_cell_value(buf, c));
        lemma_v1_cell_bytes(buf, c);
        assert(3 * (c - 1) <= j < 3 * (c - 1) + 3);
    }
    assert(v1_payload(im) =~= zbuf);
    crate::bits::lemma_bytes_bits_concat(buf, Seq::new((45 - buf.len()) as nat, |i: int| 0u8));
    crate::bits::lemma_zero_byte_bits(45 - buf.len());
    assert(bytes_bits(zbuf) =~= fb + zero_bits(8 * (45 - buf.len())));
    assert(8 * buf.len() == fb.len());
    assert(bytes_bits(v1_payload(im)) =~= v1_bits(f) + zero_bits(360 - v1_bits(f).len()));
}

/// Byte decomposition of a written data cell.
proof fn lemma_v1_cell_bytes(buf: Seq<u8>, c: int)
    requires
        1 <= c < 16,
    ensures
        (v1_cell_value(buf, c) / 0x10000) % 0x100 == zext(buf, 3 * (c - 1)),
        (v1_cell_value(buf, c) / 0x100) % 0x100 == zext(buf, 3 * (c - 1) + 1),
        v1_cell_value(buf, c) % 0x100 == zext(buf, 3 * (c - 1) + 2),
{
    let r = zext(buf, 3 * (c - 1));
    let g = zext(buf, 3 * (c - 1) + 1);
    let b = zext(buf, 3 * (c - 1) + 2);
    let x = v1_cell_value(buf, c);
    vstd::arithmetic::div_mod::lemma_fundamental_div_mod_converse(
        x,
        0x10000,
        0xFF00 + r,
        g * 0x100 + b,
    );
    vstd::arithmetic::div_mod::lemma_fundamental_div_mod_converse(0xFF00 + r, 0x100, 0xFF, r);
    vstd::arithmetic::div_mod::lemma_fundamental_div_mod_converse(
        x,
        0x100,
        0xFF0000 + r * 0x100 + g,
        b,
    );
    vstd::arithmetic::div_mod::lemma_fundamental_div_mod_converse(
        0xFF0000 + r * 0x100 + g,
        0x100,
        0xFF00 + r,
        g,
    );
}

} // verus!

verus! {

use vstd::seq_lib::lemma_concat_associative;

/// Bit offset of the snout block in a written stream.
pub open spec fn v1_p_tail(f: EarsFeatures) -> int {
    19 + (match f.tail {
        Some(t) => 2 + 7 * (t.segments as int),
        None => 0int,
    })
}

/// Bit offset of the chest field in a written stream.
pub open spec fn v1_p_snout(f: EarsFeatures) -> int {
    v1_p_tail(f) + (if f.snout is Some {
        11int
    } else {
        3int
    })
}

/// Bit offset of the cape flag in a written stream.
pub open spec fn v1_p_cape(f: EarsFeatures) -> int {
    v1_p_snout(f) + 5 + (if f.wing is Some {
        4int
    } else {
        3int
    })
}

/// A written V1 bit stream, however zero-padded, decodes to the record it
/// was written from.
proof fn lemma_v1_roundtrip_bits(f: EarsFeatures, zs: Seq<bool>)
    requires
        v1_representable(f),
        forall|i: int| 0 <= i < zs.len() ==> !(#[trigger] zs[i]),
    ensures
        v1_decodes_bits(v1_bits(f) + zs, f),
{
    lemma_v1_fields(f, zs);
    lemma_v1_assemble(f, v1_bits(f) + zs);
}

/// Flat field-extraction facts about a written stream: combined.
proof fn lemma_v1_fields(f: EarsFeatures, zs: Seq<bool>)
    requires
        v1_representable(f),
    ensures
        ({
            let s = v1_bits(f) + zs;
            &&& take_val(s, 8, 6) == v1_ears_val(f)
            &&& s[14] == f.claws
            &&& s[15] == f.horn
            &&& take_val(s, 16, 3) == v1_tail_ord(f)
            &&& (f.tail matches Some(t) ==> {
                &&& take_val(s, 19, 2) == t.segments - 1
                &&& v1_sam_value(s, 21) == t.bends[0]
                &&& (t.segments > 1 ==> v1_sam_value(s, 28) == t.bends[1])
                &&& (t.segments > 2 ==> v1_sam_value(s, 35) == t.bends[2])
                &&& (t.segments > 3 ==> v1_sam_value(s, 42) == t.bends[3])
            })
            &&& (f.snout matches Some(sn) ==> {
                &&& take_val(s, v1_p_tail(f), 3) == sn.width
                &&& take_val(s, v1_p_tail(f) + 3, 2) == sn.height - 1
                &&& take_val(s, v1_p_tail(f) + 5, 3) == sn.depth - 1
                &&& take_val(s, v1_p_tail(f) + 8, 3) == sn.offset
            })
            &&& (f.snout is None ==> take_val(s, v1_p_tail(f), 3) == 0)
            &&& take_val(s, v1_p_snout(f), 5) == f.chest_size / 128
            &&& (f.wing matches Some(w) ==> {
                &&& take_val(s, v1_p_snout(f) + 5, 3) == w.mode.ordinal_spec()
                &&& s[v1_p_snout(f) + 8] == w.animated
            })
            &&& (f.wing is None ==> take_val(s, v1_p_snout(f) + 5, 3) == 0)
            &&& s[v1_p_cape(f)] == f.cape_enabled
            &&& s[v1_p_cape(f) + 1] == f.emissive
        }),
{
    lemma_v1_fields_front(f, zs);
    lemma_v1_fields_back(f, zs);
}

/// Flat field-extraction facts: head and tail blocks.
#[verifier::rlimit(100)]
proof fn lemma_v1_fields_front(f: EarsFeatures, zs: Seq<bool>)
    requires
        v1_representable(f),
    ensures
        ({
            let s = v1_bits(f) + zs;
            &&& take_val(s, 8, 6) == v1_ears_val(f)
            &&& s[14] == f.claws
            &&& s[15] == f.horn
            &&& take_val(s, 16, 3) == v1_tail_ord(f)
            &&& (f.tail matches Some(t) ==> {
                &&& take_val(s, 19, 2) == t.segments - 1
                &&& v1_sam_value(s, 21) == t.bends[0]
                &&& (t.segments > 1 ==> v1_sam_value(s, 28) == t.bends[1])
                &&& (t.segments > 2 ==> v1_sam_value(s, 35) == t.bends[2])
                &&& (t.segments > 3 ==> v1_sam_value(s, 42) == t.bends[3])
            })
        }),
{
    let c1 = val_bits(0, 8);
    let c2 = val_bits(v1_ears_val(f), 6);
    let c3 = seq![f.claws, f.horn];
    let c4 = val_bits(v1_tail_ord(f), 3);
    let c5 = (match f.tail {
        Some(t) => v1_tail_bits(t),
        None => Seq::<bool>::empty(),
    });
    let c6 = v1_snout_bits(f.snout);
    let c7 = val_bits((f.chest_size / 128) as nat, 5);
    let c8 = v1_wing_bits(f.wing);
    let c9 = seq![f.cape_enabled, f.emissive];
    let q1 = c1;
    let q2 = q1 + c2;
    let q3 = q2 + c3;
    let q4 = q3 + c4;
    let q5 = q4 + c5;
    let q6 = q5 + c6;
    let q7 = q6 + c7;
    let q8 = q7 + c8;
    let s = v1_bits(f) + zs;
    let r9 = c9 + zs;
    let r8 = c8 + r9;
    let r7 = c7 + r8;
    let r6 = c6 + r7;
    let r5 = c5 + r6;
    let r4 = c4 + r5;
    let r3 = c3 + r4;
    assert(v1_bits(f) == q8 + c9);
    lemma_concat_associative(q8, c9, zs);
    lemma_concat_associative(q7, c8, r9);
    lemma_concat_associative(q6, c7, r8);
    lemma_concat_associative(q5, c6, r7);
    lemma_concat_associative(q4, c5, r6);
    lemma_concat_associative(q3, c4, r5);
    lemma_concat_associative(q2, c3, r4);
    assert(s == q2 + r3);
    vstd::arithmetic::power2::lemma2_to64();
    // ears
    let ears = v1_ears_val(f);
    assert(ears < 28) by {
        if f.ear_mode != EarMode::Off {
            assert(1 <= f.ear_mode.ordinal_spec() <= 9);
            assert(0 <= f.ear_anchor.ordinal_spec() <= 2);
        }
    }
    lemma_concat_associative(q1, c2, r3);
    assert(s == q1 + c2 + r3);
    lemma_take_at(s, q1, ears, 6, r3);
    assert(take_val(s, 8, 6) == ears);
    // claws, horn
    let rr = seq![f.horn] + r4;
    assert(c3 =~= seq![f.claws] + seq![f.horn]);
    lemma_concat_associative(seq![f.claws], seq![f.horn], r4);
    lemma_concat_associative(q2, c3, r4);
    assert(s == q2 + (c3 + r4));
    assert(c3 + r4 == seq![f.claws] + rr);
    lemma_concat_associative(q2, seq![f.claws], rr);
    assert(s == q2 + seq![f.claws] + rr);
    lemma_bool_at(s, q2, f.claws, rr);
    assert(s[14] == f.claws);
    lemma_concat_associative(q2 + seq![f.claws], seq![f.horn], r4);
    assert(s == (q2 + seq![f.claws]) + seq![f.horn] + r4);
    lemma_bool_at(s, q2 + seq![f.claws], f.horn, r4);
    assert(s[15] == f.horn);
    // tail ordinal
    let tord = v1_tail_ord(f);
    assert(tord < 8) by {
        match f.tail {
            Some(t) => {
                assert(1 <= t.mode.ordinal_spec() <= 4);
            },
            None => {},
        }
    }
    lemma_concat_associative(q3, c4, r5);
    assert(s == q3 + c4 + r5);
    lemma_take_at(s, q3, tord, 3, r5);
    assert(take_val(s, 16, 3) == tord);
    match f.tail {
        None => {},
        Some(t) => {
            lemma_concat_associative(q4, c5, r6);
            assert(s == q4 + c5 + r6);
            lemma_v1_tail_chunk(f, t, s, q4, r6, zs);
        },
    }
}

/// Flat field-extraction facts: the snout block.
#[verifier::rlimit(100)]
proof fn lemma_v1_fields_snout(f: EarsFeatures, zs: Seq<bool>)
    requires
        v1_representable(f),
    ensures
        ({
            let s = v1_bits(f) + zs;
            &&& (f.snout matches Some(sn) ==> {
                &&& take_val(s, v1_p_tail(f), 3) == sn.width
                &&& take_val(s, v1_p_tail(f) + 3, 2) == sn.height - 1
                &&& take_val(s, v1_p_tail(f) + 5, 3) == sn.depth - 1
                &&& take_val(s, v1_p_tail(f) + 8, 3) == sn.offset
            })
            &&& (f.snout is None ==> take_val(s, v1_p_tail(f), 3) == 0)
        }),
{
    let c1 = val_bits(0, 8);
    let c2 = val_bits(v1_ears_val(f), 6);
    let c3 = seq![f.claws, f.horn];
    let c4 = val_bits(v1_tail_ord(f), 3);
    let c5 = (match f.tail {
        Some(t) => v1_tail_bits(t),
        None => Seq::<bool>::empty(),
    });
    let c6 = v1_snout_bits(f.snout);
    let c7 = val_bits((f.chest_size / 128) as nat, 5);
    let c8 = v1_wing_bits(f.wing);
    let c9 = seq![f.cape_enabled, f.emissive];
    let q1 = c1;
    let q2 = q1 + c2;
    let q3 = q2 + c3;
    let q4 = q3 + c4;
    let q5 = q4 + c5;
    let q6 = q5 + c6;
    let q7 = q6 + c7;
    let q8 = q7 + c8;
    let s = v1_bits(f) + zs;
    let r9 = c9 + zs;
    let r8 = c8 + r9;
    let r7 = c7 + r8;
    let r6 = c6 + r7;
    let r5 = c5 + r6;
    let r4 = c4 + r5;
    let r3 = c3 + r4;
    assert(v1_bits(f) == q8 + c9);
    lemma_concat_associative(q8, c9, zs);
    lemma_concat_associative(q7, c8, r9);
    lemma_concat_associative(q6, c7, r8);
    lemma_concat_associative(q5, c6, r7);
    lemma_concat_associative(q4, c5, r6);
    lemma_concat_associative(q3, c4, r5);
    lemma_concat_associative(q2, c3, r4);
    assert(s == q2 + r3);
    vstd::arithmetic::power2::lemma2_to64();
    // snout
    let tl = c5.len() as int;
    let p_tail = 19 + tl;
    assert(q5.len() == p_tail);
    lemma_concat_associative(q4, c5, r6);
    assert(s == q5 + r6);
    match f.snout {
        None => {
            let suf = r7;
            lemma_concat_associative(q5, val_bits(0, 3), r7);
            assert(s == q5 + val_bits(0, 3) + r7);
            lemma_take_at(s, q5, 0, 3, r7);
            assert(take_val(s, p_tail, 3) == 0);
        },
        Some(sn) => {
            assert(snout_valid(sn));
            let d1 = val_bits(sn.width as nat, 3);
            let d2 = val_bits((sn.height - 1) as nat, 2);
            let d3 = val_bits((sn.depth - 1) as nat, 3);
            let d4 = val_bits(sn.offset as nat, 3);
            assert(c6 == d1 + d2 + d3 + d4);
            let t4 = d4 + r7;
            let t3 = d3 + t4;
            let t2 = d2 + t3;
            lemma_concat_associative(d1 + d2 + d3, d4, r7);
            lemma_concat_associative(d1 + d2, d3, t4);
            lemma_concat_associative(d1, d2, t3);
            assert(r6 == d1 + t2);
            lemma_concat_associative(q5, d1, t2);
            assert(s == q5 + d1 + t2);
            lemma_take_at(s, q5, sn.width as nat, 3, t2);
            assert(take_val(s, p_tail, 3) == sn.width);
            lemma_concat_associative(q5 + d1, d2, t3);
            assert(s == (q5 + d1) + d2 + t3);
            lemma_take_at(s, q5 + d1, (sn.height - 1) as nat, 2, t3);
            assert(take_val(s, p_tail + 3, 2) == sn.height - 1);
            lemma_concat_associative((q5 + d1) + d2, d3, t4);
            assert(s == ((q5 + d1) + d2) + d3 + t4);
            lemma_take_at(s, (q5 + d1) + d2, (sn.depth - 1) as nat, 3, t4);
            assert(take_val(s, p_tail + 5, 3) == sn.depth - 1);
            lemma_concat_associative(((q5 + d1) + d2) + d3, d4, r7);
            assert(s == (((q5 + d1) + d2) + d3) + d4 + r7);
            lemma_take_at(s, ((q5 + d1) + d2) + d3, sn.offset as nat, 3, r7);
            assert(take_val(s, p_tail + 8, 3) == sn.offset);
        },
    }
    assert(q5.len() == v1_p_tail(f));
}

/// Flat field-extraction facts: chest, wing and flag blocks.
#[verifier::rlimit(100)]
proof fn lemma_v1_fields_rest(f: EarsFeatures, zs: Seq<bool>)
    requires
        v1_representable(f),
    ensures
        ({
            let s = v1_bits(f) + zs;
            &&& take_val(s, v1_p_snout(f), 5) == f.chest_size / 128
            &&& (f.wing matches Some(w) ==> {
                &&& take_val(s, v1_p_snout(f) + 5, 3) == w.mode.ordinal_spec()
                &&& s[v1_p_snout(f) + 8] == w.animated
            })
            &&& (f.wing is None ==> take_val(s, v1_p_snout(f) + 5, 3) == 0)
            &&& s[v1_p_cape(f)] == f.cape_enabled
            &&& s[v1_p_cape(f) + 1] == f.emissive
        }),
{
    let c1 = val_bits(0, 8);
    let c2 = val_bits(v1_ears_val(f), 6);
    let c3 = seq![f.claws, f.horn];
    let c4 = val_bits(v1_tail_ord(f), 3);
    let c5 = (match f.tail {
        Some(t) => v1_tail_bits(t),
        None => Seq::<bool>::empty(),
    });
    let c6 = v1_snout_bits(f.snout);
    let c7 = val_bits((f.chest_size / 128) as nat, 5);
    let c8 = v1_wing_bits(f.wing);
    let c9 = seq![f.cape_enabled, f.emissive];
    let q1 = c1;
    let q2 = q1 + c2;
    let q3 = q2 + c3;
    let q4 = q3 + c4;
    let q5 = q4 + c5;
    let q6 = q5 + c6;
    let q7 = q6 + c7;
    let q8 = q7 + c8;
    let s = v1_bits(f) + zs;
    let r9 = c9 + zs;
    let r8 = c8 + r9;
    let r7 = c7 + r8;
    let r6 = c6 + r7;
    let r5 = c5 + r6;
    let r4 = c4 + r5;
    let r3 = c3 + r4;
    assert(v1_bits(f) == q8 + c9);
    lemma_concat_associative(q8, c9, zs);
    lemma_concat_associative(q7, c8, r9);
    lemma_concat_associative(q6, c7, r8);
    lemma_concat_associative(q5, c6, r7);
    lemma_concat_associative(q4, c5, r6);
    lemma_concat_associative(q3, c4, r5);
    lemma_concat_associative(q2, c3, r4);
    assert(s == q2 + r3);
    vstd::arithmetic::power2::lemma2_to64();
    let tl = c5.len() as int;
    let p_tail = 19 + tl;
    assert(q5.len() == p_tail);
    lemma_concat_associative(q4, c5, r6);
    assert(s == q5 + r6);
    // chest
    let sl = c6.len() as int;
    let p_snout = p_tail + sl;
    assert(q6.len() == p_snout);
    lemma_concat_associative(q5, c6, r7);
    assert(s == q6 + r7);
    let chest5 = (f.chest_size / 128) as nat;
    assert(chest5 < 32) by {
        vstd::arithmetic::div_mod::lemma_div_is_ordered(f.chest_size as int, 3968, 128);
    }
    lemma_concat_associative(q6, c7, r8);
    assert(s == q6 + c7 + r8);
    lemma_take_at(s, q6, chest5, 5, r8);
    assert(take_val(s, p_snout, 5) == chest5);
    // wing
    lemma_concat_associative(q6, c7, r8);
    assert(s == q7 + r8);
    match f.wing {
        None => {
            lemma_concat_associative(q7, val_bits(0, 3), r9);
            assert(s == q7 + val_bits(0, 3) + r9);
            lemma_take_at(s, q7, 0, 3, r9);
            assert(take_val(s, p_snout + 5, 3) == 0);
        },
        Some(w) => {
            assert(wing_valid(w));
            let word = w.mode.ordinal_spec() as nat;
            assert(1 <= word <= 6);
            let e1 = val_bits(word, 3);
            let e2 = seq![w.animated];
            assert(c8 == e1 + e2);
            let u2 = e2 + r9;
            lemma_concat_associative(e1, e2, r9);
            assert(r8 == e1 + u2);
            lemma_concat_associative(q7, e1, u2);
            assert(s == q7 + e1 + u2);
            lemma_take_at(s, q7, word, 3, u2);
            assert(take_val(s, p_snout + 5, 3) == word);
            lemma_concat_associative(q7 + e1, e2, r9);
            assert(s == (q7 + e1) + e2 + r9);
            lemma_bool_at(s, q7 + e1, w.animated, r9);
            assert(s[p_snout + 8] == w.animated);
        },
    }
    // cape, emissive
    let wl = c8.len() as int;
    let p_wing_end = p_snout + 5 + wl;
    lemma_concat_associative(q7, c8, r9);
    assert(s == q8 + r9);
    assert(q8.len() == p_wing_end);
    assert(c9 =~= seq![f.cape_enabled] + seq![f.emissive]);
    let v2 = seq![f.emissive] + zs;
    lemma_concat_associative(seq![f.cape_enabled], seq![f.emissive], zs);
    assert(r9 == seq![f.cape_enabled] + v2);
    lemma_concat_associative(q8, seq![f.cape_enabled], v2);
    assert(s == q8 + seq![f.cape_enabled] + v2);
    lemma_bool_at(s, q8, f.cape_enabled, v2);
    assert(s[p_wing_end] == f.cape_enabled);
    lemma_concat_associative(q8 + seq![f.cape_enabled], seq![f.emissive], zs);
    assert(s == (q8 + seq![f.cape_enabled]) + seq![f.emissive] + zs);
    lemma_bool_at(s, q8 + seq![f.cape_enabled], f.emissive, zs);
    assert(s[p_wing_end + 1] == f.emissive);
    assert(p_tail == v1_p_tail(f));
    assert(p_snout == v1_p_snout(f));
    assert(p_wing_end == v1_p_cape(f));
}

/// Flat field-extraction facts: snout, chest, wing and flag blocks.
proof fn lemma_v1_fields_back(f: EarsFeatures, zs: Seq<bool>)
    requires
        v1_representable(f),
    ensures
        ({
            let s = v1_bits(f) + zs;
            &&& (f.snout matches Some(sn) ==> {
                &&& take_val(s, v1_p_tail(f), 3) == sn.width
                &&& take_val(s, v1_p_tail(f) + 3, 2) == sn.height - 1
                &&& take_val(s, v1_p_tail(f) + 5, 3) == sn.depth - 1
                &&& take_val(s, v1_p_tail(f) + 8, 3) == sn.offset
            })
            &&& (f.snout is None ==> take_val(s, v1_p_tail(f), 3) == 0)
            &&& take_val(s, v1_p_snout(f), 5) == f.chest_size / 128
            &&& (f.wing matches Some(w) ==> {
                &&& take_val(s, v1_p_snout(f) + 5, 3) == w.mode.ordinal_spec()
                &&& s[v1_p_snout(f) + 8] == w.animated
            })
            &&& (f.wing is None ==> take_val(s, v1_p_snout(f) + 5, 3) == 0)
            &&& s[v1_p_cape(f)] == f.cape_enabled
            &&& s[v1_p_cape(f) + 1] == f.emissive
        }),
{
    lemma_v1_fields_snout(f, zs);
    lemma_v1_fields_rest(f, zs);
}

/// From the flat extraction facts, the decoder's reading of the stream is
/// exactly the record.
#[verifier::rlimit(100)]
proof fn lemma_v1_assemble(f: EarsFeatures, s: Seq<bool>)
    requires
        v1_representable(f),
        take_val(s, 8, 6) == v1_ears_val(f),
        s[14] == f.claws,
        s[15] == f.horn,
        take_val(s, 16, 3) == v1_tail_ord(f),
        f.tail matches Some(t) ==> {
            &&& take_val(s, 19, 2) == t.segments - 1
            &&& v1_sam_value(s, 21) == t.bends[0]
            &&& (t.segments > 1 ==> v1_sam_value(s, 28) == t.bends[1])
            &&& (t.segments > 2 ==> v1_sam_value(s, 35) == t.bends[2])
            &&& (t.segments > 3 ==> v1_sam_value(s, 42) == t.bends[3])
        },
        f.snout matches Some(sn) ==> {
            &&& take_val(s, v1_p_tail(f), 3) == sn.width
            &&& take_val(s, v1_p_tail(f) + 3, 2) == sn.height - 1
            &&& take_val(s, v1_p_tail(f) + 5, 3) == sn.depth - 1
            &&& take_val(s, v1_p_tail(f) + 8, 3) == sn.offset
        },
        f.snout is None ==> take_val(s, v1_p_tail(f), 3) == 0,
        take_val(s, v1_p_snout(f), 5) == f.chest_size / 128,
        f.wing matches Some(w) ==> {
            &&& take_val(s, v1_p_snout(f) + 5, 3) == w.mode.ordinal_spec()
            &&& s[v1_p_snout(f) + 8] == w.animated
        },
        f.wing is None ==> take_val(s, v1_p_snout(f) + 5, 3) == 0,
        s[v1_p_cape(f)] == f.cape_enabled,
        s[v1_p_cape(f) + 1] == f.emissive,
    ensures
        v1_decodes_bits(s, f),
{
    let ears = v1_ears_val(f);
    if f.ear_mode != EarMode::Off {
        let mo = f.ear_mode.ordinal_spec();
        let ao = f.ear_anchor.ordinal_spec();
        vstd::arithmetic::div_mod::lemma_fundamental_div_mod_converse(ears - 1, 3, mo - 1, ao);
        assert((ears - 1) / 3 + 1 == mo);
        assert((ears - 1) % 3 == ao);
        assert(EarMode::from_ordinal_spec(mo) == Some(f.ear_mode));
        assert(EarAnchor::from_ordinal_spec(ao) == Some(f.ear_anchor));
    }
    match f.tail {
        None => {
            assert(v1_tail_mode_of(take_val(s, 16, 3)) == TailMode::Off);
            assert(v1_p_tail(f) == 19);
        },
        Some(t) => {
            assert(v1_tail_mode_of(take_val(s, 16, 3)) == t.mode);
            assert(take_val(s, 19, 2) + 1 == t.segments);
            assert(v1_p_tail(f) == 21 + 7 * (take_val(s, 19, 2) + 1));
        },
    }
    match f.snout {
        None => {},
        Some(sn) => {
            assert(snout_valid(sn));
            assert(take_val(s, v1_p_tail(f), 3) == sn.width && sn.width >= 1);
        },
    }
    assert((f.chest_size as int / 128) * 128 == f.chest_size) by {
        vstd::arithmetic::div_mod::lemma_fundamental_div_mod(f.chest_size as int, 128);
    }
    match f.wing {
        None => {
            assert(WingMode::from_ordinal_spec(0) == Some(WingMode::Off));
        },
        Some(w) => {
            assert(wing_valid(w));
            assert(WingMode::from_ordinal_spec(w.mode.ordinal_spec()) == Some(w.mode));
        },
    }
}

/// The tail chunk of a written stream reads back field for field.
#[verifier::rlimit(100)]
proof fn lemma_v1_tail_chunk(
    f: EarsFeatures,
    t: TailData,
    s: Seq<bool>,
    q4: Seq<bool>,
    r6: Seq<bool>,
    zs: Seq<bool>,
)
    requires
        v1_representable(f),
        f.tail == Some(t),
        q4.len() == 19,
        s == q4 + v1_tail_bits(t) + r6,
    ensures
        take_val(s, 19, 2) == t.segments - 1,
        v1_sam_value(s, 21) == t.bends[0],
        t.segments > 1 ==> v1_sam_value(s, 28) == t.bends[1],
        t.segments > 2 ==> v1_sam_value(s, 35) == t.bends[2],
        t.segments > 3 ==> v1_sam_value(s, 42) == t.bends[3],
{
    vstd::arithmetic::power2::lemma2_to64();
    assert(tail_valid(t));
    let g1 = val_bits((t.segments - 1) as nat, 2);
    let g2 = sam_bits(t.bends[0]);
    let g3 = (if t.segments > 1 {
        sam_bits(t.bends[1])
    } else {
        Seq::<bool>::empty()
    });
    let g4 = (if t.segments > 2 {
        sam_bits(t.bends[2])
    } else {
        Seq::<bool>::empty()
    });
    let g5 = (if t.segments > 3 {
        sam_bits(t.bends[3])
    } else {
        Seq::<bool>::empty()
    });
    assert(v1_tail_bits(t) == g1 + g2 + g3 + g4 + g5);
    let w5 = g5 + r6;
    let w4 = g4 + w5;
    let w3 = g3 + w4;
    let w2 = g2 + w3;
    lemma_concat_associative(g1 + g2 + g3 + g4, g5, r6);
    lemma_concat_associative(g1 + g2 + g3, g4, w5);
    lemma_concat_associative(g1 + g2, g3, w4);
    lemma_concat_associative(g1, g2, w3);
    lemma_concat_associative(q4, v1_tail_bits(t), r6);
    assert(s == q4 + (v1_tail_bits(t) + r6));
    assert(v1_tail_bits(t) + r6 == g1 + w2);
    lemma_concat_associative(q4, g1, w2);
    assert(s == q4 + g1 + w2);
    lemma_take_at(s, q4, (t.segments - 1) as nat, 2, w2);
    assert(take_val(s, 19, 2) == t.segments - 1);
    let h0 = q4 + g1;
    assert(h0.len() == 21);
    lemma_concat_associative(h0, g2, w3);
    assert(s == h0 + g2 + w3);
    lemma_sam_at(s, h0, t.bends[0], w3);
    if t.segments > 1 {
        let h1 = h0 + g2;
        assert(h1.len() == 28);
        lemma_concat_associative(h1, g3, w4);
        assert(s == h1 + g3 + w4);
        lemma_sam_at(s, h1, t.bends[1], w4);
        if t.segments > 2 {
            let h2 = h1 + g3;
            assert(h2.len() == 35);
            lemma_concat_associative(h2, g4, w5);
            assert(s == h2 + g4 + w5);
            lemma_sam_at(s, h2, t.bends[2], w5);
            if t.segments > 3 {
                let h3 = h2 + g4;
                assert(h3.len() == 42);
                lemma_concat_associative(h3, g5, r6);
                assert(s == h3 + g5 + r6);
                lemma_sam_at(s, h3, t.bends[3], r6);
            }
        }
    }
}

} // verus!
