//! The feature record and its enumerations. Declaration order of the enums
//! is part of the wire format: the bit-packed codec stores declaration
//! ordinals.
//!
//! Fractional quantities are stored as exact integer numerators over fixed
//! scales, so that both wire grids (steps of 1/128 in the colour-coded
//! format, 1/31 and 1/63 in the bit-packed one) embed without loss:
//! `chest_size` is a fraction `chest_size / CHEST_SCALE` of the maximum, and
//! each tail bend is a signed fraction `bend / BEND_SCALE` of a right angle.

use vstd::prelude::*;

verus! {

/// Denominator of `chest_size`: the least common multiple of the two wire
/// grids (128ths and 31ths).
pub const CHEST_SCALE: u16 = 3968;

/// Denominator of tail bends: the least common multiple of the two wire
/// grids (128ths and 63ths). A bend of `BEND_SCALE` is 90 degrees.
pub const BEND_SCALE: i16 = 8064;

#[derive(Clone, Copy, Debug, PartialEq, Eq, Structural)]
pub enum EarMode {
    Off,
    Above,
    Sides,
    Behind,
    Around,
    Floppy,
    Cross,
    Out,
    Tall,
    TallCross,
}

#[derive(Clone, Copy, Debug, PartialEq, Eq, Structural)]
pub enum EarAnchor {
    Center,
    Front,
    Back,
}

#[derive(Clone, Copy, Debug, PartialEq, Eq, Structural)]
pub enum TailMode {
    Off,
    Down,
    Back,
    Up,
    Vertical,
    Cross,
    CrossOverlap,
    Star,
    StarOverlap,
}

#[derive(Clone, Copy, Debug, PartialEq, Eq, Structural)]
pub enum WingMode {
    Off,
    SymmetricDual,
    SymmetricSingle,
    AsymmetricL,
    AsymmetricR,
    AsymmetricDual,
    Flat,
}

impl EarMode {
    pub open spec fn ordinal_spec(self) -> int {
        match self {
            EarMode::Off => 0,
            EarMode::Above => 1,
            EarMode::Sides => 2,
            EarMode::Behind => 3,
            EarMode::Around => 4,
            EarMode::Floppy => 5,
            EarMode::Cross => 6,
            EarMode::Out => 7,
            EarMode::Tall => 8,
            EarMode::TallCross => 9,
        }
    }

    pub fn ordinal(&self) -> (r: u8)
        ensures
            r == self.ordinal_spec(),
    {
        match self {
            EarMode::Off => 0,
            EarMode::Above => 1,
            EarMode::Sides => 2,
            EarMode::Behind => 3,
            EarMode::Around => 4,
            EarMode::Floppy => 5,
            EarMode::Cross => 6,
            EarMode::Out => 7,
            EarMode::Tall => 8,
            EarMode::TallCross => 9,
        }
    }

    pub open spec fn from_ordinal_spec(v: int) -> Option<EarMode> {
        if v == 0 {
            Some(EarMode::Off)
        } else if v == 1 {
            Some(EarMode::Above)
        } else if v == 2 {
            Some(EarMode::Sides)
        } else if v == 3 {
            Some(EarMode::Behind)
        } else if v == 4 {
            Some(EarMode::Around)
        } else if v == 5 {
            Some(EarMode::Floppy)
        } else if v == 6 {
            Some(EarMode::Cross)
        } else if v == 7 {
            Some(EarMode::Out)
        } else if v == 8 {
            Some(EarMode::Tall)
        } else if v == 9 {
            Some(EarMode::TallCross)
        } else {
            None
        }
    }

    pub fn from_ordinal(v: u8) -> (r: Option<EarMode>)
        ensures
            r == Self::from_ordinal_spec(v as int),
    {
        match v {
            0 => Some(EarMode::Off),
            1 => Some(EarMode::Above),
            2 => Some(EarMode::Sides),
            3 => Some(EarMode::Behind),
            4 => Some(EarMode::Around),
            5 => Some(EarMode::Floppy),
            6 => Some(EarMode::Cross),
            7 => Some(EarMode::Out),
            8 => Some(EarMode::Tall),
            9 => Some(EarMode::TallCross),
            _ => None,
        }
    }
}

impl EarAnchor {
    pub open spec fn ordinal_spec(self) -> int {
        match self {
            EarAnchor::Center => 0,
            EarAnchor::Front => 1,
            EarAnchor::Back => 2,
        }
    }

    pub fn ordinal(&self) -> (r: u8)
        ensures
            r == self.ordinal_spec(),
    {
        match self {
            EarAnchor::Center => 0,
            EarAnchor::Front => 1,
            EarAnchor::Back => 2,
        }
    }

    pub open spec fn from_ordinal_spec(v: int) -> Option<EarAnchor> {
        if v == 0 {
            Some(EarAnchor::Center)
        } else if v == 1 {
            Some(EarAnchor::Front)
        } else if v == 2 {
            Some(EarAnchor::Back)
        } else {
            None
        }
    }

    pub fn from_ordinal(v: u8) -> (r: Option<EarAnchor>)
        ensures
            r == Self::from_ordinal_spec(v as int),
    {
        match v {
            0 => Some(EarAnchor::Center),
            1 => Some(EarAnchor::Front),
            2 => Some(EarAnchor::Back),
            _ => None,
        }
    }
}

impl TailMode {
    pub open spec fn ordinal_spec(self) -> int {
        match self {
            TailMode::Off => 0,
            TailMode::Down => 1,
            TailMode::Back => 2,
            TailMode::Up => 3,
            TailMode::Vertical => 4,
            TailMode::Cross => 5,
            TailMode::CrossOverlap => 6,
            TailMode::Star => 7,
            TailMode::StarOverlap => 8,
        }
    }

    pub fn ordinal(&self) -> (r: u8)
        ensures
            r == self.ordinal_spec(),
    {
        match self {
            TailMode::Off => 0,
            TailMode::Down => 1,
            TailMode::Back => 2,
            TailMode::Up => 3,
            TailMode::Vertical => 4,
            TailMode::Cross => 5,
            TailMode::CrossOverlap => 6,
            TailMode::Star => 7,
            TailMode::StarOverlap => 8,
        }
    }
}

impl WingMode {
    pub open spec fn ordinal_spec(self) -> int {
        match self {
            WingMode::Off => 0,
            WingMode::SymmetricDual => 1,
            WingMode::SymmetricSingle => 2,
            WingMode::AsymmetricL => 3,
            WingMode::AsymmetricR => 4,
            WingMode::AsymmetricDual => 5,
            WingMode::Flat => 6,
        }
    }

    pub fn ordinal(&self) -> (r: u8)
        ensures
            r == self.ordinal_spec(),
    {
        match self {
            WingMode::Off => 0,
            WingMode::SymmetricDual => 1,
            WingMode::SymmetricSingle => 2,
            WingMode::AsymmetricL => 3,
            WingMode::AsymmetricR => 4,
            WingMode::AsymmetricDual => 5,
            WingMode::Flat => 6,
        }
    }

    pub open spec fn from_ordinal_spec(v: int) -> Option<WingMode> {
        if v == 0 {
            Some(WingMode::Off)
        } else if v == 1 {
            Some(WingMode::SymmetricDual)
        } else if v == 2 {
            Some(WingMode::SymmetricSingle)
        } else if v == 3 {
            Some(WingMode::AsymmetricL)
        } else if v == 4 {
            Some(WingMode::AsymmetricR)
        } else if v == 5 {
            Some(WingMode::AsymmetricDual)
        } else if v == 6 {
            Some(WingMode::Flat)
        } else {
            None
        }
    }

    pub fn from_ordinal(v: u8) -> (r: Option<WingMode>)
        ensures
            r == Self::from_ordinal_spec(v as int),
    {
        match v {
            0 => Some(WingMode::Off),
            1 => Some(WingMode::SymmetricDual),
            2 => Some(WingMode::SymmetricSingle),
            3 => Some(WingMode::AsymmetricL),
            4 => Some(WingMode::AsymmetricR),
            5 => Some(WingMode::AsymmetricDual),
            6 => Some(WingMode::Flat),
            _ => None,
        }
    }
}

/// Snout geometry.
#[derive(Clone, Copy, Debug, PartialEq, Eq, Structural)]
pub struct SnoutData {
    pub offset: u8,
    pub width: u8,
    pub height: u8,
    pub depth: u8,
}

/// Tail shape: articulation mode, number of segments, and four per-segment
/// bend numerators over `BEND_SCALE` (a bend of `BEND_SCALE` is 90 degrees).
#[derive(Clone, Copy, Debug, PartialEq, Eq)]
pub struct TailData {
    pub mode: TailMode,
    pub segments: u8,
    pub bends: [i16; 4],
}

#[derive(Clone, Copy, Debug, PartialEq, Eq, Structural)]
pub struct WingData {
    pub mode: WingMode,
    pub animated: bool,
}

/// The full feature record carried by the magic-pixel channel.
#[derive(Clone, Copy, Debug, PartialEq, Eq)]
pub struct EarsFeatures {
    pub ear_mode: EarMode,
    pub ear_anchor: EarAnchor,
    pub tail: Option<TailData>,
    pub snout: Option<SnoutData>,
    pub wing: Option<WingData>,
    pub claws: bool,
    pub horn: bool,
    /// Chest size numerator over `CHEST_SCALE`, in `0 ..= CHEST_SCALE`.
    pub chest_size: u16,
    pub cape_enabled: bool,
    pub emissive: bool,
    /// Which magic-pixel codec produced or should consume this record.
    pub data_version: u8,
}

pub open spec fn tail_valid(t: TailData) -> bool {
    &&& t.mode != TailMode::Off
    &&& 1 <= t.segments <= 4
    &&& forall|i: int| 0 <= i < 4 ==> -8064 <= #[trigger] t.bends[i] <= 8064
}

pub open spec fn snout_valid(s: SnoutData) -> bool {
    &&& s.offset <= 7
    &&& 1 <= s.width <= 7
    &&& 1 <= s.height <= 4
    &&& 1 <= s.depth <= 8
}

pub open spec fn wing_valid(w: WingData) -> bool {
    w.mode != WingMode::Off
}

/// The record invariants of the data model.
pub open spec fn features_valid(f: EarsFeatures) -> bool {
    &&& (f.tail matches Some(t) ==> tail_valid(t))
    &&& (f.snout matches Some(s) ==> snout_valid(s))
    &&& (f.wing matches Some(w) ==> wing_valid(w))
    &&& f.chest_size <= 3968
    &&& f.data_version <= 1
}

impl EarsFeatures {
    /// Checks the record invariants of the data model.
    pub fn validate(&self) -> (r: bool)
        ensures
            r == features_valid(*self),
    {
        let tail_ok: bool = match self.tail {
            Some(t) => {
                let b0: i16 = t.bends[0];
                let b1: i16 = t.bends[1];
                let b2: i16 = t.bends[2];
                let b3: i16 = t.bends[3];
                let bends_ok = -8064 <= b0 && b0 <= 8064 && -8064 <= b1 && b1 <= 8064 && -8064
                    <= b2 && b2 <= 8064 && -8064 <= b3 && b3 <= 8064;
                let r = !matches!(t.mode, TailMode::Off) && 1 <= t.segments && t.segments <= 4
                    && bends_ok;
                proof {
                    if bends_ok {
                        assert forall|i: int| 0 <= i < 4 implies -8064 <= #[trigger] t.bends[i]
                            <= 8064 by {
                            assert(t.bends[0] == b0 && t.bends[1] == b1 && t.bends[2] == b2
                                && t.bends[3] == b3);
                        }
                    } else {
                        assert(!tail_valid(t));
                    }
                }
                r
            },
            None => true,
        };
        let snout_ok: bool = match self.snout {
            Some(s) => s.offset <= 7 && 1 <= s.width && s.width <= 7 && 1 <= s.height && s.height
                <= 4 && 1 <= s.depth && s.depth <= 8,
            None => true,
        };
        let wing_ok: bool = match self.wing {
            Some(w) => !matches!(w.mode, WingMode::Off),
            None => true,
        };
        tail_ok && snout_ok && wing_ok && self.chest_size <= 3968 && self.data_version <= 1
    }

    /// A record with everything switched off.
    pub fn empty() -> (r: EarsFeatures)
        ensures
            r == Self::empty_spec(),
            features_valid(r),
    {
        EarsFeatures {
            ear_mode: EarMode::Off,
            ear_anchor: EarAnchor::Center,
            tail: None,
            snout: None,
            wing: None,
            claws: false,
            horn: false,
            chest_size: 0,
            cape_enabled: false,
            emissive: false,
            data_version: 0,
        }
    }

    pub open spec fn empty_spec() -> EarsFeatures {
        EarsFeatures {
            ear_mode: EarMode::Off,
            ear_anchor: EarAnchor::Center,
            tail: None,
            snout: None,
            wing: None,
            claws: false,
            horn: false,
            chest_size: 0,
            cape_enabled: false,
            emissive: false,
            data_version: 0,
        }
    }
}

impl Default for EarsFeatures {
    /// The all-off record.
    fn default() -> (r: EarsFeatures)
        ensures
            r == EarsFeatures::empty_spec(),
    {
        EarsFeatures::empty()
    }
}

} // verus!
