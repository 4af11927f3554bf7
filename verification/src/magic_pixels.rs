//! The V0 magic-pixel palette: a small set of named ARGB colours, each
//! standing for one symbol of the colour-coded format.

use vstd::prelude::*;

verus! {

#[derive(Clone, Copy, Debug, PartialEq, Eq, Structural)]
pub enum MagicPixelsV0 {
    Unknown,
    Blue,
    Green,
    Red,
    Purple,
    Cyan,
    Orange,
    Pink,
    Purple2,
    White,
    Gray,
}

impl MagicPixelsV0 {
    /// The ARGB value of the symbol (alpha is always 0xFF).
    pub open spec fn hex_spec(self) -> int {
        match self {
            MagicPixelsV0::Unknown => 0xFF000000,
            MagicPixelsV0::Blue => 0xFF3F23D8,
            MagicPixelsV0::Green => 0xFF23D848,
            MagicPixelsV0::Red => 0xFFD82350,
            MagicPixelsV0::Purple => 0xFFB923D8,
            MagicPixelsV0::Cyan => 0xFF23D8C6,
            MagicPixelsV0::Orange => 0xFFD87823,
            MagicPixelsV0::Pink => 0xFFD823B7,
            MagicPixelsV0::Purple2 => 0xFFD823FF,
            MagicPixelsV0::White => 0xFFFEFDF2,
            MagicPixelsV0::Gray => 0xFF5E605A,
        }
    }

    pub fn get_hex(&self) -> (r: u32)
        ensures
            r == self.hex_spec(),
    {
        match self {
            MagicPixelsV0::Unknown => 0xFF000000,
            MagicPixelsV0::Blue => 0xFF3F23D8,
            MagicPixelsV0::Green => 0xFF23D848,
            MagicPixelsV0::Red => 0xFFD82350,
            MagicPixelsV0::Purple => 0xFFB923D8,
            MagicPixelsV0::Cyan => 0xFF23D8C6,
            MagicPixelsV0::Orange => 0xFFD87823,
            MagicPixelsV0::Pink => 0xFFD823B7,
            MagicPixelsV0::Purple2 => 0xFFD823FF,
            MagicPixelsV0::White => 0xFFFEFDF2,
            MagicPixelsV0::Gray => 0xFF5E605A,
        }
    }

    /// The symbol an ARGB value denotes; anything off the palette is
    /// `Unknown`.
    pub open spec fn from_argb_spec(hex: int) -> MagicPixelsV0 {
        if hex == 0xFF000000 {
            MagicPixelsV0::Unknown
        } else if hex == 0xFF3F23D8 {
            MagicPixelsV0::Blue
        } else if hex == 0xFF23D848 {
            MagicPixelsV0::Green
        } else if hex == 0xFFD82350 {
            MagicPixelsV0::Red
        } else if hex == 0xFFB923D8 {
            MagicPixelsV0::Purple
        } else if hex == 0xFF23D8C6 {
            MagicPixelsV0::Cyan
        } else if hex == 0xFFD87823 {
            MagicPixelsV0::Orange
        } else if hex == 0xFFD823B7 {
            MagicPixelsV0::Pink
        } else if hex == 0xFFD823FF {
            MagicPixelsV0::Purple2
        } else if hex == 0xFFFEFDF2 {
            MagicPixelsV0::White
        } else if hex == 0xFF5E605A {
            MagicPixelsV0::Gray
        } else {
            MagicPixelsV0::Unknown
        }
    }

    pub fn get_by_argb_hex(hex: u32) -> (r: MagicPixelsV0)
        ensures
            r == Self::from_argb_spec(hex as int),
    {
        if hex == 0xFF000000 {
            MagicPixelsV0::Unknown
        } else if hex == 0xFF3F23D8 {
            MagicPixelsV0::Blue
        } else if hex == 0xFF23D848 {
            MagicPixelsV0::Green
        } else if hex == 0xFFD82350 {
            MagicPixelsV0::Red
        } else if hex == 0xFFB923D8 {
            MagicPixelsV0::Purple
        } else if hex == 0xFF23D8C6 {
            MagicPixelsV0::Cyan
        } else if hex == 0xFFD87823 {
            MagicPixelsV0::Orange
        } else if hex == 0xFFD823B7 {
            MagicPixelsV0::Pink
        } else if hex == 0xFFD823FF {
            MagicPixelsV0::Purple2
        } else if hex == 0xFFFEFDF2 {
            MagicPixelsV0::White
        } else if hex == 0xFF5E605A {
            MagicPixelsV0::Gray
        } else {
            MagicPixelsV0::Unknown
        }
    }
}

} // verus!
