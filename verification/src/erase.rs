//! Erase regions: 22-bit records (x, y, width-1, height-1 in 6+6+5+5 bits)
//! packed back to back inside the Alfalfa value stored under `"erase"`.

use vstd::prelude::*;
use crate::bits::{bits_value, bytes_bits, val_bits, zero_bits, BitReader, BitWriter};
use crate::errors::EarsError;
use crate::model::AlfalfaData;
use crate::model::AlfalfaDataKey;

verus! {

/// A rectangle of skin pixels to blank out.
#[derive(Clone, Copy, Debug, PartialEq, Eq, Structural)]
pub struct EraseRegion {
    pub x: u8,
    pub y: u8,
    pub width: u8,
    pub height: u8,
}

/// The ranges a record can carry on the wire.
pub open spec fn region_valid(r: EraseRegion) -> bool {
    &&& r.x <= 63
    &&& r.y <= 63
    &&& 1 <= r.width <= 32
    &&& 1 <= r.height <= 32
}

/// The 22 bits of one record.
pub open spec fn region_bits(r: EraseRegion) -> Seq<bool> {
    val_bits(r.x as nat, 6) + val_bits(r.y as nat, 6) + val_bits((r.width - 1) as nat, 5)
        + val_bits((r.height - 1) as nat, 5)
}

/// The record read from 22 bits starting at `pos`.
pub open spec fn region_at(s: Seq<bool>, pos: int) -> EraseRegion {
    EraseRegion {
        x: bits_value(s.subrange(pos, pos + 6)) as u8,
        y: bits_value(s.subrange(pos + 6, pos + 12)) as u8,
        width: (bits_value(s.subrange(pos + 12, pos + 17)) + 1) as u8,
        height: (bits_value(s.subrange(pos + 17, pos + 22)) + 1) as u8,
    }
}

/// All records of a list, concatenated.
pub open spec fn regions_bits(rs: Seq<EraseRegion>) -> Seq<bool>
    decreases rs.len(),
{
    if rs.len() == 0 {
        Seq::empty()
    } else {
        regions_bits(rs.drop_last()) + region_bits(rs.last())
    }
}

/// What decoding a byte buffer yields: records until fewer than a whole
/// record's worth of untouched bytes remains; `None` when a record is cut
/// off mid-way.
pub open spec fn parse_regions_from(s: Seq<u8>, pos: int) -> Option<Seq<EraseRegion>>
    decreases 8 * s.len() - pos
        when 0 <= pos <= 8 * s.len()
{
    if (pos + 7) / 8 == s.len() {
        Some(Seq::empty())
    } else if pos + 22 > 8 * s.len() {
        None
    } else {
        match parse_regions_from(s, pos + 22) {
            Some(rest) => Some(seq![region_at(bytes_bits(s), pos)] + rest),
            None => None,
        }
    }
}

pub open spec fn parse_regions(s: Seq<u8>) -> Option<Seq<EraseRegion>> {
    parse_regions_from(s, 0)
}

impl EraseRegion {
    /// Reads one 22-bit record.
    pub fn decode(reader: &mut BitReader) -> (r: Result<EraseRegion, EarsError>)
        requires
            old(reader).wf(),
        ensures
            final(reader).wf(),
            final(reader).data() == old(reader).data(),
            old(reader).pos() + 22 <= 8 * old(reader).data().len() ==> {
                &&& r matches Ok(reg)
                &&& reg == region_at(old(reader).bits(), old(reader).pos())
                &&& region_valid(reg)
                &&& final(reader).pos() == old(reader).pos() + 22
            },
            old(reader).pos() + 22 > 8 * old(reader).data().len() ==> {
                &&& r matches Err(e) && e == EarsError::TruncatedBitStream
                &&& final(reader).pos() == 8 * final(reader).data().len()
            },
    {
        proof {
            vstd::arithmetic::power2::lemma2_to64();
        }
        let x: u8 = match reader.read(6) {
            Ok(v) => v as u8,
            Err(e) => {
                return Err(e);
            },
        };
        let y: u8 = match reader.read(6) {
            Ok(v) => v as u8,
            Err(e) => {
                return Err(e);
            },
        };
        let width: u8 = match reader.read(5) {
            Ok(v) => v as u8 + 1,
            Err(e) => {
                return Err(e);
            },
        };
        let height: u8 = match reader.read(5) {
            Ok(v) => v as u8 + 1,
            Err(e) => {
                return Err(e);
            },
        };
        Ok(EraseRegion { x, y, width, height })
    }

    /// Writes one 22-bit record.
    pub fn encode(&self, writer: &mut BitWriter) -> (r: Result<(), EarsError>)
        requires
            old(writer).wf(),
            region_valid(*self),
        ensures
            final(writer).wf(),
            r matches Ok(u),
            final(writer).bits() =~= old(writer).bits() + region_bits(*self),
    {
        let r1 = writer.write_long(6, self.x as u64);
        let r2 = writer.write_long(6, self.y as u64);
        let r3 = writer.write_long(5, (self.width - 1) as u64);
        let r4 = writer.write_long(5, (self.height - 1) as u64);
        proof {
            assert(r1 matches Ok(u) && r2 matches Ok(u2) && r3 matches Ok(u3) && r4 matches Ok(u4));
        }
        Ok(())
    }

    /// Writes a whole list of records.
    pub fn encode_regions(regions: &[EraseRegion], writer: &mut BitWriter) -> (r: Result<
        (),
        EarsError,
    >)
        requires
            old(writer).wf(),
            forall|i: int| 0 <= i < regions@.len() ==> region_valid(#[trigger] regions@[i]),
        ensures
            final(writer).wf(),
            r matches Ok(u),
            final(writer).bits() =~= old(writer).bits() + regions_bits(regions@),
    {
        let n: usize = regions.len();
        let mut i: usize = 0;
        proof {
            assert(regions_bits(regions@.take(0)) =~= Seq::<bool>::empty());
        }
        while i < n
            invariant
                writer.wf(),
                n == regions@.len(),
                i <= n,
                forall|j: int| 0 <= j < n ==> region_valid(#[trigger] regions@[j]),
                writer.bits() =~= old(writer).bits() + regions_bits(regions@.take(i as int)),
            decreases n - i,
        {
            let region: EraseRegion = regions[i];
            let res = region.encode(writer);
            proof {
                assert(res matches Ok(u));
                let t1 = regions@.take(i as int);
                let t2 = regions@.take(i + 1);
                assert(t2.drop_last() =~= t1);
                assert(t2.last() == regions@[i as int]);
                assert(regions_bits(t2) == regions_bits(t1) + region_bits(regions@[i as int]));
            }
            i = i + 1;
        }
        proof {
            assert(regions@.take(n as int) =~= regions@);
        }
        Ok(())
    }
}

/// Decodes a raw byte buffer of packed records.
pub fn decode_erase_regions(data: &[u8]) -> (r: Result<Vec<EraseRegion>, EarsError>)
    ensures
        parse_regions(data@) matches Some(rs) ==> {
            &&& r matches Ok(v)
            &&& v@ == rs
        },
        parse_regions(data@) is None ==> {
            &&& r matches Err(e)
            &&& e == EarsError::TruncatedBitStream
        },
{
    let mut reader = BitReader::new(data);
    let mut regions: Vec<EraseRegion> = Vec::new();
    loop
        invariant
            reader.wf(),
            reader.data() == data@,
            0 <= reader.pos() <= 8 * data@.len(),
            (match parse_regions_from(data@, reader.pos()) {
                Some(rest) => parse_regions(data@) == Some(regions@ + rest),
                None => parse_regions(data@) is None,
            }),
        decreases 8 * data@.len() - reader.pos(),
    {
        if reader.available() == 0 {
            proof {
                assert(parse_regions_from(data@, reader.pos()) == Some(
                    Seq::<EraseRegion>::empty(),
                ));
                assert(regions@ + Seq::<EraseRegion>::empty() =~= regions@);
            }
            return Ok(regions);
        }
        let ghost p0 = reader.pos();
        match EraseRegion::decode(&mut reader) {
            Ok(region) => {
                let ghost old_regions = regions@;
                regions.push(region);
                proof {
                    let rest0 = parse_regions_from(data@, p0);
                    let rest1 = parse_regions_from(data@, p0 + 22);
                    match rest1 {
                        Some(rs1) => {
                            assert(rest0 == Some(seq![region_at(bytes_bits(data@), p0)] + rs1));
                            assert(old_regions + (seq![region] + rs1) =~= regions@ + rs1);
                        },
                        None => {
                            assert(rest0 is None);
                        },
                    }
                }
            },
            Err(e) => {
                proof {
                    assert(parse_regions_from(data@, p0) is None);
                }
                return Err(e);
            },
        }
    }
}

/// Encodes records into a byte buffer, zero-padded to a whole byte.
pub fn encode_erase_regions(regions: &[EraseRegion]) -> (r: Vec<u8>)
    requires
        forall|i: int| 0 <= i < regions@.len() ==> region_valid(#[trigger] regions@[i]),
    ensures
        bytes_bits(r@) =~= regions_bits(regions@) + zero_bits(
            ((regions_bits(regions@).len() + 7) / 8) * 8 - regions_bits(regions@).len(),
        ),
        8 * r@.len() == ((regions_bits(regions@).len() + 7) / 8) * 8,
{
    let mut writer = BitWriter::new();
    let res = EraseRegion::encode_regions(regions, &mut writer);
    proof {
        assert(res matches Ok(u));
    }
    writer.align();
    proof {
        assert(Seq::<bool>::empty() + regions_bits(regions@) =~= regions_bits(regions@));
    }
    writer.into_bytes()
}

/// Access to the erase-region list a container carries.
pub trait EraseRegionsProvider {
    /// The container's well-formedness.
    spec fn provider_wf(&self) -> bool;

    /// The raw bytes stored under the `"erase"` key, if any.
    spec fn erase_bytes(&self) -> Option<Seq<u8>>;

    /// Decodes the stored erase regions; `None` when the key is absent.
    fn get_erase_regions(&self) -> (r: Result<Option<Vec<EraseRegion>>, EarsError>)
        requires
            self.provider_wf(),
        ensures
            self.erase_bytes() is None ==> {
                &&& r matches Ok(o)
                &&& o is None
            },
            self.erase_bytes() matches Some(s) ==> parse_regions(s) matches Some(rs) ==> {
                &&& r matches Ok(o)
                &&& o matches Some(v)
                &&& v@ == rs
            },
            self.erase_bytes() matches Some(s) ==> parse_regions(s) is None ==> {
                &&& r matches Err(e)
                &&& e == EarsError::TruncatedBitStream
            },
    ;

    /// Replaces the stored erase regions.
    fn set_erase_regions(&mut self, regions: Vec<EraseRegion>) -> (r: Result<(), EarsError>)
        requires
            old(self).provider_wf(),
            forall|i: int| 0 <= i < regions@.len() ==> region_valid(#[trigger] regions@[i]),
        ensures
            final(self).provider_wf(),
            r matches Ok(u),
            final(self).erase_bytes() matches Some(b) && bytes_bits(b) =~= regions_bits(regions@)
                + zero_bits(
                ((regions_bits(regions@).len() + 7) / 8) * 8 - regions_bits(regions@).len(),
            ),
    ;
}

impl EraseRegionsProvider for AlfalfaData {
    open spec fn provider_wf(&self) -> bool {
        self.wf()
    }

    open spec fn erase_bytes(&self) -> Option<Seq<u8>> {
        if self.map_view().contains_key(AlfalfaDataKey::Erase.bytes_spec()) {
            Some(self.map_view()[AlfalfaDataKey::Erase.bytes_spec()])
        } else {
            None
        }
    }

    fn get_erase_regions(&self) -> (r: Result<Option<Vec<EraseRegion>>, EarsError>) {
        match self.get_data(AlfalfaDataKey::Erase) {
            Some(data) => {
                match decode_erase_regions(data.as_slice()) {
                    Ok(regions) => Ok(Some(regions)),
                    Err(e) => Err(e),
                }
            },
            None => Ok(None),
        }
    }

    fn set_erase_regions(&mut self, regions: Vec<EraseRegion>) -> (r: Result<(), EarsError>) {
        let data: Vec<u8> = encode_erase_regions(regions.as_slice());
        self.set_data(AlfalfaDataKey::Erase, data);
        Ok(())
    }
}

} // verus!

verus! {

use crate::alfalfa::{
    alfalfa_pixels, bytes_from_digits, digits_bitlen, digits_of_image, magic_bytes, parse_entries,
    read_alfalfa,
};
use crate::image::{EarsImage, Rgba};
use crate::model::entries_map;

/// Whether a region covers the coordinate.
pub open spec fn region_covers(r: EraseRegion, x: int, y: int) -> bool {
    r.x <= x < r.x + r.width && r.y <= y < r.y + r.height
}

/// Whether any region of the list covers the coordinate.
pub open spec fn regions_cover(rs: Seq<EraseRegion>, x: int, y: int) -> bool {
    exists|i: int| 0 <= i < rs.len() && region_covers(#[trigger] rs[i], x, y)
}

/// The erase-region list an image carries. The outer `None` means a layer
/// failed structurally (a truncated container); `Some(None)` means the
/// image cleanly carries no such list.
pub open spec fn erase_regions_of(im: EarsImage) -> Option<Option<Seq<EraseRegion>>> {
    if !(im.width_spec() == 64 && im.height_spec() == 64) {
        Some(None)
    } else {
        let ds = digits_of_image(im, alfalfa_pixels());
        let b = bytes_from_digits(ds);
        if digits_bitlen(ds) == 0 {
            Some(None)
        } else if b.len() < 4 {
            None
        } else if b.take(4) != magic_bytes() {
            Some(None)
        } else if b.len() == 4 {
            None
        } else if b[4] != 1 {
            Some(None)
        } else {
            match parse_entries(b, 5) {
                None => None,
                Some(es) => {
                    let m = entries_map(es);
                    if !m.contains_key(crate::model::AlfalfaDataKey::Erase.bytes_spec()) {
                        Some(None)
                    } else {
                        match parse_regions(m[crate::model::AlfalfaDataKey::Erase.bytes_spec()]) {
                            None => None,
                            Some(rs) => Some(Some(rs)),
                        }
                    }
                },
            }
        }
    }
}

/// Blanks out the erase regions an image's Alfalfa data names: every
/// covered pixel becomes fully transparent black.
pub fn process_erase_regions(image: &mut EarsImage) -> (r: Result<(), EarsError>)
    requires
        old(image).wf(),
    ensures
        final(image).wf(),
        final(image).width_spec() == old(image).width_spec(),
        final(image).height_spec() == old(image).height_spec(),
        erase_regions_of(*old(image)) is None ==> r is Err && *final(image) == *old(image),
        erase_regions_of(*old(image)) matches Some(o) ==> r matches Ok(u),
        erase_regions_of(*old(image)) == Some(Option::<Seq<EraseRegion>>::None) ==> *final(image)
            == *old(image),
        erase_regions_of(*old(image)) matches Some(o) ==> o matches Some(rs) ==> forall|
            x: int,
            y: int,
        |
            old(image).in_bounds(x, y) ==> #[trigger] final(image).px(x, y) == (if regions_cover(
                rs,
                x,
                y,
            ) {
                Rgba { r: 0u8, g: 0u8, b: 0u8, a: 0u8 }
            } else {
                old(image).px(x, y)
            }),
{
    let alfalfa = match read_alfalfa(image) {
        Ok(a) => a,
        Err(e) => {
            return Err(e);
        },
    };
    let data = match alfalfa {
        Some(d) => d,
        None => {
            return Ok(());
        },
    };
    let regions: Vec<EraseRegion> = match data.get_erase_regions() {
        Ok(Some(rs)) => rs,
        Ok(None) => {
            return Ok(());
        },
        Err(e) => {
            return Err(e);
        },
    };
    let n: usize = regions.len();
    let mut i: usize = 0;
    while i < n
        invariant
            image.wf(),
            image.width_spec() == old(image).width_spec(),
            image.height_spec() == old(image).height_spec(),
            n == regions@.len(),
            i <= n,
            forall|x: int, y: int|
                old(image).in_bounds(x, y) ==> #[trigger] image.px(x, y) == (if regions_cover(
                    regions@.take(i as int),
                    x,
                    y,
                ) {
                    Rgba { r: 0u8, g: 0u8, b: 0u8, a: 0u8 }
                } else {
                    old(image).px(x, y)
                }),
        decreases n - i,
    {
        let region: EraseRegion = regions[i];
        let ghost before = *image;
        clear_region(image, region);
        proof {
            assert forall|x: int, y: int| old(image).in_bounds(x, y) implies #[trigger] image.px(
                x,
                y,
            ) == (if regions_cover(regions@.take(i + 1), x, y) {
                Rgba { r: 0u8, g: 0u8, b: 0u8, a: 0u8 }
            } else {
                old(image).px(x, y)
            }) by {
                if regions_cover(regions@.take(i + 1), x, y) {
                    let j = choose|j: int|
                        0 <= j < i + 1 && region_covers(#[trigger] regions@.take(i + 1)[j], x, y);
                    if j < i {
                        assert(regions@.take(i as int)[j] == regions@[j]);
                        assert(regions_cover(regions@.take(i as int), x, y));
                    }
                } else {
                    assert(!region_covers(region, x, y)) by {
                        if region_covers(region, x, y) {
                            assert(regions@.take(i + 1)[i as int] == region);
                        }
                    }
                    assert(!regions_cover(regions@.take(i as int), x, y)) by {
                        if regions_cover(regions@.take(i as int), x, y) {
                            let j = choose|j: int|
                                0 <= j < i && region_covers(
                                    #[trigger] regions@.take(i as int)[j],
                                    x,
                                    y,
                                );
                            assert(regions@.take(i + 1)[j] == regions@[j]);
                        }
                    }
                }
            }
        }
        i = i + 1;
    }
    proof {
        assert(regions@.take(n as int) =~= regions@);
    }
    Ok(())
}

/// Clears one region to transparent black, clipped to the image.
fn clear_region(image: &mut EarsImage, region: EraseRegion)
    requires
        old(image).wf(),
    ensures
        final(image).wf(),
        final(image).width_spec() == old(image).width_spec(),
        final(image).height_spec() == old(image).height_spec(),
        forall|x: int, y: int|
            old(image).in_bounds(x, y) ==> #[trigger] final(image).px(x, y) == (if region_covers(
                region,
                x,
                y,
            ) {
                Rgba { r: 0u8, g: 0u8, b: 0u8, a: 0u8 }
            } else {
                old(image).px(x, y)
            }),
{
    let x1: u32 = region.x as u32;
    let y1: u32 = region.y as u32;
    let x2: u32 = x1 + region.width as u32;
    let y2: u32 = y1 + region.height as u32;
    let mut x: u32 = x1;
    while x < x2
        invariant
            image.wf(),
            image.width_spec() == old(image).width_spec(),
            image.height_spec() == old(image).height_spec(),
            x1 == region.x,
            y1 == region.y,
            x2 == region.x + region.width,
            y2 == region.y + region.height,
            x1 <= x <= x2,
            forall|px: int, py: int|
                old(image).in_bounds(px, py) ==> #[trigger] image.px(px, py) == (if x1 <= px < x
                    && y1 <= py < y2 {
                    Rgba { r: 0u8, g: 0u8, b: 0u8, a: 0u8 }
                } else {
                    old(image).px(px, py)
                }),
        decreases x2 - x,
    {
        let mut y: u32 = y1;
        while y < y2
            invariant
                image.wf(),
                image.width_spec() == old(image).width_spec(),
                image.height_spec() == old(image).height_spec(),
                x1 == region.x,
                y1 == region.y,
                x2 == region.x + region.width,
                y2 == region.y + region.height,
                x1 <= x < x2,
                y1 <= y <= y2,
                forall|px: int, py: int|
                    old(image).in_bounds(px, py) ==> #[trigger] image.px(px, py) == (if (x1 <= px
                        < x && y1 <= py < y2) || (px == x && y1 <= py < y) {
                        Rgba { r: 0u8, g: 0u8, b: 0u8, a: 0u8 }
                    } else {
                        old(image).px(px, py)
                    }),
            decreases y2 - y,
        {
            let _ = image.set_pixel(x, y, Rgba { r: 0, g: 0, b: 0, a: 0 });
            y = y + 1;
        }
        x = x + 1;
    }
}

} // verus!

verus! {

use vstd::arithmetic::power2::pow2;

proof fn lemma_regions_bits_len(rs: Seq<EraseRegion>)
    ensures
        regions_bits(rs).len() == 22 * rs.len(),
    decreases rs.len(),
{
    if rs.len() > 0 {
        lemma_regions_bits_len(rs.drop_last());
    }
}

/// Record `k` occupies bits `22k .. 22k + 22` of the packed list.
proof fn lemma_regions_bits_index(rs: Seq<EraseRegion>, k: int)
    requires
        0 <= k < rs.len(),
    ensures
        regions_bits(rs).len() == 22 * rs.len(),
        regions_bits(rs).subrange(22 * k, 22 * k + 22) =~= region_bits(rs[k]),
    decreases rs.len(),
{
    lemma_regions_bits_len(rs);
    if k == rs.len() - 1 {
        lemma_regions_bits_len(rs.drop_last());
        crate::bits::lemma_concat_subrange(
            regions_bits(rs.drop_last()),
            region_bits(rs.last()),
            Seq::empty(),
        );
        assert(regions_bits(rs.drop_last()) + region_bits(rs.last()) + Seq::<bool>::empty()
            =~= regions_bits(rs));
    } else {
        lemma_regions_bits_index(rs.drop_last(), k);
        assert(rs.drop_last()[k] == rs[k]);
        assert forall|i: int| 22 * k <= i < 22 * k + 22 implies regions_bits(rs)[i]
            == regions_bits(rs.drop_last())[i] by {
            lemma_regions_bits_len(rs.drop_last());
        }
    }
}

/// Reading one record back from its 22 packed bits.
proof fn lemma_region_at_bits(s: Seq<bool>, pos: int, r: EraseRegion)
    requires
        region_valid(r),
        0 <= pos,
        pos + 22 <= s.len(),
        s.subrange(pos, pos + 22) =~= region_bits(r),
    ensures
        region_at(s, pos) == r,
{
    vstd::arithmetic::power2::lemma2_to64();
    let chunk = region_bits(r);
    let a = val_bits(r.x as nat, 6);
    let b = val_bits(r.y as nat, 6);
    let c = val_bits((r.width - 1) as nat, 5);
    let d = val_bits((r.height - 1) as nat, 5);
    assert(s.subrange(pos, pos + 6) =~= a) by {
        assert forall|i: int| 0 <= i < 6 implies s.subrange(pos, pos + 6)[i] == a[i] by {
            assert(s.subrange(pos, pos + 22)[i] == chunk[i]);
        }
    }
    assert(s.subrange(pos + 6, pos + 12) =~= b) by {
        assert forall|i: int| 0 <= i < 6 implies s.subrange(pos + 6, pos + 12)[i] == b[i] by {
            assert(s.subrange(pos, pos + 22)[i + 6] == chunk[i + 6]);
        }
    }
    assert(s.subrange(pos + 12, pos + 17) =~= c) by {
        assert forall|i: int| 0 <= i < 5 implies s.subrange(pos + 12, pos + 17)[i] == c[i] by {
            assert(s.subrange(pos, pos + 22)[i + 12] == chunk[i + 12]);
        }
    }
    assert(s.subrange(pos + 17, pos + 22) =~= d) by {
        assert forall|i: int| 0 <= i < 5 implies s.subrange(pos + 17, pos + 22)[i] == d[i] by {
            assert(s.subrange(pos, pos + 22)[i + 17] == chunk[i + 17]);
        }
    }
    crate::bits::lemma_val_bits_value(r.x as nat, 6);
    crate::bits::lemma_val_bits_value(r.y as nat, 6);
    crate::bits::lemma_val_bits_value((r.width - 1) as nat, 5);
    crate::bits::lemma_val_bits_value((r.height - 1) as nat, 5);
}

proof fn lemma_erase_parse_at(rs: Seq<EraseRegion>, b: Seq<u8>, k: int)
    requires
        forall|i: int| 0 <= i < rs.len() ==> region_valid(#[trigger] rs[i]),
        bytes_bits(b) =~= regions_bits(rs) + zero_bits(
            ((22 * rs.len() + 7) / 8) * 8 - 22 * rs.len(),
        ),
        8 * b.len() == ((22 * rs.len() + 7) / 8) * 8,
        0 <= k <= rs.len(),
    ensures
        parse_regions_from(b, 22 * k) == Some(rs.skip(k)),
    decreases rs.len() - k,
{
    let n = rs.len() as int;
    lemma_regions_bits_len(rs);
    assert(b.len() == (22 * n + 7) / 8) by {
        vstd::arithmetic::div_mod::lemma_fundamental_div_mod_converse(
            8 * (b.len() as int),
            8,
            b.len() as int,
            0,
        );
        vstd::arithmetic::div_mod::lemma_fundamental_div_mod_converse(
            ((22 * n + 7) / 8) * 8,
            8,
            (22 * n + 7) / 8,
            0,
        );
    }
    let pos = 22 * k;
    if k == n {
        assert((pos + 7) / 8 == b.len());
        assert(rs.skip(k) =~= Seq::<EraseRegion>::empty());
    } else {
        assert((pos + 7) / 8 != b.len()) by {
            assert((pos + 7) + 8 <= 22 * n + 7);
            vstd::arithmetic::div_mod::lemma_fundamental_div_mod(pos + 7, 8);
            vstd::arithmetic::div_mod::lemma_fundamental_div_mod_converse(
                pos + 7 + 8,
                8,
                (pos + 7) / 8 + 1,
                (pos + 7) % 8,
            );
            vstd::arithmetic::div_mod::lemma_div_is_ordered(pos + 7 + 8, 22 * n + 7, 8);
        }
        assert(pos + 22 <= 8 * b.len()) by {
            assert(22 * (k + 1) <= 22 * n) by (nonlinear_arith)
                requires
                    k + 1 <= n,
            ;
            assert(22 * n <= (22 * n + 7) / 8 * 8) by {
                vstd::arithmetic::div_mod::lemma_fundamental_div_mod(22 * n + 7, 8);
            }
        }
        assert(region_at(bytes_bits(b), pos) == rs[k]) by {
            lemma_regions_bits_index(rs, k);
            assert(bytes_bits(b).subrange(pos, pos + 22) =~= region_bits(rs[k])) by {
                assert forall|i: int| 0 <= i < 22 implies #[trigger] bytes_bits(b).subrange(
                    pos,
                    pos + 22,
                )[i] == regions_bits(rs).subrange(pos, pos + 22)[i] by {
                    assert(bytes_bits(b)[pos + i] == regions_bits(rs)[pos + i]);
                }
            }
            lemma_region_at_bits(bytes_bits(b), pos, rs[k]);
        }
        lemma_erase_parse_at(rs, b, k + 1);
        assert(22 * (k + 1) == pos + 22);
        assert(seq![rs[k]] + rs.skip(k + 1) =~= rs.skip(k));
    }
}

/// Erase-codec round trip: decoding the packed encoding of a valid region
/// list gives the list back.
pub proof fn lemma_erase_regions_roundtrip(rs: Seq<EraseRegion>, b: Seq<u8>)
    requires
        forall|i: int| 0 <= i < rs.len() ==> region_valid(#[trigger] rs[i]),
        bytes_bits(b) =~= regions_bits(rs) + zero_bits(
            ((regions_bits(rs).len() + 7) / 8) * 8 - regions_bits(rs).len(),
        ),
        8 * b.len() == ((regions_bits(rs).len() + 7) / 8) * 8,
    ensures
        parse_regions(b) == Some(rs),
{
    lemma_regions_bits_len(rs);
    lemma_erase_parse_at(rs, b, 0);
    assert(rs.skip(0) =~= rs);
}

} // verus!
