//! The Alfalfa container: TLV framing of a key -> bytes dictionary, and its
//! projection into the low seven bits of the alpha channel across ten fixed
//! rectangles of the skin.

use vstd::prelude::*;
use crate::errors::EarsError;
use crate::model::{entries_map, AlfalfaData};

verus! {

/// Bytes of the magic header `0xEA1FA1FA`, big-endian.
pub open spec fn magic_bytes() -> Seq<u8> {
    seq![0xEAu8, 0x1Fu8, 0xA1u8, 0xFAu8]
}

/// The predefined key table. Index 0 is the `"END"` terminator.
pub open spec fn predef_key(i: int) -> Seq<u8> {
    if i == 0 {
        seq![69u8, 78u8, 68u8]  // "END"
    } else if i == 1 {
        seq![119u8, 105u8, 110u8, 103u8]  // "wing"
    } else if i == 2 {
        seq![101u8, 114u8, 97u8, 115u8, 101u8]  // "erase"
    } else {
        seq![99u8, 97u8, 112u8, 101u8]  // "cape"
    }
}

/// Index of a key in the predefined table, or -1.
pub open spec fn predef_index(k: Seq<u8>) -> int {
    if k == predef_key(0) {
        0
    } else if k == predef_key(1) {
        1
    } else if k == predef_key(2) {
        2
    } else if k == predef_key(3) {
        3
    } else {
        -1
    }
}

/// Value of a decimal digit string.
pub open spec fn dec_value(s: Seq<u8>) -> int
    decreases s.len(),
{
    if s.len() == 0 {
        0
    } else {
        dec_value(s.drop_last()) * 10 + (s.last() - 48)
    }
}

pub open spec fn all_dec_digits(s: Seq<u8>) -> bool {
    forall|i: int| 0 <= i < s.len() ==> 48 <= #[trigger] s[i] <= 57
}

/// The canonical decimal digits of `n` (no leading zeros).
pub open spec fn dec_digits(n: int) -> Seq<u8>
    decreases n,
{
    if n <= 0 {
        seq![48u8]
    } else if n < 10 {
        seq![(48 + n) as u8]
    } else {
        dec_digits(n / 10).push((48 + n % 10) as u8)
    }
}

/// The prefix `"!unk"` of keys that stand for an unknown single-byte code.
pub open spec fn unk_prefix() -> Seq<u8> {
    seq![33u8, 117u8, 110u8, 107u8]  // "!unk"
}

/// A key of the form `"!unk<decimal>"` whose number fits one byte.
pub open spec fn key_is_unk(k: Seq<u8>) -> bool {
    &&& k.len() >= 5
    &&& k.take(4) == unk_prefix()
    &&& all_dec_digits(k.skip(4))
    &&& 0 <= dec_value(k.skip(4)) <= 255
}

/// The key that the decoder writes for an unknown code byte.
pub open spec fn unk_key(code: u8) -> Seq<u8> {
    unk_prefix() + dec_digits(code as int)
}

/// Why a custom key cannot be written, if it cannot.
pub open spec fn key_err_kind(k: Seq<u8>) -> Option<KeyErrKind> {
    if k.len() == 0 || k[0] < 64 {
        Some(KeyErrKind::BadStart)
    } else if exists|i: int| 0 <= i < k.len() && #[trigger] k[i] > 127 {
        Some(KeyErrKind::NonAscii)
    } else {
        None
    }
}

/// The two ways a custom key can be malformed: a first byte below `'@'`,
/// or a byte outside ASCII.
pub enum KeyErrKind {
    BadStart,
    NonAscii,
}

/// The error reported for a key that cannot be written.
pub open spec fn error_for_key(e: EarsError, k: Seq<u8>) -> bool {
    match key_err_kind(k) {
        Some(KeyErrKind::BadStart) => e matches EarsError::InvalidAlfalfaEntryName(v) && v@ == k,
        Some(KeyErrKind::NonAscii) => e matches EarsError::InvalidAlfalfaEntryNameAscii(v) && v@
            == k,
        None => false,
    }
}

/// A key the encoder accepts.
pub open spec fn key_ok(k: Seq<u8>) -> bool {
    predef_index(k) >= 0 || key_is_unk(k) || key_err_kind(k) is None
}

/// The first key of the list that cannot be written, if any.
pub open spec fn first_bad_key(es: Seq<(Seq<u8>, Seq<u8>)>) -> Option<Seq<u8>>
    decreases es.len(),
{
    if es.len() == 0 {
        None
    } else if first_bad_key(es.drop_last()) is Some {
        first_bad_key(es.drop_last())
    } else if !key_ok(es.last().0) {
        Some(es.last().0)
    } else {
        None
    }
}

/// The wire bytes of a key.
pub open spec fn key_wire(k: Seq<u8>) -> Seq<u8> {
    if predef_index(k) >= 0 {
        seq![predef_index(k) as u8]
    } else if key_is_unk(k) {
        seq![dec_value(k.skip(4)) as u8]
    } else {
        k.take(k.len() - 1) + seq![(k.last() | 0x80) as u8]
    }
}

/// The chunked length-prefixed wire bytes of a value: chunks of at most 255
/// bytes, a chunk length of 255 announcing a continuation.
pub open spec fn value_wire(v: Seq<u8>) -> Seq<u8>
    decreases v.len(),
{
    if v.len() < 255 {
        seq![v.len() as u8] + v
    } else {
        seq![255u8] + v.take(255) + value_wire(v.skip(255))
    }
}

/// The wire bytes of an entry list.
pub open spec fn entries_wire(es: Seq<(Seq<u8>, Seq<u8>)>) -> Seq<u8>
    decreases es.len(),
{
    if es.len() == 0 {
        Seq::empty()
    } else {
        entries_wire(es.drop_last()) + key_wire(es.last().0) + value_wire(es.last().1)
    }
}

/// The whole framed stream: magic, version, entries, `"END"`.
pub open spec fn stream_wire(version: u8, es: Seq<(Seq<u8>, Seq<u8>)>) -> Seq<u8> {
    magic_bytes() + seq![version] + entries_wire(es) + seq![0u8]
}

/// Whether every key of the list can be written.
pub open spec fn entries_ok(es: Seq<(Seq<u8>, Seq<u8>)>) -> bool {
    forall|i: int| 0 <= i < es.len() ==> key_ok((#[trigger] es[i]).0)
}

pub proof fn lemma_entries_error_none(es: Seq<(Seq<u8>, Seq<u8>)>)
    ensures
        (first_bad_key(es) is None) == entries_ok(es),
    decreases es.len(),
{
    if es.len() > 0 {
        lemma_entries_error_none(es.drop_last());
        if first_bad_key(es) is None {
            assert forall|i: int| 0 <= i < es.len() implies key_ok((#[trigger] es[i]).0) by {
                if i < es.len() - 1 {
                    assert(es.drop_last()[i] == es[i]);
                } else {
                    assert(es[i] == es.last());
                }
            }
        } else {
            if first_bad_key(es.drop_last()) is Some {
                let i = choose|i: int|
                    0 <= i < es.drop_last().len() && !key_ok((#[trigger] es.drop_last()[i]).0);
                assert(es[i] == es.drop_last()[i]);
            } else {
                assert(!key_ok(es.last().0));
                assert(!key_ok(es[es.len() - 1].0));
            }
        }
    }
}

/// Writes one value in chunks of at most 255 bytes.
fn write_value(out: &mut Vec<u8>, v: &[u8])
    ensures
        final(out)@ =~= old(out)@ + value_wire(v@),
{
    let n: usize = v.len();
    let mut pos: usize = 0;
    let ghost out0 = old(out)@;
    proof {
        assert(v@.skip(0) =~= v@);
    }
    loop
        invariant
            n == v@.len(),
            pos <= n,
            pos % 255 == 0,
            out0 == old(out)@,
            out@ + value_wire(v@.skip(pos as int)) =~= out0 + value_wire(v@),
        decreases n - pos,
    {
        let ghost iter0 = out@;
        let len: usize = if n - pos < 255 {
            n - pos
        } else {
            255
        };
        out.push(len as u8);
        let ghost chunk0 = out@;
        let mut i: usize = 0;
        while i < len
            invariant
                pos + len <= n,
                n == v@.len(),
                i <= len,
                out@ =~= chunk0 + v@.subrange(pos as int, pos + i),
            decreases len - i,
        {
            out.push(v[pos + i]);
            proof {
                assert(v@.subrange(pos as int, pos + i + 1) =~= v@.subrange(pos as int, pos + i)
                    + seq![v@[pos + i]]);
            }
            i = i + 1;
        }
        proof {
            let tail = v@.skip(pos as int);
            if len < 255 {
                assert(tail.len() < 255);
                assert(value_wire(tail) =~= seq![len as u8] + tail);
                assert(tail =~= v@.subrange(pos as int, pos + len));
                assert(out@ =~= iter0 + value_wire(tail));
            } else {
                assert(tail.len() >= 255);
                assert(value_wire(tail) =~= seq![255u8] + tail.take(255) + value_wire(
                    tail.skip(255),
                ));
                assert(tail.take(255) =~= v@.subrange(pos as int, pos + 255));
                assert(tail.skip(255) =~= v@.skip(pos + 255));
                assert(out@ =~= iter0 + (seq![255u8] + tail.take(255)));
                assert(out@ + value_wire(v@.skip(pos + 255)) =~= iter0 + value_wire(tail));
            }
        }
        if len < 255 {
            proof {
                assert(v@.skip(pos as int) =~= v@.subrange(pos as int, pos + len));
                assert(out@ =~= iter0 + value_wire(v@.skip(pos as int)));
                assert(iter0 + value_wire(v@.skip(pos as int)) =~= out0 + value_wire(v@));
                assert(out@ =~= out0 + value_wire(v@));
            }
            return ;
        }
        pos = pos + 255;
    }
}

/// Serialises an Alfalfa record into its framed byte stream.
///
/// A record with version 0 produces no bytes at all. Version 1 produces the
/// magic header, the version byte, each entry in insertion order, and the
/// terminator. Any other version, or a key that can be neither found in the
/// predefined table, nor read as an `"!unk<code>"` escape, nor written as a
/// custom ASCII name, is refused.
pub fn encode_alfalfa(data: &AlfalfaData) -> (r: Result<Vec<u8>, EarsError>)
    requires
        data.wf(),
    ensures
        data.version_spec() == 0 ==> {
            &&& r matches Ok(v)
            &&& v@ == Seq::<u8>::empty()
        },
        data.version_spec() != 0 && data.version_spec() != 1 ==> {
            &&& r matches Err(e)
            &&& e == EarsError::InvalidAlfalfaVersion(data.version_spec())
        },
        data.version_spec() == 1 && entries_ok(data.entries()) ==> {
            &&& r matches Ok(v)
            &&& v@ == stream_wire(1, data.entries())
        },
        data.version_spec() == 1 && !entries_ok(data.entries()) ==> {
            &&& r matches Err(e)
            &&& first_bad_key(data.entries()) matches Some(k)
            &&& error_for_key(e, k)
        },
{
    let version: u8 = data.version();
    if version == 0 {
        return Ok(Vec::new());
    }
    if version != 1 {
        return Err(EarsError::InvalidAlfalfaVersion(version));
    }
    let mut out: Vec<u8> = Vec::new();
    out.push(0xEA);
    out.push(0x1F);
    out.push(0xA1);
    out.push(0xFA);
    out.push(version);
    proof {
        assert(out@ =~= magic_bytes() + seq![1u8]);
        assert(entries_wire(data.entries().take(0)) =~= Seq::<u8>::empty());
        lemma_entries_error_none(data.entries());
    }
    let n: usize = data.entry_count();
    let mut i: usize = 0;
    while i < n
        invariant
            data.wf(),
            data.version_spec() == 1,
            n == data.entries().len(),
            i <= n,
            entries_ok(data.entries().take(i as int)),
            out@ =~= magic_bytes() + seq![1u8] + entries_wire(data.entries().take(i as int)),
        decreases n - i,
    {
        let entry = data.entry_at(i);
        let ghost es_pre = data.entries().take(i as int);
        let ghost es_post = data.entries().take(i + 1);
        proof {
            assert(es_post.drop_last() =~= es_pre);
            assert(es_post.last() == data.entries()[i as int]);
        }
        match write_key(&mut out, &entry.0) {
            Ok(u) => {},
            Err(e) => {
                proof {
                    lemma_entries_error_first(data.entries(), i as int);
                }
                return Err(e);
            },
        }
        write_value(&mut out, entry.1.as_slice());
        proof {
            assert(entries_wire(es_post) =~= entries_wire(es_pre) + key_wire(
                data.entries()[i as int].0,
            ) + value_wire(data.entries()[i as int].1));
            assert forall|j: int| 0 <= j < i + 1 implies key_ok((#[trigger] es_post[j]).0) by {
                if j < i {
                    assert(es_post[j] == es_pre[j]);
                }
            }
        }
        i = i + 1;
    }
    out.push(0);
    proof {
        assert(data.entries().take(n as int) =~= data.entries());
        assert(out@ =~= stream_wire(1, data.entries()));
        lemma_entries_error_none(data.entries());
    }
    Ok(out)
}

/// The first bad key decides the error.
proof fn lemma_entries_error_first(es: Seq<(Seq<u8>, Seq<u8>)>, i: int)
    requires
        0 <= i < es.len(),
        entries_ok(es.take(i)),
        !key_ok(es[i].0),
    ensures
        first_bad_key(es) == Some(es[i].0),
    decreases es.len(),
{
    lemma_entries_error_none(es.take(i));
    if i == es.len() - 1 {
        assert(es.drop_last() =~= es.take(i));
        assert(es.last() == es[i]);
    } else {
        assert(es.drop_last().take(i) =~= es.take(i));
        assert(es.drop_last()[i] == es[i]);
        lemma_entries_error_first(es.drop_last(), i);
    }
}

/// Writes one key in its wire form, or reports why it cannot be written.
fn write_key(out: &mut Vec<u8>, key: &Vec<u8>) -> (r: Result<(), EarsError>)
    ensures
        key_ok(key@) ==> {
            &&& r matches Ok(u)
            &&& final(out)@ =~= old(out)@ + key_wire(key@)
        },
        !key_ok(key@) ==> {
            &&& r matches Err(e)
            &&& error_for_key(e, key@)
            &&& final(out)@ =~= old(out)@
        },
{
    if let Some(idx) = predef_lookup(key) {
        out.push(idx);
        proof {
            assert(out@ =~= old(out)@ + key_wire(key@));
        }
        return Ok(());
    }
    if let Some(code) = unk_lookup(key) {
        out.push(code);
        proof {
            assert(out@ =~= old(out)@ + key_wire(key@));
        }
        return Ok(());
    }
    let n: usize = key.len();
    if n == 0 {
        return Err(EarsError::InvalidAlfalfaEntryName(vstd::slice::slice_to_vec(key.as_slice())));
    }
    if key[0] < 64 {
        return Err(EarsError::InvalidAlfalfaEntryName(vstd::slice::slice_to_vec(key.as_slice())));
    }
    let mut i: usize = 0;
    while i < n
        invariant
            n == key@.len(),
            n >= 1,
            key@[0] >= 64,
            predef_index(key@) < 0,
            !key_is_unk(key@),
            out@ == old(out)@,
            i <= n,
            forall|j: int| 0 <= j < i ==> #[trigger] key@[j] <= 127,
        decreases n - i,
    {
        if key[i] > 127 {
            proof {
                let ghost ii = i as int;
                assert(exists|j: int| 0 <= j < key@.len() && #[trigger] key@[j] > 127) by {
                    assert(0 <= ii < key@.len() && key@[ii] > 127);
                }
                assert(key_err_kind(key@) == Some(KeyErrKind::NonAscii));
            }
            return Err(
                EarsError::InvalidAlfalfaEntryNameAscii(vstd::slice::slice_to_vec(key.as_slice())),
            );
        }
        i = i + 1;
    }
    let ghost out0 = out@;
    let mut j: usize = 0;
    while j < n - 1
        invariant
            n == key@.len(),
            n >= 1,
            key@[0] >= 64,
            predef_index(key@) < 0,
            !key_is_unk(key@),
            forall|t: int| 0 <= t < n ==> #[trigger] key@[t] <= 127,
            out0 == old(out)@,
            j <= n - 1,
            out@ =~= out0 + key@.take(j as int),
        decreases n - j,
    {
        out.push(key[j]);
        proof {
            assert(key@.take(j + 1) =~= key@.take(j as int).push(key@[j as int]));
        }
        j = j + 1;
    }
    let last: u8 = key[n - 1] | 0x80;
    out.push(last);
    proof {
        assert(key_err_kind(key@) is None);
        assert(out@ =~= old(out)@ + key_wire(key@));
    }
    Ok(())
}

/// Looks a key up in the predefined table.
fn predef_lookup(key: &Vec<u8>) -> (r: Option<u8>)
    ensures
        predef_index(key@) >= 0 ==> r == Some(predef_index(key@) as u8),
        predef_index(key@) < 0 ==> r is None,
{
    let n: usize = key.len();
    if n == 3 && key[0] == 69 && key[1] == 78 && key[2] == 68 {
        proof {
            assert(key@ =~= predef_key(0));
        }
        return Some(0);
    }
    if n == 4 && key[0] == 119 && key[1] == 105 && key[2] == 110 && key[3] == 103 {
        proof {
            assert(key@ =~= predef_key(1));
            assert(key@ != predef_key(0));
        }
        return Some(1);
    }
    if n == 5 && key[0] == 101 && key[1] == 114 && key[2] == 97 && key[3] == 115 && key[4] == 101 {
        proof {
            assert(key@ =~= predef_key(2));
            assert(key@ != predef_key(0) && key@ != predef_key(1));
        }
        return Some(2);
    }
    if n == 4 && key[0] == 99 && key[1] == 97 && key[2] == 112 && key[3] == 101 {
        proof {
            assert(key@ =~= predef_key(3));
            assert(key@ != predef_key(0) && key@ != predef_key(1) && key@ != predef_key(2));
        }
        return Some(3);
    }
    proof {
        assert(key@ != predef_key(0)) by {
            if key@ == predef_key(0) {
                assert(key@.len() == 3 && key@[0] == 69 && key@[1] == 78 && key@[2] == 68);
            }
        }
        assert(key@ != predef_key(1)) by {
            if key@ == predef_key(1) {
                assert(key@.len() == 4 && key@[0] == 119 && key@[1] == 105 && key@[2] == 110
                    && key@[3] == 103);
            }
        }
        assert(key@ != predef_key(2)) by {
            if key@ == predef_key(2) {
                assert(key@.len() == 5 && key@[0] == 101 && key@[1] == 114 && key@[2] == 97
                    && key@[3] == 115 && key@[4] == 101);
            }
        }
        assert(key@ != predef_key(3)) by {
            if key@ == predef_key(3) {
                assert(key@.len() == 4 && key@[0] == 99 && key@[1] == 97 && key@[2] == 112 && key@[3]
                    == 101);
            }
        }
    }
    None
}

/// Reads a `"!unk<code>"` key back into its code byte.
fn unk_lookup(key: &Vec<u8>) -> (r: Option<u8>)
    ensures
        key_is_unk(key@) ==> r == Some(dec_value(key@.skip(4)) as u8),
        !key_is_unk(key@) ==> r is None,
{
    let n: usize = key.len();
    if n < 5 || key[0] != 33 || key[1] != 117 || key[2] != 110 || key[3] != 107 {
        proof {
            if key@.len() >= 5 && key@.take(4) == unk_prefix() {
                assert(key@.take(4)[0] == 33 && key@.take(4)[1] == 117 && key@.take(4)[2] == 110
                    && key@.take(4)[3] == 107);
            }
        }
        return None;
    }
    proof {
        assert(key@.take(4) =~= unk_prefix());
    }
    let mut value: u32 = 0;
    let mut i: usize = 4;
    while i < n
        invariant
            n == key@.len(),
            n >= 5,
            4 <= i <= n,
            all_dec_digits(key@.subrange(4, i as int)),
            value == dec_value(key@.subrange(4, i as int)),
            value <= 255,
        decreases n - i,
    {
        let b: u8 = key[i];
        if b < 48 || b > 57 {
            proof {
                if all_dec_digits(key@.skip(4)) {
                    assert(key@.skip(4)[i - 4] == key@[i as int]);
                }
            }
            return None;
        }
        proof {
            assert(key@.subrange(4, i + 1) =~= key@.subrange(4, i as int).push(key@[i as int]));
            assert(key@.subrange(4, i + 1).drop_last() =~= key@.subrange(4, i as int));
        }
        value = value * 10 + (b - 48) as u32;
        if value > 255 {
            proof {
                if key_is_unk(key@) {
                    lemma_dec_value_monotone(key@.skip(4), i - 4 + 1);
                    assert(key@.subrange(4, i + 1) =~= key@.skip(4).take(i - 4 + 1));
                }
            }
            return None;
        }
        i = i + 1;
    }
    proof {
        assert(key@.subrange(4, n as int) =~= key@.skip(4));
    }
    Some(value as u8)
}

/// A digit-string prefix never exceeds the whole string's value.
proof fn lemma_dec_value_monotone(s: Seq<u8>, i: int)
    requires
        all_dec_digits(s),
        0 <= i <= s.len(),
    ensures
        dec_value(s.take(i)) <= dec_value(s),
    decreases s.len() - i,
{
    if i < s.len() {
        assert(s.take(i + 1).drop_last() =~= s.take(i));
        assert(s.take(i + 1).last() == s[i]);
        assert(dec_value(s.take(i + 1)) == dec_value(s.take(i)) * 10 + (s[i] - 48));
        assert(dec_value(s.take(i)) >= 0) by {
            lemma_dec_value_nonneg(s.take(i));
        }
        assert(dec_value(s.take(i)) <= dec_value(s.take(i + 1)));
        lemma_dec_value_monotone(s, i + 1);
        assert(s.take(s.len() as int) =~= s);
    } else {
        assert(s.take(i) =~= s);
    }
}

proof fn lemma_dec_value_nonneg(s: Seq<u8>)
    requires
        all_dec_digits(s),
    ensures
        dec_value(s) >= 0,
    decreases s.len(),
{
    if s.len() > 0 {
        assert(all_dec_digits(s.drop_last())) by {
            assert(forall|i: int|
                0 <= i < s.len() - 1 ==> #[trigger] s.drop_last()[i] == s[i]);
        }
        lemma_dec_value_nonneg(s.drop_last());
    }
}

} // verus!

// ---------------------------------------------------------------------------
// Framing decoder
// ---------------------------------------------------------------------------

verus! {

/// Parses the continuation of a custom key: bytes are appended until one
/// with the high bit set supplies, in its low seven bits, the last byte.
pub open spec fn parse_custom_key(s: Seq<u8>, pos: int, acc: Seq<u8>) -> Option<(Seq<u8>, int)>
    decreases s.len() - pos
        when 0 <= pos <= s.len()
{
    if pos >= s.len() {
        None
    } else if s[pos] >= 128 {
        Some((acc.push((s[pos] - 128) as u8), pos + 1))
    } else {
        parse_custom_key(s, pos + 1, acc.push(s[pos]))
    }
}

/// Parses one key at `pos`: a predefined index, an unknown code, or a
/// custom ASCII name.
pub open spec fn parse_key(s: Seq<u8>, pos: int) -> Option<(Seq<u8>, int)> {
    if pos >= s.len() {
        None
    } else if s[pos] < 4 {
        Some((predef_key(s[pos] as int), pos + 1))
    } else if s[pos] < 64 {
        Some((unk_key(s[pos]), pos + 1))
    } else {
        parse_custom_key(s, pos + 1, seq![s[pos]])
    }
}

/// Parses one chunked value at `pos`.
pub open spec fn parse_value(s: Seq<u8>, pos: int, acc: Seq<u8>) -> Option<(Seq<u8>, int)>
    decreases s.len() - pos
        when 0 <= pos <= s.len()
{
    if pos >= s.len() {
        None
    } else if pos + 1 + s[pos] > s.len() {
        None
    } else {
        let acc2 = acc + s.subrange(pos + 1, pos + 1 + s[pos]);
        if s[pos] == 255 {
            parse_value(s, pos + 256, acc2)
        } else {
            Some((acc2, pos + 1 + s[pos]))
        }
    }
}

pub proof fn lemma_parse_custom_key_bounds(s: Seq<u8>, pos: int, acc: Seq<u8>)
    requires
        0 <= pos <= s.len(),
    ensures
        parse_custom_key(s, pos, acc) matches Some(kp) ==> pos < kp.1 <= s.len(),
    decreases s.len() - pos,
{
    if pos < s.len() && s[pos] < 128 {
        lemma_parse_custom_key_bounds(s, pos + 1, acc.push(s[pos]));
    }
}

pub proof fn lemma_parse_key_bounds(s: Seq<u8>, pos: int)
    requires
        0 <= pos <= s.len(),
    ensures
        parse_key(s, pos) matches Some(kp) ==> pos < kp.1 <= s.len(),
{
    if pos < s.len() && s[pos] >= 64 {
        lemma_parse_custom_key_bounds(s, pos + 1, seq![s[pos]]);
    }
}

pub proof fn lemma_parse_value_bounds(s: Seq<u8>, pos: int, acc: Seq<u8>)
    requires
        0 <= pos <= s.len(),
    ensures
        parse_value(s, pos, acc) matches Some(vp) ==> pos < vp.1 <= s.len(),
    decreases s.len() - pos,
{
    if pos < s.len() && pos + 1 + s[pos] <= s.len() && s[pos] == 255 {
        lemma_parse_value_bounds(s, pos + 256, acc + s.subrange(pos + 1, pos + 1 + s[pos]));
    }
}

/// Parses the entry list until the `"END"` key.
pub open spec fn parse_entries(s: Seq<u8>, pos: int) -> Option<Seq<(Seq<u8>, Seq<u8>)>>
    decreases s.len() - pos
        when 0 <= pos <= s.len()
        via parse_entries_decreases
{
    match parse_key(s, pos) {
        None => None,
        Some(kp) => {
            if kp.0 == predef_key(0) {
                Some(Seq::empty())
            } else {
                match parse_value(s, kp.1, Seq::empty()) {
                    None => None,
                    Some(vp) => {
                        match parse_entries(s, vp.1) {
                            None => None,
                            Some(rest) => Some(seq![(kp.0, vp.0)] + rest),
                        }
                    },
                }
            }
        },
    }
}

#[via_fn]
proof fn parse_entries_decreases(s: Seq<u8>, pos: int) {
    lemma_parse_key_bounds(s, pos);
    match parse_key(s, pos) {
        None => {},
        Some(kp) => {
            lemma_parse_value_bounds(s, kp.1, Seq::empty());
        },
    }
}

} // verus!

verus! {

/// Builds the canonical decimal digits of a byte.
fn dec_digits_of(code: u8) -> (r: Vec<u8>)
    ensures
        r@ == dec_digits(code as int),
{
    let mut r: Vec<u8> = Vec::new();
    let d2: u8 = code / 100;
    let d1: u8 = (code / 10) % 10;
    let d0: u8 = code % 10;
    if code >= 100 {
        r.push(48 + d2);
    }
    if code >= 10 {
        r.push(48 + d1);
    }
    r.push(48 + d0);
    proof {
        let n = code as int;
        vstd::arithmetic::div_mod::lemma_div_denominator(n, 10, 10);
        if n < 10 {
            assert(r@ =~= dec_digits(n));
        } else if n < 100 {
            assert(dec_digits(n) == dec_digits(n / 10).push((48 + n % 10) as u8));
            assert(n / 10 < 10 && n / 10 >= 1);
            assert(r@ =~= dec_digits(n));
        } else {
            assert(dec_digits(n) == dec_digits(n / 10).push((48 + n % 10) as u8));
            assert(n / 10 >= 10);
            assert(dec_digits(n / 10) == dec_digits(n / 10 / 10).push((48 + (n / 10) % 10) as u8));
            assert(n / 10 / 10 == n / 100);
            assert(1 <= n / 100 < 10);
            assert(r@ =~= dec_digits(n));
        }
    }
    r
}

/// Reads one key starting at `*pos`.
fn read_key(bytes: &[u8], pos: &mut usize) -> (r: Result<Vec<u8>, EarsError>)
    requires
        *old(pos) <= bytes@.len(),
    ensures
        parse_key(bytes@, *old(pos) as int) matches Some(kp) ==> {
            &&& r matches Ok(k)
            &&& k@ == kp.0
            &&& *final(pos) == kp.1
            &&& *final(pos) <= bytes@.len()
        },
        parse_key(bytes@, *old(pos) as int) is None ==> {
            &&& r matches Err(e)
            &&& e == EarsError::TruncatedBitStream
        },
{
    let n: usize = bytes.len();
    if *pos >= n {
        return Err(EarsError::TruncatedBitStream);
    }
    let first: u8 = bytes[*pos];
    *pos = *pos + 1;
    if first < 4 {
        let mut k: Vec<u8> = Vec::new();
        if first == 0 {
            k.push(69);
            k.push(78);
            k.push(68);
        } else if first == 1 {
            k.push(119);
            k.push(105);
            k.push(110);
            k.push(103);
        } else if first == 2 {
            k.push(101);
            k.push(114);
            k.push(97);
            k.push(115);
            k.push(101);
        } else {
            k.push(99);
            k.push(97);
            k.push(112);
            k.push(101);
        }
        proof {
            assert(k@ =~= predef_key(first as int));
        }
        return Ok(k);
    }
    if first < 64 {
        let digits: Vec<u8> = dec_digits_of(first);
        let mut k: Vec<u8> = Vec::new();
        k.push(33);
        k.push(117);
        k.push(110);
        k.push(107);
        let m: usize = digits.len();
        let mut i: usize = 0;
        while i < m
            invariant
                m == digits@.len(),
                i <= m,
                k@ =~= unk_prefix() + digits@.take(i as int),
            decreases m - i,
        {
            k.push(digits[i]);
            proof {
                assert(digits@.take(i + 1) =~= digits@.take(i as int).push(digits@[i as int]));
            }
            i = i + 1;
        }
        proof {
            assert(digits@.take(m as int) =~= digits@);
            assert(k@ =~= unk_key(first));
        }
        return Ok(k);
    }
    let mut k: Vec<u8> = Vec::new();
    k.push(first);
    proof {
        assert(k@ =~= seq![first]);
    }
    loop
        invariant
            n == bytes@.len(),
            *pos <= n,
            parse_custom_key(bytes@, *pos as int, k@) == parse_key(bytes@, *old(pos) as int),
        decreases n - *pos,
    {
        if *pos >= n {
            return Err(EarsError::TruncatedBitStream);
        }
        let b: u8 = bytes[*pos];
        *pos = *pos + 1;
        if b >= 128 {
            k.push(b - 128);
            return Ok(k);
        }
        k.push(b);
    }
}

/// Reads one chunked value starting at `*pos`.
fn read_value(bytes: &[u8], pos: &mut usize) -> (r: Result<Vec<u8>, EarsError>)
    requires
        *old(pos) <= bytes@.len(),
    ensures
        parse_value(bytes@, *old(pos) as int, Seq::empty()) matches Some(vp) ==> {
            &&& r matches Ok(v)
            &&& v@ == vp.0
            &&& *final(pos) == vp.1
            &&& *final(pos) <= bytes@.len()
        },
        parse_value(bytes@, *old(pos) as int, Seq::empty()) is None ==> {
            &&& r matches Err(e)
            &&& e == EarsError::TruncatedBitStream
        },
{
    let n: usize = bytes.len();
    let mut v: Vec<u8> = Vec::new();
    proof {
        assert(v@ =~= Seq::<u8>::empty());
    }
    loop
        invariant
            n == bytes@.len(),
            *pos <= n,
            parse_value(bytes@, *pos as int, v@) == parse_value(
                bytes@,
                *old(pos) as int,
                Seq::empty(),
            ),
        decreases n - *pos,
    {
        if *pos >= n {
            return Err(EarsError::TruncatedBitStream);
        }
        let len: u8 = bytes[*pos];
        if (len as usize) > n - 1 - *pos {
            return Err(EarsError::TruncatedBitStream);
        }
        let ghost v0 = v@;
        let ghost p0 = *pos as int;
        let start: usize = *pos + 1;
        let mut i: usize = 0;
        while i < len as usize
            invariant
                n == bytes@.len(),
                start + len <= n,
                start == p0 + 1,
                i <= len as usize,
                v@ =~= v0 + bytes@.subrange(p0 + 1, p0 + 1 + i),
            decreases len as usize - i,
        {
            v.push(bytes[start + i]);
            proof {
                assert(bytes@.subrange(p0 + 1, p0 + 1 + i + 1) =~= bytes@.subrange(
                    p0 + 1,
                    p0 + 1 + i,
                ).push(bytes@[p0 + 1 + i]));
            }
            i = i + 1;
        }
        *pos = *pos + 1 + (len as usize);
        if len != 255 {
            return Ok(v);
        }
    }
}

} // verus!

verus! {

use crate::model::bytes_eq;

/// Deserialises a framed byte stream into an Alfalfa record.
///
/// A stream whose magic or version is not recognised yields `Ok(None)`;
/// a stream that ends mid-structure is refused. Entries are taken in
/// stream order; a repeated key keeps its first position with the later
/// value.
pub fn read_framed(bytes: &[u8]) -> (r: Result<Option<AlfalfaData>, EarsError>)
    ensures
        bytes@.len() < 4 ==> {
            &&& r matches Err(e)
            &&& e == EarsError::TruncatedBitStream
        },
        bytes@.len() >= 4 && bytes@.take(4) != magic_bytes() ==> {
            &&& r matches Ok(o)
            &&& o is None
        },
        bytes@.len() == 4 && bytes@.take(4) == magic_bytes() ==> {
            &&& r matches Err(e)
            &&& e == EarsError::TruncatedBitStream
        },
        bytes@.len() >= 5 && bytes@.take(4) == magic_bytes() && bytes@[4] != 1 ==> {
            &&& r matches Ok(o)
            &&& o is None
        },
        bytes@.len() >= 5 && bytes@.take(4) == magic_bytes() && bytes@[4] == 1 ==> {
            match parse_entries(bytes@, 5) {
                Some(es) => {
                    &&& r matches Ok(o)
                    &&& o matches Some(d)
                    &&& d.wf()
                    &&& d.version_spec() == 1
                    &&& d.map_view() == entries_map(es)
                },
                None => {
                    &&& r matches Err(e)
                    &&& e == EarsError::TruncatedBitStream
                },
            }
        },
{
    let n: usize = bytes.len();
    if n < 4 {
        return Err(EarsError::TruncatedBitStream);
    }
    if !(bytes[0] == 0xEA && bytes[1] == 0x1F && bytes[2] == 0xA1 && bytes[3] == 0xFA) {
        proof {
            assert(bytes@.take(4) != magic_bytes()) by {
                if bytes@.take(4) == magic_bytes() {
                    assert(bytes@.take(4)[0] == 0xEA && bytes@.take(4)[1] == 0x1F && bytes@.take(
                        4,
                    )[2] == 0xA1 && bytes@.take(4)[3] == 0xFA);
                }
            }
        }
        return Ok(None);
    }
    proof {
        assert(bytes@.take(4) =~= magic_bytes());
    }
    if n == 4 {
        return Err(EarsError::TruncatedBitStream);
    }
    let version: u8 = bytes[4];
    if version != 1 {
        return Ok(None);
    }
    let mut data = AlfalfaData::with_version(1);
    let mut pos: usize = 5;
    let ghost done: Seq<(Seq<u8>, Seq<u8>)> = Seq::empty();
    proof {
        assert(done + parse_entries(bytes@, 5).unwrap() =~= parse_entries(bytes@, 5).unwrap());
    }
    loop
        invariant
            n == bytes@.len(),
            n >= 5,
            bytes@.take(4) == magic_bytes(),
            bytes@[4] == 1,
            pos <= n,
            data.wf(),
            data.version_spec() == 1,
            data.map_view() == entries_map(done),
            (match parse_entries(bytes@, pos as int) {
                Some(rest) => parse_entries(bytes@, 5) == Some(done + rest),
                None => parse_entries(bytes@, 5) is None,
            }),
        decreases n - pos,
    {
        let ghost p0 = pos as int;
        let key: Vec<u8> = match read_key(bytes, &mut pos) {
            Ok(k) => k,
            Err(e) => {
                proof {
                    assert(parse_key(bytes@, p0) is None);
                }
                return Err(e);
            },
        };
        proof {
            lemma_parse_key_bounds(bytes@, p0);
        }
        let is_end: bool = key.len() == 3 && {
            let e0: u8 = key[0];
            let e1: u8 = key[1];
            let e2: u8 = key[2];
            e0 == 69 && e1 == 78 && e2 == 68
        };
        if is_end {
            proof {
                assert(key@ =~= predef_key(0));
                assert(parse_entries(bytes@, p0) == Some(Seq::<(Seq<u8>, Seq<u8>)>::empty()));
                assert(done + Seq::<(Seq<u8>, Seq<u8>)>::empty() =~= done);
            }
            return Ok(Some(data));
        }
        proof {
            assert(key@ != predef_key(0)) by {
                if key@ == predef_key(0) {
                    assert(key@.len() == 3 && key@[0] == 69 && key@[1] == 78 && key@[2] == 68);
                }
            }
        }
        let ghost p1 = pos as int;
        let value: Vec<u8> = match read_value(bytes, &mut pos) {
            Ok(v) => v,
            Err(e) => {
                proof {
                    assert(parse_value(bytes@, p1, Seq::empty()) is None);
                    assert(parse_entries(bytes@, p0) is None);
                }
                return Err(e);
            },
        };
        proof {
            lemma_parse_value_bounds(bytes@, p1, Seq::empty());
        }
        let ghost k = key@;
        let ghost v = value@;
        data.set_data_internal(key, value);
        proof {
            let entry = (k, v);
            let done2 = done.push(entry);
            assert(done2.drop_last() =~= done);
            assert(entries_map(done2) == entries_map(done).insert(k, v));
            match parse_entries(bytes@, pos as int) {
                Some(rest) => {
                    assert(parse_entries(bytes@, p0) == Some(seq![entry] + rest));
                    assert(done + (seq![entry] + rest) =~= done2 + rest);
                },
                None => {
                    assert(parse_entries(bytes@, p0) is None);
                },
            }
        }
        proof {
            done = done.push((k, v));
        }
    }
}

} // verus!

// ---------------------------------------------------------------------------
// Alpha-channel projection
// ---------------------------------------------------------------------------

verus! {

use crate::image::{EarsImage, Rgba};

/// The ten rectangles whose pixels carry Alfalfa data, as
/// `(x1, y1, x2, y2)`, half-open on the upper bounds. The order is part of
/// the wire format.
pub open spec fn rect_spec(i: int) -> (int, int, int, int) {
    if i == 0 {
        (8, 0, 24, 8)
    } else if i == 1 {
        (0, 8, 8, 16)
    } else if i == 2 {
        (16, 8, 32, 16)
    } else if i == 3 {
        (4, 16, 12, 20)
    } else if i == 4 {
        (20, 16, 36, 20)
    } else if i == 5 {
        (44, 16, 52, 20)
    } else if i == 6 {
        (0, 20, 56, 32)
    } else if i == 7 {
        (20, 48, 28, 52)
    } else if i == 8 {
        (36, 48, 44, 52)
    } else {
        (16, 52, 48, 64)
    }
}

pub open spec fn in_rect(r: (int, int, int, int), x: int, y: int) -> bool {
    r.0 <= x < r.2 && r.1 <= y < r.3
}

/// The pixels of one rectangle, x outer, y inner.
pub open spec fn rect_pixels(r: (int, int, int, int)) -> Seq<(int, int)> {
    Seq::new(((r.2 - r.0) * (r.3 - r.1)) as nat, |i: int| (r.0 + i / (r.3 - r.1), r.1 + i % (r.3 - r.1)))
}

/// The pixels of the first `j` rectangles, in order.
pub open spec fn rects_prefix(j: int) -> Seq<(int, int)>
    decreases j,
{
    if j <= 0 {
        Seq::empty()
    } else {
        rects_prefix(j - 1) + rect_pixels(rect_spec(j - 1))
    }
}

/// The full ordered pixel sequence of the projection.
pub open spec fn alfalfa_pixels() -> Seq<(int, int)> {
    rects_prefix(10)
}

/// Whether a coordinate lies in one of the ten rectangles.
pub open spec fn in_alfalfa_region(x: int, y: int) -> bool {
    exists|a: int| 0 <= a < 10 && in_rect(#[trigger] rect_spec(a), x, y)
}

/// Within one rectangle, indices map to coordinates bijectively.
proof fn lemma_rect_pixels_facts(r: (int, int, int, int))
    requires
        r.0 < r.2,
        r.1 < r.3,
    ensures
        rect_pixels(r).len() == (r.2 - r.0) * (r.3 - r.1),
        forall|i: int|
            0 <= i < rect_pixels(r).len() ==> in_rect(r, (#[trigger] rect_pixels(r)[i]).0,
                rect_pixels(r)[i].1),
        forall|i: int, j: int|
            0 <= i < j < rect_pixels(r).len() ==> #[trigger] rect_pixels(r)[i]
                != #[trigger] rect_pixels(r)[j],
{
    let w = r.2 - r.0;
    let h = r.3 - r.1;
    assert forall|i: int| 0 <= i < rect_pixels(r).len() implies in_rect(r, (
    #[trigger] rect_pixels(r)[i]).0, rect_pixels(r)[i].1) by {
        vstd::arithmetic::div_mod::lemma_fundamental_div_mod(i, h);
        assert(i / h < w) by {
            if i / h >= w {
                vstd::arithmetic::mul::lemma_mul_inequality(w, i / h, h);
                assert(w * h <= (i / h) * h);
                assert((i / h) * h == h * (i / h));
            }
        }
        assert(i / h >= 0) by {
            if i / h < 0 {
                assert(h * (i / h) <= -h);
            }
        }
    }
    assert forall|i: int, j: int| 0 <= i < j < rect_pixels(r).len() implies #[trigger] rect_pixels(
        r,
    )[i] != #[trigger] rect_pixels(r)[j] by {
        vstd::arithmetic::div_mod::lemma_fundamental_div_mod(i, h);
        vstd::arithmetic::div_mod::lemma_fundamental_div_mod(j, h);
    }
}

/// No two of the ten rectangles share a pixel.
proof fn lemma_rects_disjoint(a: int, b: int, x: int, y: int)
    requires
        0 <= a < 10,
        0 <= b < 10,
        a != b,
    ensures
        !(in_rect(rect_spec(a), x, y) && in_rect(rect_spec(b), x, y)),
{
}

/// The ten rectangles sit inside the 64 by 64 grid.
proof fn lemma_rect_in_grid(a: int)
    requires
        0 <= a < 10,
    ensures
        0 <= rect_spec(a).0 < rect_spec(a).2 <= 64,
        0 <= rect_spec(a).1 < rect_spec(a).3 <= 64,
{
}

/// Facts about the pixel list of the first `j` rectangles: every pixel
/// lies in one of them (hence in the grid), and no pixel repeats.
proof fn lemma_rects_prefix_facts(j: int)
    requires
        0 <= j <= 10,
    ensures
        forall|k: int|
            0 <= k < rects_prefix(j).len() ==> exists|a: int|
                0 <= a < j && in_rect(#[trigger] rect_spec(a), (#[trigger] rects_prefix(j)[k]).0,
                    rects_prefix(j)[k].1),
        forall|i: int, k: int|
            0 <= i < k < rects_prefix(j).len() ==> #[trigger] rects_prefix(j)[i]
                != #[trigger] rects_prefix(j)[k],
    decreases j,
{
    if j > 0 {
        lemma_rects_prefix_facts(j - 1);
        let pre = rects_prefix(j - 1);
        let r = rect_spec(j - 1);
        lemma_rect_in_grid(j - 1);
        lemma_rect_pixels_facts(r);
        let cur = rects_prefix(j);
        assert forall|k: int| 0 <= k < cur.len() implies exists|a: int|
            0 <= a < j && in_rect(#[trigger] rect_spec(a), (#[trigger] cur[k]).0, cur[k].1) by {
            if k < pre.len() {
                let a = choose|a: int|
                    0 <= a < j - 1 && in_rect(#[trigger] rect_spec(a), pre[k].0, pre[k].1);
                assert(cur[k] == pre[k]);
                assert(0 <= a < j && in_rect(rect_spec(a), cur[k].0, cur[k].1));
            } else {
                assert(cur[k] == rect_pixels(r)[k - pre.len()]);
                assert(in_rect(rect_spec(j - 1), cur[k].0, cur[k].1));
            }
        }
        assert forall|i: int, k: int| 0 <= i < k < cur.len() implies #[trigger] cur[i]
            != #[trigger] cur[k] by {
            if k < pre.len() {
                assert(cur[i] == pre[i] && cur[k] == pre[k]);
            } else if i >= pre.len() {
                assert(cur[i] == rect_pixels(r)[i - pre.len()]);
                assert(cur[k] == rect_pixels(r)[k - pre.len()]);
            } else {
                assert(cur[i] == pre[i] && cur[k] == rect_pixels(r)[k - pre.len()]);
                let a = choose|a: int|
                    0 <= a < j - 1 && in_rect(#[trigger] rect_spec(a), pre[i].0, pre[i].1);
                assert(in_rect(rect_spec(j - 1), cur[k].0, cur[k].1));
                lemma_rects_disjoint(a, j - 1, cur[k].0, cur[k].1);
            }
        }
    }
}

/// The pixel sequence has 1568 entries, all distinct, all inside the ten
/// rectangles of the 64 by 64 grid.
pub proof fn lemma_alfalfa_pixels_facts()
    ensures
        alfalfa_pixels().len() == 1568,
        forall|k: int|
            0 <= k < 1568 ==> {
                &&& 0 <= (#[trigger] alfalfa_pixels()[k]).0 < 64
                &&& 0 <= alfalfa_pixels()[k].1 < 64
                &&& in_alfalfa_region(alfalfa_pixels()[k].0, alfalfa_pixels()[k].1)
            },
        forall|i: int, k: int|
            0 <= i < k < 1568 ==> #[trigger] alfalfa_pixels()[i] != #[trigger] alfalfa_pixels()[k],
{
    lemma_rects_prefix_facts(10);
    assert(alfalfa_pixels().len() == 1568) by {
        assert(16 * 8 == 128) by (nonlinear_arith);
        assert(8 * 8 == 64) by (nonlinear_arith);
        assert(8 * 4 == 32) by (nonlinear_arith);
        assert(16 * 4 == 64) by (nonlinear_arith);
        assert(56 * 12 == 672) by (nonlinear_arith);
        assert(32 * 12 == 384) by (nonlinear_arith);
        assert(rect_pixels(rect_spec(0)).len() == 128);
        assert(rect_pixels(rect_spec(1)).len() == 64);
        assert(rect_pixels(rect_spec(2)).len() == 128);
        assert(rect_pixels(rect_spec(3)).len() == 32);
        assert(rect_pixels(rect_spec(4)).len() == 64);
        assert(rect_pixels(rect_spec(5)).len() == 32);
        assert(rect_pixels(rect_spec(6)).len() == 672);
        assert(rect_pixels(rect_spec(7)).len() == 32);
        assert(rect_pixels(rect_spec(8)).len() == 32);
        assert(rect_pixels(rect_spec(9)).len() == 384);
        assert(rects_prefix(10).len() == rects_prefix(9).len() + 384);
        assert(rects_prefix(9).len() == rects_prefix(8).len() + 32);
        assert(rects_prefix(8).len() == rects_prefix(7).len() + 32);
        assert(rects_prefix(7).len() == rects_prefix(6).len() + 672);
        assert(rects_prefix(6).len() == rects_prefix(5).len() + 32);
        assert(rects_prefix(5).len() == rects_prefix(4).len() + 64);
        assert(rects_prefix(4).len() == rects_prefix(3).len() + 32);
        assert(rects_prefix(3).len() == rects_prefix(2).len() + 128);
        assert(rects_prefix(2).len() == rects_prefix(1).len() + 64);
        assert(rects_prefix(1).len() == rects_prefix(0).len() + 128);
        assert(rects_prefix(0).len() == 0);
    }
    assert forall|k: int| 0 <= k < 1568 implies {
        &&& 0 <= (#[trigger] alfalfa_pixels()[k]).0 < 64
        &&& 0 <= alfalfa_pixels()[k].1 < 64
        &&& in_alfalfa_region(alfalfa_pixels()[k].0, alfalfa_pixels()[k].1)
    } by {
        let a = choose|a: int|
            0 <= a < 10 && in_rect(#[trigger] rect_spec(a), alfalfa_pixels()[k].0,
                alfalfa_pixels()[k].1);
        lemma_rect_in_grid(a);
    }
}

/// Builds the ordered pixel coordinate list.
fn alfalfa_pixel_list() -> (r: Vec<(u32, u32)>)
    ensures
        r@.len() == alfalfa_pixels().len(),
        forall|k: int|
            0 <= k < r@.len() ==> ((#[trigger] r@[k]).0 as int, r@[k].1 as int)
                == alfalfa_pixels()[k],
{
    let mut r: Vec<(u32, u32)> = Vec::new();
    let mut j: usize = 0;
    proof {
        assert(r@.len() == rects_prefix(0).len());
    }
    while j < 10
        invariant
            j <= 10,
            r@.len() == rects_prefix(j as int).len(),
            forall|k: int|
                0 <= k < r@.len() ==> ((#[trigger] r@[k]).0 as int, r@[k].1 as int)
                    == rects_prefix(j as int)[k],
        decreases 10 - j,
    {
        let (x1, y1, x2, y2): (u32, u32, u32, u32) = if j == 0 {
            (8, 0, 24, 8)
        } else if j == 1 {
            (0, 8, 8, 16)
        } else if j == 2 {
            (16, 8, 32, 16)
        } else if j == 3 {
            (4, 16, 12, 20)
        } else if j == 4 {
            (20, 16, 36, 20)
        } else if j == 5 {
            (44, 16, 52, 20)
        } else if j == 6 {
            (0, 20, 56, 32)
        } else if j == 7 {
            (20, 48, 28, 52)
        } else if j == 8 {
            (36, 48, 44, 52)
        } else {
            (16, 52, 48, 64)
        };
        let ghost rsp = rect_spec(j as int);
        proof {
            assert(rsp == (x1 as int, y1 as int, x2 as int, y2 as int));
            lemma_rect_pixels_facts(rsp);
        }
        let ghost base = r@.len() as int;
        let h: u32 = y2 - y1;
        proof {
            broadcast use vstd::arithmetic::mul::lemma_mul_by_zero_is_zero;
            broadcast use vstd::arithmetic::mul::lemma_mul_is_distributive_add_other_way;

            assert(((x1 - x1) as int) * (h as int) == 0);
        }
        let mut x: u32 = x1;
        while x < x2
            invariant
                x1 <= x <= x2,
                x1 < x2,
                y1 < y2,
                h == y2 - y1,
                rsp == (x1 as int, y1 as int, x2 as int, y2 as int),
                base == rects_prefix(j as int).len(),
                r@.len() == base + (x - x1) * h,
                forall|k: int|
                    0 <= k < base ==> ((#[trigger] r@[k]).0 as int, r@[k].1 as int)
                        == rects_prefix(j as int)[k],
                forall|k: int|
                    base <= k < r@.len() ==> ((#[trigger] r@[k]).0 as int, r@[k].1 as int)
                        == rect_pixels(rsp)[k - base],
            decreases x2 - x,
        {
            let mut y: u32 = y1;
            while y < y2
                invariant
                    x1 <= x < x2,
                    x1 < x2,
                    y1 <= y <= y2,
                    y1 < y2,
                    h == y2 - y1,
                    rsp == (x1 as int, y1 as int, x2 as int, y2 as int),
                    base == rects_prefix(j as int).len(),
                    r@.len() == base + (x - x1) * h + (y - y1),
                    forall|k: int|
                        0 <= k < base ==> ((#[trigger] r@[k]).0 as int, r@[k].1 as int)
                            == rects_prefix(j as int)[k],
                    forall|k: int|
                        base <= k < r@.len() ==> ((#[trigger] r@[k]).0 as int, r@[k].1 as int)
                            == rect_pixels(rsp)[k - base],
                decreases y2 - y,
            {
                proof {
                    let m = (x - x1) * h + (y - y1);
                    vstd::arithmetic::div_mod::lemma_fundamental_div_mod_converse(
                        m as int,
                        h as int,
                        (x - x1) as int,
                        (y - y1) as int,
                    );
                    assert(0 <= m < rect_pixels(rsp).len()) by {
                        vstd::arithmetic::mul::lemma_mul_inequality(
                            (x - x1) as int + 1,
                            (x2 - x1) as int,
                            h as int,
                        );
                        vstd::arithmetic::mul::lemma_mul_is_distributive_add_other_way(
                            h as int,
                            (x - x1) as int,
                            1,
                        );
                    }
                    assert(rect_pixels(rsp)[m as int] == (x as int, y as int));
                }
                r.push((x, y));
                y = y + 1;
            }
            proof {
                vstd::arithmetic::mul::lemma_mul_is_distributive_add_other_way(
                    h as int,
                    (x - x1) as int,
                    1,
                );
            }
            x = x + 1;
        }
        proof {
            assert((x2 - x1) * h == rect_pixels(rsp).len());
            assert(rects_prefix(j + 1) == rects_prefix(j as int) + rect_pixels(rsp));
            assert forall|k: int| 0 <= k < r@.len() implies ((#[trigger] r@[k]).0 as int,
            r@[k].1 as int) == rects_prefix(j + 1)[k] by {
                if k < base {
                    assert(rects_prefix(j + 1)[k] == rects_prefix(j as int)[k]);
                } else {
                    assert(rects_prefix(j + 1)[k] == rect_pixels(rsp)[k - base]);
                }
            }
        }
        j = j + 1;
    }
    r
}

} // verus!

verus! {

use crate::bits::bit_at;

/// The 7-bit digits a 64 by 64 image carries, in pixel order. A fully
/// transparent pixel is skipped; any other pixel contributes
/// `0x7F - (alpha & 0x7F)`.
pub open spec fn digits_of_image(im: EarsImage, ps: Seq<(int, int)>) -> Seq<u8>
    decreases ps.len(),
{
    if ps.len() == 0 {
        Seq::empty()
    } else {
        let a = im.px(ps[0].0, ps[0].1).a;
        let rest = digits_of_image(im, ps.drop_first());
        if a == 0 {
            rest
        } else {
            seq![(127 - (a as int % 128)) as u8] + rest
        }
    }
}

pub proof fn lemma_digits_of_image_len(im: EarsImage, ps: Seq<(int, int)>)
    ensures
        digits_of_image(im, ps).len() <= ps.len(),
    decreases ps.len(),
{
    if ps.len() > 0 {
        lemma_digits_of_image_len(im, ps.drop_first());
    }
}

pub proof fn lemma_digits_of_image_concat(im: EarsImage, a: Seq<(int, int)>, b: Seq<(int, int)>)
    ensures
        digits_of_image(im, a + b) =~= digits_of_image(im, a) + digits_of_image(im, b),
    decreases a.len(),
{
    if a.len() == 0 {
        assert(a + b =~= b);
    } else {
        assert((a + b).drop_first() =~= a.drop_first() + b);
        lemma_digits_of_image_concat(im, a.drop_first(), b);
        assert((a + b)[0] == a[0]);
    }
}

/// Bit `t` (counting from the least significant end of the carried big
/// integer) of a big-endian byte sequence.
pub open spec fn be_bytes_bit(bs: Seq<u8>, t: int) -> bool {
    0 <= t < 8 * bs.len() && bit_at(bs[bs.len() - 1 - t / 8] as nat, t % 8)
}

/// Bit `t` of the big integer carried by a 7-bit digit sequence.
pub open spec fn digit_bit(ds: Seq<u8>, t: int) -> bool {
    0 <= t < 7 * ds.len() && bit_at(ds[t / 7] as nat, t % 7)
}

pub open spec fn bitw(b: bool, w: int) -> int {
    if b {
        w
    } else {
        0
    }
}

/// Digit `i` of the big integer carried by a big-endian byte sequence.
pub open spec fn digit_of_bytes(bs: Seq<u8>, i: int) -> u8 {
    (bitw(be_bytes_bit(bs, 7 * i), 1) + bitw(be_bytes_bit(bs, 7 * i + 1), 2) + bitw(
        be_bytes_bit(bs, 7 * i + 2),
        4,
    ) + bitw(be_bytes_bit(bs, 7 * i + 3), 8) + bitw(be_bytes_bit(bs, 7 * i + 4), 16) + bitw(
        be_bytes_bit(bs, 7 * i + 5),
        32,
    ) + bitw(be_bytes_bit(bs, 7 * i + 6), 64)) as u8
}

/// Byte `k` (big-endian, `nbytes` in all) of the big integer carried by a
/// digit sequence.
pub open spec fn byte_of_digits(ds: Seq<u8>, nbytes: int, k: int) -> u8 {
    (bitw(digit_bit(ds, 8 * (nbytes - 1 - k)), 1) + bitw(digit_bit(ds, 8 * (nbytes - 1 - k) + 1), 2)
        + bitw(digit_bit(ds, 8 * (nbytes - 1 - k) + 2), 4) + bitw(
        digit_bit(ds, 8 * (nbytes - 1 - k) + 3),
        8,
    ) + bitw(digit_bit(ds, 8 * (nbytes - 1 - k) + 4), 16) + bitw(
        digit_bit(ds, 8 * (nbytes - 1 - k) + 5),
        32,
    ) + bitw(digit_bit(ds, 8 * (nbytes - 1 - k) + 6), 64) + bitw(
        digit_bit(ds, 8 * (nbytes - 1 - k) + 7),
        128,
    )) as u8
}

/// Number of significant bits of a byte.
pub open spec fn u8_bitlen(v: u8) -> int
    decreases v,
{
    if v == 0 {
        0
    } else {
        1 + u8_bitlen(v / 2)
    }
}

/// Number of significant bits of the big integer carried by a digit
/// sequence.
pub open spec fn digits_bitlen(ds: Seq<u8>) -> int
    decreases ds.len(),
{
    if ds.len() == 0 {
        0
    } else if ds.last() == 0 {
        digits_bitlen(ds.drop_last())
    } else {
        7 * (ds.len() - 1) + u8_bitlen(ds.last())
    }
}

/// The minimal big-endian byte sequence carrying the same big integer as a
/// digit sequence.
pub open spec fn bytes_from_digits(ds: Seq<u8>) -> Seq<u8> {
    Seq::new(
        (((digits_bitlen(ds) + 7) / 8)) as nat,
        |k: int| byte_of_digits(ds, (digits_bitlen(ds) + 7) / 8, k),
    )
}

/// Reads bit `t` of the big integer carried by a big-endian byte slice.
fn be_bit_exec(bs: &Vec<u8>, t: usize) -> (r: bool)
    ensures
        r == be_bytes_bit(bs@, t as int),
{
    let n: usize = bs.len();
    if t / 8 < n {
        proof {
            vstd::arithmetic::div_mod::lemma_fundamental_div_mod(t as int, 8);
        }
        let byte: u8 = bs[n - 1 - t / 8];
        let sh: u8 = (t % 8) as u8;
        proof {
            crate::bits::lemma_u8_bit_at(byte, sh);
        }
        ((byte >> sh) & 1) == 1
    } else {
        proof {
            vstd::arithmetic::div_mod::lemma_fundamental_div_mod(t as int, 8);
        }
        false
    }
}

/// Reads bit `t` of the big integer carried by a digit vector.
fn digit_bit_exec(ds: &Vec<u8>, t: usize) -> (r: bool)
    ensures
        r == digit_bit(ds@, t as int),
{
    let n: usize = ds.len();
    if t / 7 < n {
        proof {
            vstd::arithmetic::div_mod::lemma_fundamental_div_mod(t as int, 7);
        }
        let byte: u8 = ds[t / 7];
        let sh: u8 = (t % 7) as u8;
        proof {
            crate::bits::lemma_u8_bit_at(byte, sh);
        }
        ((byte >> sh) & 1) == 1
    } else {
        proof {
            vstd::arithmetic::div_mod::lemma_fundamental_div_mod(t as int, 7);
        }
        false
    }
}

/// Extracts digit `i` of the big integer carried by a byte vector.
fn digit_of_bytes_exec(bs: &Vec<u8>, i: usize) -> (r: u8)
    requires
        7 * i + 7 <= usize::MAX,
    ensures
        r == digit_of_bytes(bs@, i as int),
        r < 128,
{
    let t: usize = 7 * i;
    let b0: u8 = if be_bit_exec(bs, t) {
        1
    } else {
        0
    };
    let b1: u8 = if be_bit_exec(bs, t + 1) {
        2
    } else {
        0
    };
    let b2: u8 = if be_bit_exec(bs, t + 2) {
        4
    } else {
        0
    };
    let b3: u8 = if be_bit_exec(bs, t + 3) {
        8
    } else {
        0
    };
    let b4: u8 = if be_bit_exec(bs, t + 4) {
        16
    } else {
        0
    };
    let b5: u8 = if be_bit_exec(bs, t + 5) {
        32
    } else {
        0
    };
    let b6: u8 = if be_bit_exec(bs, t + 6) {
        64
    } else {
        0
    };
    b0 + b1 + b2 + b3 + b4 + b5 + b6
}

/// Assembles byte `k` of `nbytes` from a digit vector.
fn byte_of_digits_exec(ds: &Vec<u8>, nbytes: usize, k: usize) -> (r: u8)
    requires
        k < nbytes,
        8 * nbytes <= usize::MAX,
    ensures
        r == byte_of_digits(ds@, nbytes as int, k as int),
{
    let t: usize = 8 * (nbytes - 1 - k);
    let b0: u8 = if digit_bit_exec(ds, t) {
        1
    } else {
        0
    };
    let b1: u8 = if digit_bit_exec(ds, t + 1) {
        2
    } else {
        0
    };
    let b2: u8 = if digit_bit_exec(ds, t + 2) {
        4
    } else {
        0
    };
    let b3: u8 = if digit_bit_exec(ds, t + 3) {
        8
    } else {
        0
    };
    let b4: u8 = if digit_bit_exec(ds, t + 4) {
        16
    } else {
        0
    };
    let b5: u8 = if digit_bit_exec(ds, t + 5) {
        32
    } else {
        0
    };
    let b6: u8 = if digit_bit_exec(ds, t + 6) {
        64
    } else {
        0
    };
    let b7: u8 = if digit_bit_exec(ds, t + 7) {
        128
    } else {
        0
    };
    b0 + b1 + b2 + b3 + b4 + b5 + b6 + b7
}

/// Reads the raw framed byte stream out of the alpha channel of a 64 by 64
/// image. Images of any other size, and images whose projected big integer
/// is zero, carry no Alfalfa data.
pub fn decode_alfalfa(image: &EarsImage) -> (r: Option<Vec<u8>>)
    requires
        image.wf(),
    ensures
        !(image.width_spec() == 64 && image.height_spec() == 64) ==> r is None,
        image.width_spec() == 64 && image.height_spec() == 64 ==> {
            let ds = digits_of_image(*image, alfalfa_pixels());
            &&& digits_bitlen(ds) == 0 ==> r is None
            &&& digits_bitlen(ds) != 0 ==> {
                &&& r matches Some(v)
                &&& v@ == bytes_from_digits(ds)
            }
        },
{
    if !(image.width() == 64 && image.height() == 64) {
        return None;
    }
    proof {
        lemma_alfalfa_pixels_facts();
    }
    let pixels: Vec<(u32, u32)> = alfalfa_pixel_list();
    let mut digits: Vec<u8> = Vec::new();
    let n: usize = pixels.len();
    let mut k: usize = 0;
    proof {
        assert(alfalfa_pixels().take(0) =~= Seq::<(int, int)>::empty());
    }
    while k < n
        invariant
            image.wf(),
            image.width_spec() == 64,
            image.height_spec() == 64,
            n == 1568,
            n == pixels@.len(),
            alfalfa_pixels().len() == 1568,
            forall|j: int|
                0 <= j < 1568 ==> ((#[trigger] pixels@[j]).0 as int, pixels@[j].1 as int)
                    == alfalfa_pixels()[j],
            forall|j: int|
                0 <= j < 1568 ==> {
                    &&& 0 <= (#[trigger] alfalfa_pixels()[j]).0 < 64
                    &&& 0 <= alfalfa_pixels()[j].1 < 64
                },
            k <= n,
            digits@ =~= digits_of_image(*image, alfalfa_pixels().take(k as int)),
        decreases n - k,
    {
        let (x, y): (u32, u32) = pixels[k];
        let p: Rgba = match image.get_pixel(x, y) {
            Some(p) => p,
            None => {
                proof {
                    assert(false);
                }
                return None;
            },
        };
        proof {
            let t1 = alfalfa_pixels().take(k as int);
            let t2 = alfalfa_pixels().take(k + 1);
            assert(t2 =~= t1 + seq![alfalfa_pixels()[k as int]]);
            lemma_digits_of_image_concat(*image, t1, seq![alfalfa_pixels()[k as int]]);
            let single = seq![alfalfa_pixels()[k as int]];
            assert(single.drop_first() =~= Seq::<(int, int)>::empty());
            assert(digits_of_image(*image, single.drop_first()) =~= Seq::<u8>::empty());
        }
        if p.a != 0 {
            let masked: u8 = p.a & 0x7F;
            proof {
                let pa = p.a;
                assert(pa & 0x7F <= 0x7F) by (bit_vector);
            }
            let d: u8 = 0x7F - masked;
            proof {
                let pa = p.a;
                assert(pa & 0x7F == pa % 128) by (bit_vector);
                assert(p.a & 0x7F == p.a % 128);
                assert(digits_of_image(*image, seq![alfalfa_pixels()[k as int]]) =~= seq![
                    (127 - (p.a as int % 128)) as u8]);
                assert(digits@ + seq![(127 - (p.a as int % 128)) as u8] =~= digits@.push(
                    (127 - (p.a as int % 128)) as u8,
                ));
            }
            digits.push(d);
        } else {
            proof {
                assert(digits_of_image(*image, seq![alfalfa_pixels()[k as int]]) =~= Seq::<
                    u8,
                >::empty());
                assert(digits@ + Seq::<u8>::empty() =~= digits@);
            }
        }
        k = k + 1;
    }
    proof {
        assert(alfalfa_pixels().take(1568) =~= alfalfa_pixels());
    }
    // Find the number of significant digits, then of significant bits.
    let dlen: usize = digits.len();
    let mut top: usize = dlen;
    proof {
        assert(digits@.take(dlen as int) =~= digits@);
    }
    while top > 0
        invariant
            top <= dlen,
            dlen == digits@.len(),
            digits_bitlen(digits@) == digits_bitlen(digits@.take(top as int)),
            forall|j: int| top <= j < dlen ==> digits@[j] == 0,
        ensures
            top == 0 || digits@[top - 1] != 0,
            top <= dlen,
            digits_bitlen(digits@) == digits_bitlen(digits@.take(top as int)),
        decreases top,
    {
        if digits[top - 1] != 0 {
            break ;
        }
        proof {
            let t = digits@.take(top as int);
            assert(t.last() == 0);
            assert(t.drop_last() =~= digits@.take(top - 1));
        }
        top = top - 1;
    }
    proof {
        assert(digits@.take(dlen as int) =~= digits@);
    }
    if top == 0 {
        proof {
            assert(digits@.take(0) =~= Seq::<u8>::empty());
        }
        return None;
    }
    // Bit length of the top digit.
    let top_digit: u8 = digits[top - 1];
    let mut bl: usize = 0;
    let mut vv: u8 = top_digit;
    proof {
        lemma_u8_bitlen_bound(top_digit);
    }
    while vv > 0
        invariant
            u8_bitlen(top_digit) == bl + u8_bitlen(vv),
            bl <= 8,
            u8_bitlen(vv) >= 0,
        decreases vv,
    {
        proof {
            lemma_u8_bitlen_bound(vv);
            lemma_u8_bitlen_bound(top_digit);
        }
        vv = vv / 2;
        bl = bl + 1;
    }
    proof {
        lemma_digits_of_image_len(*image, alfalfa_pixels());
    }
    let bitlen: usize = 7 * (top - 1) + bl;
    proof {
        let t = digits@.take(top as int);
        assert(t.last() == digits@[top - 1]);
        assert(t.last() != 0);
        assert(digits_bitlen(digits@) == 7 * (top - 1) + u8_bitlen(top_digit));
        assert(u8_bitlen(top_digit) == bl);
        assert(u8_bitlen(top_digit) >= 1) by {
            lemma_u8_bitlen_bound(top_digit);
        }
    }
    let nbytes: usize = (bitlen + 7) / 8;
    let mut out: Vec<u8> = Vec::new();
    let mut k2: usize = 0;
    while k2 < nbytes
        invariant
            nbytes == (digits_bitlen(digits@) + 7) / 8,
            nbytes <= 10976,
            k2 <= nbytes,
            out@.len() == k2,
            forall|j: int|
                0 <= j < k2 ==> #[trigger] out@[j] == byte_of_digits(digits@, nbytes as int, j),
        decreases nbytes - k2,
    {
        let b: u8 = byte_of_digits_exec(&digits, nbytes, k2);
        out.push(b);
        k2 = k2 + 1;
    }
    proof {
        assert(out@ =~= bytes_from_digits(digits@));
    }
    Some(out)
}

/// A byte has at most eight significant bits, and a nonzero byte at least
/// one.
pub proof fn lemma_u8_bitlen_bound(v: u8)
    ensures
        0 <= u8_bitlen(v) <= 8,
        v != 0 ==> u8_bitlen(v) >= 1,
{
    lemma_u8_bitlen_nonneg(v);
    assert((v as nat) < vstd::arithmetic::power2::pow2(8)) by {
        vstd::arithmetic::power2::lemma2_to64();
    }
    lemma_u8_bitlen_max(v, 8);
    if v != 0 {
        lemma_u8_bitlen_nonneg(v / 2);
        assert(u8_bitlen(v) == 1 + u8_bitlen(v / 2));
    }
}

/// A value below `2^n` has at most `n` significant bits.
proof fn lemma_u8_bitlen_max(v: u8, n: int)
    requires
        0 <= n,
        (v as nat) < vstd::arithmetic::power2::pow2(n as nat),
    ensures
        u8_bitlen(v) <= n,
    decreases v,
{
    if v != 0 {
        assert(n >= 1) by {
            if n == 0 {
                vstd::arithmetic::power2::lemma2_to64();
            }
        }
        vstd::arithmetic::power2::lemma_pow2_unfold(n as nat);
        lemma_u8_bitlen_max(v / 2, n - 1);
    }
}

proof fn lemma_u8_bitlen_nonneg(v: u8)
    ensures
        u8_bitlen(v) >= 0,
    decreases v,
{
    if v != 0 {
        lemma_u8_bitlen_nonneg(v / 2);
    }
}

} // verus!

verus! {

/// How the projection rewrites one carrier pixel: a fully transparent
/// pixel first becomes opaque black, and the alpha then carries the digit
/// as `(0x7F - d) | 0x80`, which keeps the high bit set.
pub open spec fn projected_px(p: Rgba, d: u8) -> Rgba {
    if p.a == 0 {
        Rgba { r: 0u8, g: 0u8, b: 0u8, a: (255 - d) as u8 }
    } else {
        Rgba { r: p.r, g: p.g, b: p.b, a: (255 - d) as u8 }
    }
}

/// The framed byte stream a record denotes (for the versions the encoder
/// accepts).
pub open spec fn framed_bytes(data: AlfalfaData) -> Seq<u8> {
    if data.version_spec() == 0 {
        Seq::empty()
    } else {
        stream_wire(1, data.entries())
    }
}

/// Whether the encoder accepts the record at all.
pub open spec fn encodable(data: AlfalfaData) -> bool {
    data.version_spec() == 0 || (data.version_spec() == 1 && entries_ok(data.entries()))
}

/// Every coordinate of the ten rectangles occurs in the pixel sequence.
pub proof fn lemma_alfalfa_pixels_cover(x: int, y: int)
    requires
        in_alfalfa_region(x, y),
    ensures
        exists|k: int|
            0 <= k < alfalfa_pixels().len() && #[trigger] alfalfa_pixels()[k] == (x, y),
{
    let a = choose|a: int| 0 <= a < 10 && in_rect(#[trigger] rect_spec(a), x, y);
    let r = rect_spec(a);
    let h = r.3 - r.1;
    let m = (x - r.0) * h + (y - r.1);
    assert(0 <= m < rect_pixels(r).len()) by {
        vstd::arithmetic::mul::lemma_mul_inequality(x - r.0 + 1, r.2 - r.0, h);
        vstd::arithmetic::mul::lemma_mul_is_distributive_add_other_way(h, x - r.0, 1);
        vstd::arithmetic::mul::lemma_mul_nonnegative(x - r.0, h);
    }
    assert(rect_pixels(r)[m] == (x, y)) by {
        vstd::arithmetic::div_mod::lemma_fundamental_div_mod_converse(m, h, x - r.0, y - r.1);
    }
    lemma_rects_prefix_contains(a + 1, 10, m + rects_prefix(a).len());
    assert(alfalfa_pixels()[m + rects_prefix(a).len()] == (x, y)) by {
        assert(rects_prefix(a + 1)[m + rects_prefix(a).len()] == rect_pixels(r)[m]);
    }
}

/// A prefix of the rectangle list embeds into a longer one at the same
/// indices.
proof fn lemma_rects_prefix_contains(j: int, j2: int, k: int)
    requires
        0 <= j <= j2 <= 10,
        0 <= k < rects_prefix(j).len(),
    ensures
        k < rects_prefix(j2).len(),
        rects_prefix(j2)[k] == rects_prefix(j)[k],
    decreases j2 - j,
{
    if j < j2 {
        lemma_rects_prefix_contains(j, j2 - 1, k);
    }
}

/// Writes an Alfalfa record into the alpha channel of a 64 by 64 image.
///
/// The framed stream is read as a big integer whose base-128 digits are
/// laid into the pixels of the ten rectangles in order; every touched
/// pixel's alpha keeps its high bit set, and fully transparent carrier
/// pixels are first replaced with opaque black. Pixels outside the ten
/// rectangles are never touched.
pub fn write_alfalfa(data: &AlfalfaData, image: &mut EarsImage) -> (r: Result<(), EarsError>)
    requires
        data.wf(),
        old(image).wf(),
    ensures
        final(image).wf(),
        final(image).width_spec() == old(image).width_spec(),
        final(image).height_spec() == old(image).height_spec(),
        forall|x: int, y: int|
            old(image).in_bounds(x, y) && !in_alfalfa_region(x, y) ==> final(image).px(x, y) == old(
                image,
            ).px(x, y),
        !encodable(*data) ==> {
            &&& *final(image) == *old(image)
            &&& (data.version_spec() != 0 && data.version_spec() != 1 ==> {
                &&& r matches Err(e)
                &&& e == EarsError::InvalidAlfalfaVersion(data.version_spec())
            })
            &&& (data.version_spec() == 1 && !entries_ok(data.entries()) ==> {
                &&& r matches Err(e)
                &&& first_bad_key(data.entries()) matches Some(k)
                &&& error_for_key(e, k)
            })
        },
        encodable(*data) && framed_bytes(*data).len() > 1428 ==> {
            &&& *final(image) == *old(image)
            &&& r matches Err(e)
            &&& e == EarsError::AlfalfaDataTooLarge(framed_bytes(*data).len() as usize)
        },
        encodable(*data) && framed_bytes(*data).len() <= 1428 && old(image).width_spec() >= 56
            && old(image).height_spec() >= 64 ==> {
            &&& r matches Ok(u)
            &&& forall|k: int|
                0 <= k < 1568 ==> final(image).px(
                    (#[trigger] alfalfa_pixels()[k]).0,
                    alfalfa_pixels()[k].1,
                ) == projected_px(
                    old(image).px(alfalfa_pixels()[k].0, alfalfa_pixels()[k].1),
                    digit_of_bytes(framed_bytes(*data), k),
                )
            &&& forall|x: int, y: int|
                in_alfalfa_region(x, y) ==> (#[trigger] final(image).px(x, y)).a >= 128
        },
        encodable(*data) && framed_bytes(*data).len() <= 1428 && !(old(image).width_spec() >= 56
            && old(image).height_spec() >= 64) ==> r is Err,
{
    let buf: Vec<u8> = match encode_alfalfa(data) {
        Ok(b) => b,
        Err(e) => {
            return Err(e);
        },
    };
    if buf.len() > 1428 {
        return Err(EarsError::AlfalfaDataTooLarge(buf.len()));
    }
    proof {
        lemma_alfalfa_pixels_facts();
        assert(buf@ == framed_bytes(*data));
    }
    let pixels: Vec<(u32, u32)> = alfalfa_pixel_list();
    let n: usize = pixels.len();
    let mut k: usize = 0;
    while k < n
        invariant
            data.wf(),
            image.wf(),
            image.width_spec() == old(image).width_spec(),
            image.height_spec() == old(image).height_spec(),
            encodable(*data),
            framed_bytes(*data).len() <= 1428,
            buf@ == framed_bytes(*data),
            n == 1568,
            n == pixels@.len(),
            alfalfa_pixels().len() == 1568,
            forall|j: int|
                0 <= j < 1568 ==> ((#[trigger] pixels@[j]).0 as int, pixels@[j].1 as int)
                    == alfalfa_pixels()[j],
            forall|j: int|
                0 <= j < 1568 ==> {
                    &&& 0 <= (#[trigger] alfalfa_pixels()[j]).0 < 64
                    &&& 0 <= alfalfa_pixels()[j].1 < 64
                    &&& in_alfalfa_region(alfalfa_pixels()[j].0, alfalfa_pixels()[j].1)
                },
            forall|i: int, j: int|
                0 <= i < j < 1568 ==> #[trigger] alfalfa_pixels()[i]
                    != #[trigger] alfalfa_pixels()[j],
            k <= n,
            forall|j: int|
                0 <= j < k ==> old(image).in_bounds(
                    (#[trigger] alfalfa_pixels()[j]).0,
                    alfalfa_pixels()[j].1,
                ),
            forall|j: int|
                0 <= j < k ==> image.px(
                    (#[trigger] alfalfa_pixels()[j]).0,
                    alfalfa_pixels()[j].1,
                ) == projected_px(
                    old(image).px(alfalfa_pixels()[j].0, alfalfa_pixels()[j].1),
                    digit_of_bytes(buf@, j),
                ),
            forall|x: int, y: int|
                old(image).in_bounds(x, y) && !(exists|j: int|
                    0 <= j < k && #[trigger] alfalfa_pixels()[j] == (x, y))
                    ==> #[trigger] image.px(x, y) == old(image).px(x, y),
        decreases n - k,
    {
        let (x, y): (u32, u32) = pixels[k];
        let p: Rgba = match image.get_pixel(x, y) {
            Some(p) => p,
            None => {
                return Err(EarsError::InvalidAlfalfaPixelPosition(x, y));
            },
        };
        let d: u8 = digit_of_bytes_exec(&buf, k);
        let newp: Rgba = if p.a == 0 {
            Rgba { r: 0, g: 0, b: 0, a: 255 - d }
        } else {
            Rgba { r: p.r, g: p.g, b: p.b, a: 255 - d }
        };
        let ghost pre = *image;
        let ok: bool = image.set_pixel(x, y, newp);
        proof {
            assert(ok);
            let cur = alfalfa_pixels()[k as int];
            assert(pre.px(cur.0, cur.1) == old(image).px(cur.0, cur.1)) by {
                if exists|j: int| 0 <= j < k && #[trigger] alfalfa_pixels()[j] == (cur.0, cur.1) {
                    let j = choose|j: int|
                        0 <= j < k && #[trigger] alfalfa_pixels()[j] == (cur.0, cur.1);
                    assert(alfalfa_pixels()[j] != alfalfa_pixels()[k as int]);
                    assert(false);
                }
            }
            assert(image.px(cur.0, cur.1) == projected_px(
                old(image).px(cur.0, cur.1),
                digit_of_bytes(buf@, k as int),
            ));
            assert forall|j: int| 0 <= j < k + 1 implies image.px(
                (#[trigger] alfalfa_pixels()[j]).0,
                alfalfa_pixels()[j].1,
            ) == projected_px(
                old(image).px(alfalfa_pixels()[j].0, alfalfa_pixels()[j].1),
                digit_of_bytes(buf@, j),
            ) by {
                if j < k {
                    let pj = alfalfa_pixels()[j];
                    assert(pj != cur);
                    assert(image.px(pj.0, pj.1) == pre.px(pj.0, pj.1));
                }
            }
            assert forall|x2: int, y2: int|
                old(image).in_bounds(x2, y2) && !(exists|j: int|
                    0 <= j < k + 1 && #[trigger] alfalfa_pixels()[j] == (x2, y2))
                implies #[trigger] image.px(x2, y2) == old(image).px(x2, y2) by {
                assert((x2, y2) != cur);
                assert(image.px(x2, y2) == pre.px(x2, y2));
                assert(!(exists|j: int| 0 <= j < k && #[trigger] alfalfa_pixels()[j] == (x2, y2)));
            }
        }
        k = k + 1;
    }
    proof {
        assert(old(image).width_spec() >= 56 && old(image).height_spec() >= 64) by {
            assert(in_rect(rect_spec(6), 55, 20));
            assert(in_alfalfa_region(55, 20));
            lemma_alfalfa_pixels_cover(55, 20);
            let k1 = choose|k1: int|
                0 <= k1 < alfalfa_pixels().len() && #[trigger] alfalfa_pixels()[k1] == (55int, 20int);
            assert(old(image).in_bounds(55, 20));
            assert(in_rect(rect_spec(9), 16, 63));
            assert(in_alfalfa_region(16, 63));
            lemma_alfalfa_pixels_cover(16, 63);
            let k2 = choose|k2: int|
                0 <= k2 < alfalfa_pixels().len() && #[trigger] alfalfa_pixels()[k2] == (16int, 63int);
            assert(old(image).in_bounds(16, 63));
        }
        assert forall|x: int, y: int| in_alfalfa_region(x, y)
            implies (#[trigger] final(image).px(x, y)).a >= 128 by {
            lemma_alfalfa_pixels_cover(x, y);
            let k2 = choose|k2: int|
                0 <= k2 < alfalfa_pixels().len() && #[trigger] alfalfa_pixels()[k2] == (x, y);
            assert(image.px(x, y) == projected_px(
                old(image).px(x, y),
                digit_of_bytes(buf@, k2),
            ));
        }
        assert forall|x: int, y: int|
            old(image).in_bounds(x, y) && !in_alfalfa_region(x, y) implies final(image).px(x, y)
            == old(image).px(x, y) by {
            if exists|j: int| 0 <= j < 1568 && #[trigger] alfalfa_pixels()[j] == (x, y) {
                let j = choose|j: int|
                    0 <= j < 1568 && #[trigger] alfalfa_pixels()[j] == (x, y);
                assert(in_alfalfa_region(alfalfa_pixels()[j].0, alfalfa_pixels()[j].1));
                assert(false);
            }
        }
    }
    Ok(())
}

/// Reads the Alfalfa record a 64 by 64 image carries, if any.
pub fn read_alfalfa(image: &EarsImage) -> (r: Result<Option<AlfalfaData>, EarsError>)
    requires
        image.wf(),
    ensures
        !(image.width_spec() == 64 && image.height_spec() == 64) ==> {
            &&& r matches Ok(o)
            &&& o is None
        },
        image.width_spec() == 64 && image.height_spec() == 64 ==> {
            let ds = digits_of_image(*image, alfalfa_pixels());
            let b = bytes_from_digits(ds);
            &&& digits_bitlen(ds) == 0 ==> ({
                &&& r matches Ok(o)
                &&& o is None
            })
            &&& digits_bitlen(ds) != 0 ==> {
                &&& b.len() < 4 ==> ({
                    &&& r matches Err(e)
                    &&& e == EarsError::TruncatedBitStream
                })
                &&& b.len() >= 4 && b.take(4) != magic_bytes() ==> ({
                    &&& r matches Ok(o)
                    &&& o is None
                })
                &&& b.len() == 4 && b.take(4) == magic_bytes() ==> ({
                    &&& r matches Err(e)
                    &&& e == EarsError::TruncatedBitStream
                })
                &&& b.len() >= 5 && b.take(4) == magic_bytes() && b[4] != 1 ==> ({
                    &&& r matches Ok(o)
                    &&& o is None
                })
                &&& b.len() >= 5 && b.take(4) == magic_bytes() && b[4] == 1 ==> {
                    match parse_entries(b, 5) {
                        Some(es) => {
                            &&& r matches Ok(o)
                            &&& o matches Some(d)
                            &&& d.wf()
                            &&& d.version_spec() == 1
                            &&& d.map_view() == entries_map(es)
                        },
                        None => {
                            &&& r matches Err(e)
                            &&& e == EarsError::TruncatedBitStream
                        },
                    }
                }
            }
        },
{
    match decode_alfalfa(image) {
        Some(bytes) => read_framed(bytes.as_slice()),
        None => Ok(None),
    }
}

} // verus!

// ---------------------------------------------------------------------------
// Framing round trip
// ---------------------------------------------------------------------------

verus! {

use vstd::seq_lib::lemma_concat_associative;

/// A key that survives a framing encode-then-decode round trip: a
/// predefined key other than the terminator, a canonical unknown-code
/// escape, or a custom ASCII name of at least two characters.
pub open spec fn key_storable(k: Seq<u8>) -> bool {
    ||| 1 <= predef_index(k) <= 3
    ||| (key_is_unk(k) && 4 <= dec_value(k.skip(4)) <= 63 && k == unk_key(
        dec_value(k.skip(4)) as u8,
    ))
    ||| (predef_index(k) < 0 && !key_is_unk(k) && key_err_kind(k) is None && k.len() >= 2)
}

/// The entry list's wire form can also be peeled from the front.
proof fn lemma_entries_wire_first(es: Seq<(Seq<u8>, Seq<u8>)>)
    requires
        es.len() > 0,
    ensures
        entries_wire(es) == key_wire(es[0].0) + value_wire(es[0].1) + entries_wire(
            es.drop_first(),
        ),
    decreases es.len(),
{
    if es.len() == 1 {
        assert(es.drop_last() =~= Seq::<(Seq<u8>, Seq<u8>)>::empty());
        assert(es.drop_first() =~= Seq::<(Seq<u8>, Seq<u8>)>::empty());
        assert(entries_wire(es.drop_last()) == Seq::<u8>::empty());
        assert(Seq::<u8>::empty() + key_wire(es[0].0) =~= key_wire(es[0].0));
        assert(key_wire(es[0].0) + value_wire(es[0].1) + Seq::<u8>::empty() =~= key_wire(es[0].0)
            + value_wire(es[0].1));
    } else {
        let front = es.drop_last();
        lemma_entries_wire_first(front);
        assert(front[0] == es[0]);
        assert(front.drop_first() =~= es.drop_first().drop_last());
        assert(es.drop_first().last() == es.last());
        let kw = key_wire(es[0].0);
        let vw = value_wire(es[0].1);
        let mid = entries_wire(es.drop_first().drop_last());
        let kl = key_wire(es.last().0);
        let vl = value_wire(es.last().1);
        assert(entries_wire(es) == ((kw + vw + mid) + kl) + vl);
        assert(entries_wire(es.drop_first()) == mid + kl + vl);
        assert(((kw + vw + mid) + kl) + vl =~= (kw + vw) + ((mid + kl) + vl));
    }
}

/// Parsing a storable key's wire form yields the key back.
proof fn lemma_parse_key_wire(k: Seq<u8>, s: Seq<u8>, pos: int, rest: Seq<u8>)
    requires
        key_storable(k),
        0 <= pos == s.len() - key_wire(k).len() - rest.len(),
        s == s.take(pos) + key_wire(k) + rest,
    ensures
        parse_key(s, pos) == Some((k, pos + key_wire(k).len())),
{
    let kw = key_wire(k);
    if 1 <= predef_index(k) <= 3 {
        assert(kw == seq![predef_index(k) as u8]);
        assert(s[pos] == predef_index(k) as u8);
        assert(predef_key(predef_index(k)) == k);
    } else if key_is_unk(k) && 4 <= dec_value(k.skip(4)) <= 63 && k == unk_key(
        dec_value(k.skip(4)) as u8,
    ) {
        let code = dec_value(k.skip(4)) as u8;
        assert(predef_index(k) < 0) by {
            assert(k.len() >= 5);
            assert(k[0] == 33) by {
                assert(k.take(4)[0] == k[0]);
            }
            assert(predef_key(0)[0] == 69 && predef_key(1)[0] == 119 && predef_key(2)[0] == 101
                && predef_key(3)[0] == 99);
        }
        assert(kw == seq![code]);
        assert(s[pos] == code);
        assert(unk_key(code) == k);
    } else {
        assert(predef_index(k) < 0 && !key_is_unk(k) && key_err_kind(k) is None && k.len() >= 2);
        assert(kw == k.take(k.len() - 1) + seq![(k.last() | 0x80) as u8]);
        assert(s[pos] == k[0]);
        assert(64 <= k[0] <= 127);
        lemma_parse_custom_wire(k, s, pos, rest, 1);
        assert(k.take(1) =~= seq![k[0]]);
        assert(seq![s[pos]] =~= k.take(1));
    }
}

/// Walking the custom-key continuation bytes rebuilds the key.
proof fn lemma_parse_custom_wire(k: Seq<u8>, s: Seq<u8>, pos: int, rest: Seq<u8>, i: int)
    requires
        predef_index(k) < 0,
        !key_is_unk(k),
        key_err_kind(k) is None,
        k.len() >= 2,
        1 <= i < k.len(),
        0 <= pos == s.len() - key_wire(k).len() - rest.len(),
        s == s.take(pos) + key_wire(k) + rest,
    ensures
        parse_custom_key(s, pos + i, k.take(i)) == Some((k, pos + key_wire(k).len())),
    decreases k.len() - i,
{
    let kw = key_wire(k);
    assert(kw == k.take(k.len() - 1) + seq![(k.last() | 0x80) as u8]);
    assert(kw.len() == k.len());
    if i < k.len() - 1 {
        assert(s[pos + i] == k[i]);
        assert(k[i] <= 127);
        assert(k.take(i).push(k[i]) =~= k.take(i + 1));
        lemma_parse_custom_wire(k, s, pos, rest, i + 1);
    } else {
        let last = (k.last() | 0x80) as u8;
        assert(s[pos + i] == last);
        assert(k.last() <= 127);
        assert(k.last() | 0x80 >= 128 && (k.last() | 0x80) - 128 == k.last()) by {
            let kl = k.last();
            assert(kl <= 127 ==> (kl | 0x80 >= 128) && (kl | 0x80) < 256 && (kl | 0x80) - 128
                == kl) by (bit_vector);
        }
        assert(k.take(i).push(k.last()) =~= k);
    }
}

/// Parsing a value's wire form yields the value back.
proof fn lemma_parse_value_wire(v: Seq<u8>, s: Seq<u8>, pos: int, acc: Seq<u8>, rest: Seq<u8>)
    requires
        0 <= pos == s.len() - value_wire(v).len() - rest.len(),
        s == s.take(pos) + value_wire(v) + rest,
    ensures
        parse_value(s, pos, acc) == Some((acc + v, pos + value_wire(v).len())),
    decreases v.len(),
{
    let vw = value_wire(v);
    if v.len() < 255 {
        assert(vw == seq![v.len() as u8] + v);
        assert(s[pos] == v.len() as u8);
        assert(s.subrange(pos + 1, pos + 1 + v.len()) =~= v);
        assert(acc + s.subrange(pos + 1, pos + 1 + v.len()) == acc + v);
    } else {
        assert(vw == seq![255u8] + v.take(255) + value_wire(v.skip(255)));
        assert(s[pos] == 255u8);
        assert(s.subrange(pos + 1, pos + 256) =~= v.take(255));
        let acc2 = acc + v.take(255);
        let pos2 = pos + 256;
        assert(s.take(pos2) =~= s.take(pos) + seq![255u8] + v.take(255));
        assert(s =~= s.take(pos2) + value_wire(v.skip(255)) + rest);
        lemma_parse_value_wire(v.skip(255), s, pos2, acc2, rest);
        assert((acc + v.take(255)) + v.skip(255) =~= acc + v);
    }
}

/// Parsing the wire form of an entry list, terminated by the sentinel,
/// yields the list back.
#[verifier::rlimit(100)]
proof fn lemma_parse_entries_wire(es: Seq<(Seq<u8>, Seq<u8>)>, s: Seq<u8>, pos: int, rest: Seq<u8>)
    requires
        forall|i: int| 0 <= i < es.len() ==> key_storable((#[trigger] es[i]).0),
        0 <= pos == s.len() - entries_wire(es).len() - 1 - rest.len(),
        s == s.take(pos) + entries_wire(es) + seq![0u8] + rest,
    ensures
        parse_entries(s, pos) == Some(es),
    decreases es.len(),
{
    if es.len() == 0 {
        assert(entries_wire(es) == Seq::<u8>::empty());
        assert(s[pos] == 0u8);
        assert(parse_key(s, pos) == Some((predef_key(0), pos + 1)));
        assert(es =~= Seq::<(Seq<u8>, Seq<u8>)>::empty());
    } else {
        let k = es[0].0;
        let v = es[0].1;
        let kw = key_wire(k);
        let vw = value_wire(v);
        lemma_entries_wire_first(es);
        let tailw = entries_wire(es.drop_first());
        assert(entries_wire(es) == kw + vw + tailw);
        let rest_k = vw + (tailw + (seq![0u8] + rest));
        assert(s =~= s.take(pos) + kw + rest_k) by {
            lemma_concat_associative(kw, vw, tailw);
            lemma_concat_associative(kw, vw + tailw, seq![0u8] + rest);
            lemma_concat_associative(vw, tailw, seq![0u8] + rest);
            lemma_concat_associative(s.take(pos) + (kw + vw + tailw), seq![0u8], rest);
            lemma_concat_associative(s.take(pos), kw + vw + tailw, seq![0u8] + rest);
            lemma_concat_associative(s.take(pos), kw, rest_k);
        }
        lemma_parse_key_wire(k, s, pos, rest_k);
        assert(k != predef_key(0)) by {
            if k == predef_key(0) {
                assert(predef_index(k) == 0);
                assert(!key_storable(k)) by {
                    assert(k[0] == 69);
                    assert(!key_is_unk(k)) by {
                        if key_is_unk(k) {
                            assert(k.take(4)[0] == k[0]);
                        }
                    }
                }
            }
        }
        let pos_v = pos + kw.len();
        let rest_v = tailw + (seq![0u8] + rest);
        assert(s.take(pos_v) =~= s.take(pos) + kw);
        assert(s =~= s.take(pos_v) + vw + rest_v) by {
            lemma_concat_associative(s.take(pos) + kw, vw, rest_v);
            lemma_concat_associative(s.take(pos), kw, vw + rest_v);
            lemma_concat_associative(vw, tailw, seq![0u8] + rest);
        }
        lemma_parse_value_wire(v, s, pos_v, Seq::empty(), rest_v);
        assert(Seq::<u8>::empty() + v =~= v);
        let pos_t = pos_v + vw.len();
        assert(s.take(pos_t) =~= s.take(pos_v) + vw);
        assert(s =~= s.take(pos_t) + tailw + seq![0u8] + rest) by {
            lemma_concat_associative(s.take(pos_v), vw, rest_v);
            lemma_concat_associative(s.take(pos_v) + vw, tailw, seq![0u8] + rest);
            lemma_concat_associative((s.take(pos_v) + vw) + tailw, seq![0u8], rest);
        }
        assert forall|i: int| 0 <= i < es.drop_first().len() implies key_storable(
            (#[trigger] es.drop_first()[i]).0,
        ) by {
            assert(es.drop_first()[i] == es[i + 1]);
        }
        lemma_parse_entries_wire(es.drop_first(), s, pos_t, rest);
        assert(seq![(k, v)] + es.drop_first() =~= es);
    }
}

/// Framing round trip: decoding the framed encoding of a record gives the
/// record's dictionary back, key for key and byte for byte.
pub proof fn lemma_alfalfa_framing_roundtrip(d: AlfalfaData)
    requires
        d.wf(),
        d.version_spec() == 1,
        forall|i: int| 0 <= i < d.entries().len() ==> key_storable((#[trigger] d.entries()[i]).0),
    ensures
        entries_ok(d.entries()),
        ({
            let s = stream_wire(1, d.entries());
            &&& s.len() >= 5
            &&& s.take(4) == magic_bytes()
            &&& s[4] == 1
            &&& parse_entries(s, 5) == Some(d.entries())
            &&& entries_map(d.entries()) == d.map_view()
        }),
{
    let es = d.entries();
    assert forall|i: int| 0 <= i < es.len() implies key_ok((#[trigger] es[i]).0) by {
        assert(key_storable(es[i].0));
    }
    let s = stream_wire(1, es);
    assert(s.take(4) =~= magic_bytes());
    assert(s[4] == 1);
    assert(s.take(5) =~= magic_bytes() + seq![1u8]);
    assert(s =~= s.take(5) + entries_wire(es) + seq![0u8] + Seq::<u8>::empty()) by {
        lemma_concat_associative(magic_bytes() + seq![1u8], entries_wire(es), seq![0u8]);
        assert((magic_bytes() + seq![1u8] + entries_wire(es)) + seq![0u8] + Seq::<u8>::empty()
            =~= magic_bytes() + seq![1u8] + entries_wire(es) + seq![0u8]);
    }
    lemma_parse_entries_wire(es, s, 5, Seq::empty());
}

} // verus!

// ---------------------------------------------------------------------------
// Projection round trip
// ---------------------------------------------------------------------------

verus! {

/// Bits of a seven-term digit sum: the sum built from seven bit flags has
/// exactly those flags as its low bits.
proof fn lemma_digit_sum_bits(b0: bool, b1: bool, b2: bool, b3: bool, b4: bool, b5: bool, b6: bool)
    ensures
        ({
            let d = (bitw(b0, 1) + bitw(b1, 2) + bitw(b2, 4) + bitw(b3, 8) + bitw(b4, 16) + bitw(
                b5,
                32,
            ) + bitw(b6, 64)) as u8;
            &&& bit_at(d as nat, 0) == b0
            &&& bit_at(d as nat, 1) == b1
            &&& bit_at(d as nat, 2) == b2
            &&& bit_at(d as nat, 3) == b3
            &&& bit_at(d as nat, 4) == b4
            &&& bit_at(d as nat, 5) == b5
            &&& bit_at(d as nat, 6) == b6
        }),
{
    let x0: u8 = if b0 { 1 } else { 0 };
    let x1: u8 = if b1 { 1 } else { 0 };
    let x2: u8 = if b2 { 1 } else { 0 };
    let x3: u8 = if b3 { 1 } else { 0 };
    let x4: u8 = if b4 { 1 } else { 0 };
    let x5: u8 = if b5 { 1 } else { 0 };
    let x6: u8 = if b6 { 1 } else { 0 };
    let d: u8 = (x0 + x1 * 2 + x2 * 4 + x3 * 8 + x4 * 16 + x5 * 32 + x6 * 64) as u8;
    assert(x0 <= 1 && x1 <= 1 && x2 <= 1 && x3 <= 1 && x4 <= 1 && x5 <= 1 && x6 <= 1 ==> {
        let dd = (x0 + x1 * 2 + x2 * 4 + x3 * 8 + x4 * 16 + x5 * 32 + x6 * 64) as u8;
        &&& (dd >> 0u8) & 1 == x0
        &&& (dd >> 1u8) & 1 == x1
        &&& (dd >> 2u8) & 1 == x2
        &&& (dd >> 3u8) & 1 == x3
        &&& (dd >> 4u8) & 1 == x4
        &&& (dd >> 5u8) & 1 == x5
        &&& (dd >> 6u8) & 1 == x6
    }) by (bit_vector);
    crate::bits::lemma_u8_bit_at(d, 0);
    crate::bits::lemma_u8_bit_at(d, 1);
    crate::bits::lemma_u8_bit_at(d, 2);
    crate::bits::lemma_u8_bit_at(d, 3);
    crate::bits::lemma_u8_bit_at(d, 4);
    crate::bits::lemma_u8_bit_at(d, 5);
    crate::bits::lemma_u8_bit_at(d, 6);
}

/// A byte is the weighted sum of its eight bits.
proof fn lemma_u8_from_bits(v: u8)
    ensures
        v as int == bitw(bit_at(v as nat, 0), 1) + bitw(bit_at(v as nat, 1), 2) + bitw(
            bit_at(v as nat, 2),
            4,
        ) + bitw(bit_at(v as nat, 3), 8) + bitw(bit_at(v as nat, 4), 16) + bitw(
            bit_at(v as nat, 5),
            32,
        ) + bitw(bit_at(v as nat, 6), 64) + bitw(bit_at(v as nat, 7), 128),
{
    crate::bits::lemma_u8_bit_at(v, 0);
    crate::bits::lemma_u8_bit_at(v, 1);
    crate::bits::lemma_u8_bit_at(v, 2);
    crate::bits::lemma_u8_bit_at(v, 3);
    crate::bits::lemma_u8_bit_at(v, 4);
    crate::bits::lemma_u8_bit_at(v, 5);
    crate::bits::lemma_u8_bit_at(v, 6);
    crate::bits::lemma_u8_bit_at(v, 7);
    assert(v as int == (if (v >> 0u8) & 1 == 1 {
        1int
    } else {
        0int
    }) + (if (v >> 1u8) & 1 == 1 {
        2int
    } else {
        0int
    }) + (if (v >> 2u8) & 1 == 1 {
        4int
    } else {
        0int
    }) + (if (v >> 3u8) & 1 == 1 {
        8int
    } else {
        0int
    }) + (if (v >> 4u8) & 1 == 1 {
        16int
    } else {
        0int
    }) + (if (v >> 5u8) & 1 == 1 {
        32int
    } else {
        0int
    }) + (if (v >> 6u8) & 1 == 1 {
        64int
    } else {
        0int
    }) + (if (v >> 7u8) & 1 == 1 {
        128int
    } else {
        0int
    })) by (bit_vector);
}

/// Bit `t` of the digit sequence read off a byte stream is bit `t` of the
/// stream's big integer.
proof fn lemma_digits_of_bytes_bit(bs: Seq<u8>, ds: Seq<u8>, t: int)
    requires
        ds.len() == 1568,
        forall|k: int| 0 <= k < 1568 ==> #[trigger] ds[k] == digit_of_bytes(bs, k),
    ensures
        digit_bit(ds, t) == (0 <= t < 7 * 1568 && be_bytes_bit(bs, t)),
{
    if 0 <= t < 7 * 1568 {
        let k = t / 7;
        let u = t % 7;
        vstd::arithmetic::div_mod::lemma_fundamental_div_mod(t, 7);
        assert(0 <= k < 1568);
        assert(ds[k] == digit_of_bytes(bs, k));
        lemma_digit_sum_bits(
            be_bytes_bit(bs, 7 * k),
            be_bytes_bit(bs, 7 * k + 1),
            be_bytes_bit(bs, 7 * k + 2),
            be_bytes_bit(bs, 7 * k + 3),
            be_bytes_bit(bs, 7 * k + 4),
            be_bytes_bit(bs, 7 * k + 5),
            be_bytes_bit(bs, 7 * k + 6),
        );
        assert(bit_at(ds[k] as nat, u) == be_bytes_bit(bs, 7 * k + u));
    }
}

/// Characterisation of `u8_bitlen`: no significant bit at or above it, and
/// the top bit set for a nonzero byte.
proof fn lemma_u8_bitlen_char(v: u8)
    ensures
        forall|k: int| u8_bitlen(v) <= k ==> !bit_at(v as nat, #[trigger] (k * 1)),
        v != 0 ==> bit_at(v as nat, u8_bitlen(v) - 1),
    decreases v,
{
    if v == 0 {
        assert forall|k: int| u8_bitlen(v) <= k implies !bit_at(v as nat, #[trigger] (k * 1)) by {
            vstd::arithmetic::power2::lemma_pow2_pos((k * 1) as nat);
            assert(0nat / vstd::arithmetic::power2::pow2((k * 1) as nat) == 0);
        }
    } else {
        lemma_u8_bitlen_char(v / 2);
        crate::alfalfa::lemma_u8_bitlen_bound(v);
        crate::alfalfa::lemma_u8_bitlen_bound(v / 2);
        assert forall|k: int| u8_bitlen(v) <= k implies !bit_at(v as nat, #[trigger] (k * 1)) by {
            assert(u8_bitlen(v / 2) <= k - 1);
            assert(!bit_at((v / 2) as nat, (k - 1) * 1));
            lemma_bit_at_shift(v, k - 1);
        }
        if v / 2 == 0 {
            assert(v == 1);
            assert(u8_bitlen(v) == 1);
            assert(bit_at(1nat, 0)) by {
                vstd::arithmetic::power2::lemma2_to64();
                assert(1nat / 1nat == 1nat);
            }
        } else {
            assert(bit_at((v / 2) as nat, u8_bitlen(v / 2) - 1));
            lemma_bit_at_shift(v, u8_bitlen(v / 2) - 1);
        }
    }
}

/// Bit `k + 1` of a byte is bit `k` of its half.
proof fn lemma_bit_at_shift(v: u8, k: int)
    requires
        0 <= k,
    ensures
        bit_at(v as nat, k + 1) == bit_at((v / 2) as nat, k),
{
    vstd::arithmetic::power2::lemma_pow2_unfold((k + 1) as nat);
    vstd::arithmetic::power2::lemma_pow2_pos(k as nat);
    vstd::arithmetic::div_mod::lemma_div_denominator(
        v as int,
        2,
        vstd::arithmetic::power2::pow2(k as nat) as int,
    );
}

/// Characterisation of `digits_bitlen` over seven-bit digits: no digit bit
/// at or above it, and the top bit set when it is positive.
proof fn lemma_digits_bitlen_char(ds: Seq<u8>)
    requires
        forall|k: int| 0 <= k < ds.len() ==> #[trigger] ds[k] < 128,
    ensures
        digits_bitlen(ds) >= 0,
        forall|t: int| digits_bitlen(ds) <= t ==> !digit_bit(ds, #[trigger] (t * 1)),
        digits_bitlen(ds) > 0 ==> digit_bit(ds, digits_bitlen(ds) - 1),
    decreases ds.len(),
{
    let bl = digits_bitlen(ds);
    if ds.len() == 0 {
        assert forall|t: int| bl <= t implies !digit_bit(ds, #[trigger] (t * 1)) by {}
    } else if ds.last() == 0 {
        assert forall|k: int| 0 <= k < ds.drop_last().len() implies #[trigger] ds.drop_last()[k]
            < 128 by {
            assert(ds.drop_last()[k] == ds[k]);
        }
        lemma_digits_bitlen_char(ds.drop_last());
        assert forall|t: int| bl <= t implies !digit_bit(ds, #[trigger] (t * 1)) by {
            if 0 <= t < 7 * ds.len() {
                vstd::arithmetic::div_mod::lemma_fundamental_div_mod(t, 7);
                if t / 7 < ds.len() - 1 {
                    assert(ds.drop_last()[t / 7] == ds[t / 7]);
                    assert(!digit_bit(ds.drop_last(), t * 1));
                } else {
                    assert(ds[t / 7] == 0);
                    vstd::arithmetic::power2::lemma_pow2_pos((t % 7) as nat);
                    assert(0nat / vstd::arithmetic::power2::pow2((t % 7) as nat) == 0);
                }
            }
        }
        if bl > 0 {
            assert(digit_bit(ds.drop_last(), bl - 1));
            vstd::arithmetic::div_mod::lemma_fundamental_div_mod(bl - 1, 7);
            assert(ds.drop_last()[(bl - 1) / 7] == ds[(bl - 1) / 7]);
        }
    } else {
        let v = ds.last();
        assert(v == ds[ds.len() - 1]);
        assert(v < 128);
        lemma_u8_bitlen_char(v);
        crate::alfalfa::lemma_u8_bitlen_bound(v);
        assert(u8_bitlen(v) <= 7) by {
            assert((v as nat) < vstd::arithmetic::power2::pow2(7)) by {
                vstd::arithmetic::power2::lemma2_to64();
            }
            lemma_u8_bitlen_max(v, 7);
        }
        assert(bl == 7 * (ds.len() - 1) + u8_bitlen(v));
        assert forall|t: int| bl <= t implies !digit_bit(ds, #[trigger] (t * 1)) by {
            if 0 <= t < 7 * ds.len() {
                vstd::arithmetic::div_mod::lemma_fundamental_div_mod(t, 7);
                assert(t / 7 == ds.len() - 1) by {
                    if t / 7 < ds.len() - 1 {
                        assert(7 * (t / 7) + t % 7 < 7 * (ds.len() - 1));
                    }
                }
                assert(t % 7 >= u8_bitlen(v));
                assert(!bit_at(v as nat, (t % 7) * 1));
            }
        }
        vstd::arithmetic::div_mod::lemma_fundamental_div_mod_converse(
            bl - 1,
            7,
            ds.len() - 1,
            u8_bitlen(v) - 1,
        );
        assert(bit_at(v as nat, u8_bitlen(v) - 1));
        assert(digit_bit(ds, bl - 1));
    }
}

/// The digits a projected image carries rebuild exactly the byte stream
/// that was projected into it, provided it fits the pixel budget.
proof fn lemma_projection_bitlen(bs: Seq<u8>, ds: Seq<u8>)
    requires
        1 <= bs.len() <= 1372,
        bs[0] != 0,
        ds.len() == 1568,
        forall|k: int| 0 <= k < 1568 ==> #[trigger] ds[k] == digit_of_bytes(bs, k),
    ensures
        digits_bitlen(ds) == 8 * (bs.len() - 1) + u8_bitlen(bs[0]),
        1 <= u8_bitlen(bs[0]) <= 8,
{
    assert forall|k: int| 0 <= k < ds.len() implies #[trigger] ds[k] < 128 by {
        assert(ds[k] == digit_of_bytes(bs, k));
    }
    let lb = 8 * (bs.len() - 1) + u8_bitlen(bs[0]);
    lemma_u8_bitlen_char(bs[0]);
    crate::alfalfa::lemma_u8_bitlen_bound(bs[0]);
    // No stream bit at or above lb; the bit just below it is set.
    assert forall|t: int| lb <= t implies !be_bytes_bit(bs, #[trigger] (t * 1)) by {
        if t < 8 * bs.len() {
            vstd::arithmetic::div_mod::lemma_fundamental_div_mod(t, 8);
            assert(t / 8 == bs.len() - 1) by {
                if t / 8 < bs.len() - 1 {
                    assert(8 * (t / 8) + t % 8 < 8 * (bs.len() - 1));
                }
            }
            assert(t % 8 >= u8_bitlen(bs[0]));
            assert(!bit_at(bs[0] as nat, (t % 8) * 1));
        }
    }
    assert(be_bytes_bit(bs, lb - 1)) by {
        vstd::arithmetic::div_mod::lemma_fundamental_div_mod_converse(
            lb - 1,
            8,
            bs.len() - 1,
            u8_bitlen(bs[0]) - 1,
        );
        assert(bit_at(bs[0] as nat, u8_bitlen(bs[0]) - 1));
    }
    // digits_bitlen(ds) equals lb.
    lemma_digits_bitlen_char(ds);
    let bl = digits_bitlen(ds);
    assert(bl == lb) by {
        if bl < lb {
            lemma_digits_of_bytes_bit(bs, ds, lb - 1);
            assert(lb - 1 < 7 * 1568);
            assert(digit_bit(ds, (lb - 1) * 1));
            assert(false);
        }
        if bl > lb {
            assert(digit_bit(ds, bl - 1));
            lemma_digits_of_bytes_bit(bs, ds, bl - 1);
            assert(be_bytes_bit(bs, (bl - 1) * 1));
            assert(false);
        }
    }
}

/// The digits a projected image carries rebuild exactly the byte stream
/// that was projected into it, provided it fits the pixel budget.
#[verifier::rlimit(100)]
pub proof fn lemma_projection_digits_roundtrip(bs: Seq<u8>, ds: Seq<u8>)
    requires
        1 <= bs.len() <= 1372,
        bs[0] != 0,
        ds.len() == 1568,
        forall|k: int| 0 <= k < 1568 ==> #[trigger] ds[k] == digit_of_bytes(bs, k),
    ensures
        digits_bitlen(ds) != 0,
        bytes_from_digits(ds) == bs,
{
    lemma_projection_bitlen(bs, ds);
    let bl = digits_bitlen(ds);
    assert(bl != 0);
    // The reconstruction has exactly as many bytes as went in.
    let nb = (bl + 7) / 8;
    assert(nb == bs.len()) by {
        vstd::arithmetic::div_mod::lemma_fundamental_div_mod_converse(
            bl + 7,
            8,
            bs.len() as int,
            u8_bitlen(bs[0]) - 1,
        );
    }
    // Each reconstructed byte matches.
    assert forall|k: int| 0 <= k < bs.len() implies #[trigger] bytes_from_digits(ds)[k]
        == bs[k] by {
        lemma_projection_byte(bs, ds, k, nb);
    }
    assert(bytes_from_digits(ds) =~= bs);
}

/// Each reconstructed byte equals the byte that was projected.
#[verifier::rlimit(100)]
proof fn lemma_projection_byte(bs: Seq<u8>, ds: Seq<u8>, k: int, nb: int)
    requires
        1 <= bs.len() <= 1372,
        nb == bs.len(),
        0 <= k < bs.len(),
        ds.len() == 1568,
        forall|j: int| 0 <= j < 1568 ==> #[trigger] ds[j] == digit_of_bytes(bs, j),
    ensures
        byte_of_digits(ds, nb, k) == bs[k],
{
    let base = 8 * (nb - 1 - k);
    lemma_projection_bit(bs, ds, k, nb, 0);
    lemma_projection_bit(bs, ds, k, nb, 1);
    lemma_projection_bit(bs, ds, k, nb, 2);
    lemma_projection_bit(bs, ds, k, nb, 3);
    lemma_projection_bit(bs, ds, k, nb, 4);
    lemma_projection_bit(bs, ds, k, nb, 5);
    lemma_projection_bit(bs, ds, k, nb, 6);
    lemma_projection_bit(bs, ds, k, nb, 7);
    lemma_u8_from_bits(bs[k]);
}

/// One bit of a reconstructed byte comes from the matching stream bit.
proof fn lemma_projection_bit(bs: Seq<u8>, ds: Seq<u8>, k: int, nb: int, u: int)
    requires
        1 <= bs.len() <= 1372,
        nb == bs.len(),
        0 <= k < bs.len(),
        0 <= u < 8,
        ds.len() == 1568,
        forall|j: int| 0 <= j < 1568 ==> #[trigger] ds[j] == digit_of_bytes(bs, j),
    ensures
        digit_bit(ds, 8 * (nb - 1 - k) + u) == bit_at(bs[k] as nat, u),
{
    let base = 8 * (nb - 1 - k);
    lemma_digits_of_bytes_bit(bs, ds, base + u);
    vstd::arithmetic::div_mod::lemma_fundamental_div_mod_converse(base + u, 8, nb - 1 - k, u);
    assert(be_bytes_bit(bs, base + u) == bit_at(bs[bs.len() - 1 - (base + u) / 8] as nat, u));
}

} // verus!

verus! {

/// A digit extracted from a byte stream is a seven-bit value.
proof fn lemma_digit_of_bytes_small(bs: Seq<u8>, k: int)
    ensures
        digit_of_bytes(bs, k) < 128,
{
}

/// Reading the digits back off a projected image yields the digits that
/// were written.
proof fn lemma_digits_read_back(im1: EarsImage, im0: EarsImage, bs: Seq<u8>, k: int)
    requires
        0 <= k <= 1568,
        alfalfa_pixels().len() == 1568,
        forall|j: int|
            0 <= j < 1568 ==> im1.px(
                (#[trigger] alfalfa_pixels()[j]).0,
                alfalfa_pixels()[j].1,
            ) == projected_px(
                im0.px(alfalfa_pixels()[j].0, alfalfa_pixels()[j].1),
                digit_of_bytes(bs, j),
            ),
    ensures
        digits_of_image(im1, alfalfa_pixels().skip(k)) =~= Seq::new(
            (1568 - k) as nat,
            |j: int| digit_of_bytes(bs, k + j),
        ),
    decreases 1568 - k,
{
    let ps = alfalfa_pixels().skip(k);
    if k == 1568 {
        assert(ps =~= Seq::<(int, int)>::empty());
    } else {
        let d = digit_of_bytes(bs, k);
        lemma_digit_of_bytes_small(bs, k);
        assert(ps[0] == alfalfa_pixels()[k]);
        let p = im1.px(ps[0].0, ps[0].1);
        assert(p == projected_px(im0.px(ps[0].0, ps[0].1), d));
        assert(p.a == 255 - d);
        assert(p.a != 0);
        assert(p.a as int % 128 == 127 - d) by {
            vstd::arithmetic::div_mod::lemma_fundamental_div_mod_converse(
                p.a as int,
                128,
                1,
                127 - d,
            );
        }
        assert((127 - (p.a as int % 128)) as u8 == d);
        assert(ps.drop_first() =~= alfalfa_pixels().skip(k + 1));
        lemma_digits_read_back(im1, im0, bs, k + 1);
        assert(seq![d] + Seq::new((1568 - k - 1) as nat, |j: int| digit_of_bytes(bs, k + 1 + j))
            =~= Seq::new((1568 - k) as nat, |j: int| digit_of_bytes(bs, k + j)));
    }
}

/// Projection round trip: an image that carries a written framed stream of
/// at most 1372 bytes reads back as exactly that stream, which in turn
/// parses back to the record's dictionary.
pub proof fn lemma_alfalfa_image_roundtrip(d: AlfalfaData, im0: EarsImage, im1: EarsImage)
    requires
        d.wf(),
        d.version_spec() == 1,
        forall|i: int| 0 <= i < d.entries().len() ==> key_storable((#[trigger] d.entries()[i]).0),
        framed_bytes(d).len() <= 1372,
        im1.width_spec() == 64,
        im1.height_spec() == 64,
        forall|j: int|
            0 <= j < 1568 ==> im1.px(
                (#[trigger] alfalfa_pixels()[j]).0,
                alfalfa_pixels()[j].1,
            ) == projected_px(
                im0.px(alfalfa_pixels()[j].0, alfalfa_pixels()[j].1),
                digit_of_bytes(framed_bytes(d), j),
            ),
    ensures
        ({
            let ds = digits_of_image(im1, alfalfa_pixels());
            &&& digits_bitlen(ds) != 0
            &&& bytes_from_digits(ds) == framed_bytes(d)
            &&& parse_entries(bytes_from_digits(ds), 5) == Some(d.entries())
            &&& bytes_from_digits(ds).take(4) == magic_bytes()
            &&& bytes_from_digits(ds)[4] == 1
            &&& entries_map(d.entries()) == d.map_view()
        }),
{
    let bs = framed_bytes(d);
    lemma_alfalfa_framing_roundtrip(d);
    assert(bs == stream_wire(1, d.entries()));
    assert(bs[0] == 0xEA) by {
        assert(magic_bytes()[0] == 0xEA);
    }
    assert(bs.len() >= 5);
    lemma_alfalfa_pixels_facts();
    lemma_digits_read_back(im1, im0, bs, 0);
    let ds = digits_of_image(im1, alfalfa_pixels());
    assert(alfalfa_pixels().skip(0) =~= alfalfa_pixels());
    assert(ds =~= Seq::new(1568, |j: int| digit_of_bytes(bs, j)));
    lemma_projection_digits_roundtrip(bs, ds);
}

} // verus!
