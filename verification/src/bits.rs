//! Fixed-length MSB-first bit reader and bit writer over byte buffers,
//! together with the bit-sequence model that the codec contracts use.

use vstd::prelude::*;
use crate::errors::EarsError;

verus! {

use vstd::arithmetic::power2::pow2;

/// Bit `k` of the value `v`, counting from the least significant bit.
pub open spec fn bit_at(v: nat, k: int) -> bool {
    (v / pow2(k as nat)) % 2 == 1
}

/// The bits of a byte sequence, each byte most significant bit first.
pub open spec fn bytes_bits(s: Seq<u8>) -> Seq<bool> {
    Seq::new(8 * s.len(), |i: int| bit_at(s[i / 8] as nat, 7 - (i % 8)))
}

/// The low `n` bits of `v`, most significant first.
pub open spec fn val_bits(v: nat, n: int) -> Seq<bool> {
    Seq::new(n as nat, |i: int| bit_at(v, n - 1 - i))
}

/// Value of a bit sequence read most significant bit first.
pub open spec fn bits_value(s: Seq<bool>) -> nat
    decreases s.len(),
{
    if s.len() == 0 {
        0
    } else {
        2 * bits_value(s.drop_last()) + (if s.last() {
            1nat
        } else {
            0nat
        })
    }
}

/// A sequence of `n` zero bits.
pub open spec fn zero_bits(n: int) -> Seq<bool> {
    Seq::new(n as nat, |i: int| false)
}

pub proof fn lemma_pow2_le(e1: nat, e2: nat)
    requires
        e1 <= e2,
    ensures
        pow2(e1) <= pow2(e2),
{
    if e1 < e2 {
        vstd::arithmetic::power2::lemma_pow2_strictly_increases(e1, e2);
    }
}

pub proof fn lemma_bits_value_push(s: Seq<bool>, b: bool)
    ensures
        bits_value(s.push(b)) == 2 * bits_value(s) + (if b {
            1nat
        } else {
            0nat
        }),
{
    assert(s.push(b).drop_last() =~= s);
    assert(s.push(b).last() == b);
}

pub proof fn lemma_bits_value_bound(s: Seq<bool>)
    ensures
        bits_value(s) < pow2(s.len()),
    decreases s.len(),
{
    vstd::arithmetic::power2::lemma_pow2_pos(s.len());
    if s.len() == 0 {
    } else {
        lemma_bits_value_bound(s.drop_last());
        vstd::arithmetic::power2::lemma_pow2_unfold(s.len());
    }
}

pub proof fn lemma_val_bits_value(v: nat, n: int)
    requires
        0 <= n,
        v < pow2(n as nat),
    ensures
        bits_value(val_bits(v, n)) == v,
    decreases n,
{
    if n == 0 {
        assert(pow2(0) == 1) by {
            vstd::arithmetic::power2::lemma2_to64();
        }
        assert(val_bits(v, 0) =~= Seq::<bool>::empty());
    } else {
        vstd::arithmetic::power2::lemma_pow2_unfold(n as nat);
        assert(v / 2 < pow2((n - 1) as nat)) by {
            assert(pow2(n as nat) == 2 * pow2((n - 1) as nat));
        }
        assert(val_bits(v, n).drop_last() =~= val_bits(v / 2, n - 1)) by {
            assert forall|i: int| 0 <= i < n - 1 implies val_bits(v, n)[i] == val_bits(
                v / 2,
                n - 1,
            )[i] by {
                lemma_bit_at_half(v, n - 1 - i - 1);
            }
        }
        lemma_val_bits_value(v / 2, n - 1);
        assert(val_bits(v, n).last() == bit_at(v, 0));
        assert(pow2(0) == 1) by {
            vstd::arithmetic::power2::lemma2_to64();
        }
        assert(v as int / 1 == v as int);
        assert(bit_at(v, 0) == (v % 2 == 1));
        lemma_bits_value_push(val_bits(v / 2, n - 1), bit_at(v, 0));
        assert(val_bits(v, n) =~= val_bits(v / 2, n - 1).push(bit_at(v, 0)));
    }
}

/// Bit `k + 1` of `v` is bit `k` of `v / 2`.
proof fn lemma_bit_at_half(v: nat, k: int)
    requires
        0 <= k,
    ensures
        bit_at(v, k + 1) == bit_at(v / 2, k),
{
    vstd::arithmetic::power2::lemma_pow2_unfold((k + 1) as nat);
    vstd::arithmetic::power2::lemma_pow2_pos(k as nat);
    vstd::arithmetic::div_mod::lemma_div_denominator(v as int, 2, pow2(k as nat) as int);
    assert(v as int / (2 * pow2(k as nat)) as int == (v as int / 2) / pow2(k as nat) as int);
    assert(pow2((k + 1) as nat) == 2 * pow2(k as nat));
}

/// `bit_at` on a `u8`, phrased with the executable shift-and-mask form.
pub proof fn lemma_u8_bit_at(x: u8, k: u8)
    requires
        k < 8,
    ensures
        bit_at(x as nat, k as int) == ((x >> k) & 1 == 1),
{
    broadcast use vstd::bits::lemma_u8_shr_is_div;

    assert((x >> k) & 1 == (x >> k) % 2) by (bit_vector);
    assert(bit_at(x as nat, k as int) == ((x as nat / pow2(k as nat)) % 2 == 1));
}

/// `bit_at` on a `u64`, phrased with the executable shift-and-mask form.
pub proof fn lemma_u64_bit_at(x: u64, k: u64)
    requires
        k < 64,
    ensures
        bit_at(x as nat, k as int) == ((x >> k) & 1 == 1),
{
    broadcast use vstd::bits::lemma_u64_shr_is_div;

    assert((x >> k) & 1 == (x >> k) % 2) by (bit_vector);
}

pub proof fn lemma_bytes_bits_push(s: Seq<u8>, b: u8)
    ensures
        bytes_bits(s.push(b)) =~= bytes_bits(s) + val_bits(b as nat, 8),
{
    let lhs = bytes_bits(s.push(b));
    let rhs = bytes_bits(s) + val_bits(b as nat, 8);
    assert forall|i: int| 0 <= i < lhs.len() implies lhs[i] == rhs[i] by {
        if i < 8 * s.len() {
            assert(i / 8 < s.len()) by {
                vstd::arithmetic::div_mod::lemma_fundamental_div_mod(i, 8);
            }
            assert(s.push(b)[i / 8] == s[i / 8]);
        } else {
            let j = i - 8 * s.len();
            assert(i == 8 * s.len() + j && 0 <= j < 8);
            vstd::arithmetic::div_mod::lemma_fundamental_div_mod_converse(
                i,
                8,
                s.len() as int,
                j,
            );
            assert(s.push(b)[i / 8] == b);
        }
    }
}

pub proof fn lemma_bytes_bits_concat(a: Seq<u8>, b: Seq<u8>)
    ensures
        bytes_bits(a + b) =~= bytes_bits(a) + bytes_bits(b),
{
    let lhs = bytes_bits(a + b);
    let rhs = bytes_bits(a) + bytes_bits(b);
    assert forall|i: int| 0 <= i < lhs.len() implies lhs[i] == rhs[i] by {
        vstd::arithmetic::div_mod::lemma_fundamental_div_mod(i, 8);
        if i < 8 * a.len() {
            assert(i / 8 < a.len());
            assert((a + b)[i / 8] == a[i / 8]);
        } else {
            let j = i - 8 * a.len();
            vstd::arithmetic::div_mod::lemma_fundamental_div_mod_converse(
                i,
                8,
                a.len() + j / 8,
                j % 8,
            );
            vstd::arithmetic::div_mod::lemma_fundamental_div_mod(j, 8);
            assert((a + b)[i / 8] == b[j / 8]);
        }
    }
}

/// Bit `k` of a zero byte is clear, so all-zero bytes expand to all-zero
/// bits.
pub proof fn lemma_zero_byte_bits(n: int)
    requires
        0 <= n,
    ensures
        bytes_bits(Seq::new(n as nat, |i: int| 0u8)) =~= zero_bits(8 * n),
{
    let zb = Seq::new(n as nat, |i: int| 0u8);
    assert forall|i: int| 0 <= i < 8 * n implies bytes_bits(zb)[i] == zero_bits(8 * n)[i] by {
        vstd::arithmetic::div_mod::lemma_fundamental_div_mod(i, 8);
        assert(zb[i / 8] == 0u8);
        vstd::arithmetic::power2::lemma_pow2_pos((7 - (i % 8)) as nat);
        assert(0nat / pow2((7 - (i % 8)) as nat) == 0);
    }
}

pub proof fn lemma_concat_subrange(a: Seq<bool>, c: Seq<bool>, b: Seq<bool>)
    ensures
        (a + c + b).subrange(a.len() as int, a.len() + c.len() as int) =~= c,
{
}

/// MSB-first bit reader over a byte slice. `pos()` counts consumed bits;
/// `available()` mirrors the byte-granular accounting of the wire format:
/// a byte counts as consumed as soon as any of its bits has been read.
pub struct BitReader<'a> {
    bytes: &'a [u8],
    byte_pos: usize,
    bit: u8,
}

impl<'a> BitReader<'a> {
    pub closed spec fn data(self) -> Seq<u8> {
        self.bytes@
    }

    pub open spec fn bits(self) -> Seq<bool> {
        bytes_bits(self.data())
    }

    pub closed spec fn pos(self) -> int {
        8 * self.byte_pos + self.bit as int
    }

    pub closed spec fn wf(self) -> bool {
        &&& self.byte_pos <= self.bytes@.len()
        &&& self.bit < 8
        &&& (self.bit != 0 ==> self.byte_pos < self.bytes@.len())
    }

    pub fn new(bytes: &'a [u8]) -> (r: BitReader<'a>)
        ensures
            r.wf(),
            r.data() == bytes@,
            r.pos() == 0,
    {
        BitReader { bytes, byte_pos: 0, bit: 0 }
    }

    /// Number of whole bytes not yet touched by any bit read.
    pub fn available(&self) -> (r: usize)
        requires
            self.wf(),
        ensures
            r == self.data().len() - (self.pos() + 7) / 8,
    {
        proof {
            vstd::arithmetic::div_mod::lemma_fundamental_div_mod_converse(
                self.pos() + 7,
                8,
                self.byte_pos as int + (if self.bit != 0 {
                    1int
                } else {
                    0int
                }),
                if self.bit != 0 {
                    self.bit as int - 1
                } else {
                    7int
                },
            );
        }
        if self.bit != 0 {
            self.bytes.len() - self.byte_pos - 1
        } else {
            self.bytes.len() - self.byte_pos
        }
    }

    pub fn read_bit(&mut self) -> (r: Result<u8, EarsError>)
        requires
            old(self).wf(),
        ensures
            final(self).wf(),
            final(self).data() == old(self).data(),
            old(self).pos() < 8 * old(self).data().len() ==> {
                &&& r matches Ok(b)
                &&& b == (if old(self).bits()[old(self).pos()] {
                    1u8
                } else {
                    0u8
                })
                &&& final(self).pos() == old(self).pos() + 1
            },
            old(self).pos() >= 8 * old(self).data().len() ==> {
                &&& r matches Err(e) && e == EarsError::TruncatedBitStream
                &&& *final(self) == *old(self)
            },
    {
        if self.byte_pos >= self.bytes.len() {
            return Err(EarsError::TruncatedBitStream);
        }
        let byte: u8 = self.bytes[self.byte_pos];
        let shift: u8 = 7 - self.bit;
        let b: u8 = (byte >> shift) & 1;
        proof {
            lemma_u8_bit_at(byte, shift);
            assert((byte >> shift) & 1 == 1 || (byte >> shift) & 1 == 0) by (bit_vector);
            let p = self.pos();
            vstd::arithmetic::div_mod::lemma_fundamental_div_mod_converse(
                p,
                8,
                self.byte_pos as int,
                self.bit as int,
            );
            assert(self.bits()[p] == bit_at(self.data()[p / 8] as nat, 7 - (p % 8)));
        }
        if self.bit == 7 {
            self.bit = 0;
            self.byte_pos = self.byte_pos + 1;
        } else {
            self.bit = self.bit + 1;
        }
        Ok(b)
    }

    pub fn read_bool(&mut self) -> (r: Result<bool, EarsError>)
        requires
            old(self).wf(),
        ensures
            final(self).wf(),
            final(self).data() == old(self).data(),
            old(self).pos() < 8 * old(self).data().len() ==> {
                &&& r matches Ok(b)
                &&& b == old(self).bits()[old(self).pos()]
                &&& final(self).pos() == old(self).pos() + 1
            },
            old(self).pos() >= 8 * old(self).data().len() ==> {
                &&& r matches Err(e) && e == EarsError::TruncatedBitStream
                &&& *final(self) == *old(self)
            },
    {
        match self.read_bit() {
            Ok(b) => Ok(b == 1),
            Err(e) => Err(e),
        }
    }

    /// Reads `bits` bits (at most 64) MSB first. A width of zero reads
    /// nothing and returns zero.
    pub fn read_long(&mut self, bits: u8) -> (r: Result<u64, EarsError>)
        requires
            old(self).wf(),
        ensures
            final(self).wf(),
            final(self).data() == old(self).data(),
            bits > 64 ==> {
                &&& r matches Err(e)
                &&& e == EarsError::NotEnoughSpaceInLongForBitsError(bits)
                &&& *final(self) == *old(self)
            },
            bits <= 64 && old(self).pos() + bits <= 8 * old(self).data().len() ==> {
                &&& r matches Ok(v)
                &&& v == bits_value(
                    old(self).bits().subrange(old(self).pos(), old(self).pos() + bits),
                )
                &&& v < pow2(bits as nat)
                &&& final(self).pos() == old(self).pos() + bits
            },
            bits <= 64 && old(self).pos() + bits > 8 * old(self).data().len() ==> {
                &&& r matches Err(e) && e == EarsError::TruncatedBitStream
                &&& final(self).pos() == 8 * final(self).data().len()
            },
    {
        if bits == 0 {
            proof {
                let s = old(self).bits().subrange(old(self).pos(), old(self).pos());
                assert(s =~= Seq::<bool>::empty());
                vstd::arithmetic::power2::lemma_pow2_pos(0);
            }
            return Ok(0u64);
        }
        if bits > 64 {
            return Err(EarsError::NotEnoughSpaceInLongForBitsError(bits));
        }
        let mut result: u64 = 0;
        let mut i: u8 = 0;
        let ghost start = self.pos();
        proof {
            vstd::arithmetic::power2::lemma_pow2_pos(0);
            assert(old(self).bits().subrange(start, start) =~= Seq::<bool>::empty());
        }
        while i < bits
            invariant
                self.wf(),
                self.data() == old(self).data(),
                0 <= i <= bits,
                bits <= 64,
                start == old(self).pos(),
                self.pos() == start + i,
                self.pos() <= 8 * self.data().len(),
                result == bits_value(self.bits().subrange(start, start + i)),
                result < pow2(i as nat),
            decreases bits - i,
        {
            let b = match self.read_bit() {
                Ok(b) => b,
                Err(e) => {
                    return Err(e);
                },
            };
            proof {
                let s = self.bits().subrange(start, start + i);
                let s2 = self.bits().subrange(start, start + i + 1);
                assert(s2 =~= s.push(self.bits()[start + i as int]));
                lemma_bits_value_push(s, self.bits()[start + i as int]);
                assert(result < pow2(i as nat));
                assert(pow2((i + 1) as nat) == 2 * pow2(i as nat)) by {
                    vstd::arithmetic::power2::lemma_pow2_unfold((i + 1) as nat);
                }
                assert(result < 0x8000_0000_0000_0000) by {
                    assert(pow2(63) == 0x8000_0000_0000_0000) by {
                        vstd::arithmetic::power2::lemma2_to64_rest();
                    }
                    if i as nat <= 63 {
                        lemma_pow2_le(i as nat, 63);
                    }
                }
            }
            let r0: u64 = result;
            result = (result << 1u64) | (b as u64);
            proof {
                assert(b == 0 || b == 1);
                assert(r0 < 0x8000_0000_0000_0000 && (b == 0 || b == 1) ==> (r0 << 1u64) | (
                b as u64) == 2 * r0 + b) by (bit_vector);
            }
            i = i + 1;
        }
        proof {
            lemma_bits_value_bound(self.bits().subrange(start, start + bits));
        }
        Ok(result)
    }

    /// Reads `bits` bits (at most 32) MSB first.
    pub fn read(&mut self, bits: u8) -> (r: Result<u32, EarsError>)
        requires
            old(self).wf(),
        ensures
            final(self).wf(),
            final(self).data() == old(self).data(),
            bits > 32 ==> {
                &&& r matches Err(e)
                &&& e == EarsError::NotEnoughSpaceInIntForBitsError(bits)
                &&& *final(self) == *old(self)
            },
            bits <= 32 && old(self).pos() + bits <= 8 * old(self).data().len() ==> {
                &&& r matches Ok(v)
                &&& v == bits_value(
                    old(self).bits().subrange(old(self).pos(), old(self).pos() + bits),
                )
                &&& v < pow2(bits as nat)
                &&& final(self).pos() == old(self).pos() + bits
            },
            bits <= 32 && old(self).pos() + bits > 8 * old(self).data().len() ==> {
                &&& r matches Err(e) && e == EarsError::TruncatedBitStream
                &&& final(self).pos() == 8 * final(self).data().len()
            },
    {
        if bits > 32 {
            return Err(EarsError::NotEnoughSpaceInIntForBitsError(bits));
        }
        match self.read_long(bits) {
            Ok(v) => {
                proof {
                    if old(self).pos() + bits <= 8 * old(self).data().len() {
                        assert(pow2(bits as nat) <= pow2(32)) by {
                            lemma_pow2_le(bits as nat, 32);
                        }
                        assert(pow2(32) == 0x1_0000_0000) by {
                            vstd::arithmetic::power2::lemma2_to64();
                        }
                    }
                }
                Ok(v as u32)
            },
            Err(e) => Err(e),
        }
    }

    pub fn read_byte(&mut self) -> (r: Result<u8, EarsError>)
        requires
            old(self).wf(),
        ensures
            final(self).wf(),
            final(self).data() == old(self).data(),
            old(self).pos() + 8 <= 8 * old(self).data().len() ==> {
                &&& r matches Ok(v)
                &&& v == bits_value(old(self).bits().subrange(old(self).pos(), old(self).pos() + 8))
                &&& final(self).pos() == old(self).pos() + 8
            },
            old(self).pos() + 8 > 8 * old(self).data().len() ==> {
                &&& r matches Err(e) && e == EarsError::TruncatedBitStream
                &&& final(self).pos() == 8 * final(self).data().len()
            },
    {
        match self.read_long(8) {
            Ok(v) => {
                proof {
                    if old(self).pos() + 8 <= 8 * old(self).data().len() {
                        assert(pow2(8) == 256) by {
                            vstd::arithmetic::power2::lemma2_to64();
                        }
                    }
                }
                Ok(v as u8)
            },
            Err(e) => Err(e),
        }
    }

    /// Advances the read cursor to the start of the next byte. Does nothing
    /// when the cursor already sits on a byte boundary.
    pub fn align(&mut self)
        requires
            old(self).wf(),
        ensures
            final(self).wf(),
            final(self).data() == old(self).data(),
            final(self).pos() == ((old(self).pos() + 7) / 8) * 8,
    {
        proof {
            vstd::arithmetic::div_mod::lemma_fundamental_div_mod_converse(
                old(self).pos() + 7,
                8,
                self.byte_pos as int + (if self.bit != 0 {
                    1int
                } else {
                    0int
                }),
                if self.bit != 0 {
                    self.bit as int - 1
                } else {
                    7int
                },
            );
        }
        if self.bit != 0 {
            let n: usize = self.bytes.len();
            assert(self.byte_pos < n);
            self.byte_pos = self.byte_pos + 1;
            self.bit = 0;
        }
    }
}

/// MSB-first bit writer producing a byte vector; a final `align` pads the
/// last byte with zero bits.
pub struct BitWriter {
    buf: Vec<u8>,
    cur: u8,
    nbits: u8,
}

impl BitWriter {
    /// Every bit written so far, in order.
    pub closed spec fn bits(self) -> Seq<bool> {
        bytes_bits(self.buf@) + val_bits(self.cur as nat, self.nbits as int)
    }

    pub closed spec fn wf(self) -> bool {
        self.nbits < 8
    }

    pub open spec fn aligned(self) -> bool {
        self.bits().len() % 8 == 0
    }

    pub fn new() -> (r: BitWriter)
        ensures
            r.wf(),
            r.bits() == Seq::<bool>::empty(),
    {
        let w = BitWriter { buf: Vec::new(), cur: 0, nbits: 0 };
        proof {
            assert(w.bits() =~= Seq::<bool>::empty());
        }
        w
    }

    pub fn write_bit(&mut self, bit: u8)
        requires
            old(self).wf(),
        ensures
            final(self).wf(),
            final(self).bits() =~= old(self).bits().push(bit & 1 == 1),
    {
        let b: u8 = bit & 1;
        proof {
            assert(bit & 1 == 0 || bit & 1 == 1) by (bit_vector);
        }
        let cur0: u8 = self.cur;
        let n0: u8 = self.nbits;
        self.cur = (self.cur << 1u8) | b;
        self.nbits = self.nbits + 1;
        proof {
            lemma_val_bits_shift_in(cur0, b, n0 as int);
        }
        if self.nbits == 8 {
            let ghost buf0 = self.buf@;
            let full: u8 = self.cur;
            self.buf.push(full);
            self.cur = 0;
            self.nbits = 0;
            proof {
                lemma_bytes_bits_push(buf0, full);
                assert(val_bits(0 as nat, 0) =~= Seq::<bool>::empty());
                assert(self.bits() =~= bytes_bits(buf0) + val_bits(full as nat, 8));
            }
        }
    }

    pub fn write_bool(&mut self, value: bool)
        requires
            old(self).wf(),
        ensures
            final(self).wf(),
            final(self).bits() =~= old(self).bits().push(value),
    {
        proof {
            assert((1u8 & 1 == 1) == true) by (bit_vector);
            assert((0u8 & 1 == 1) == false) by (bit_vector);
        }
        if value {
            self.write_bit(1);
        } else {
            self.write_bit(0);
        }
    }

    /// Writes the low `bits` bits of `value`, most significant first.
    /// The width must lie in `1..64`.
    pub fn write_long(&mut self, bits: u8, value: u64) -> (r: Result<(), EarsError>)
        requires
            old(self).wf(),
        ensures
            final(self).wf(),
            !(1 <= bits < 64) ==> {
                &&& r matches Err(e)
                &&& e == EarsError::NotEnoughSpaceInLongForBitsError(bits)
                &&& *final(self) == *old(self)
            },
            1 <= bits < 64 ==> {
                &&& r matches Ok(u)
                &&& final(self).bits() =~= old(self).bits() + val_bits(value as nat, bits as int)
            },
    {
        if bits < 1 || bits >= 64 {
            return Err(EarsError::NotEnoughSpaceInLongForBitsError(bits));
        }
        let mut i: u8 = bits;
        while i > 0
            invariant
                self.wf(),
                0 <= i <= bits,
                bits < 64,
                self.bits() =~= old(self).bits() + val_bits(value as nat, bits as int).take(
                    bits - i,
                ),
            decreases i,
        {
            i = i - 1;
            let b: u8 = ((value >> (i as u64)) & 1) as u8;
            let ghost before = self.bits();
            self.write_bit(b);
            proof {
                lemma_u64_bit_at(value, i as u64);
                assert((value >> (i as u64)) & 1 == 1 <==> ((value >> (i as u64)) & 1) as u8 & 1
                    == 1) by (bit_vector);
                let vb = val_bits(value as nat, bits as int);
                assert(vb[bits - 1 - i] == bit_at(value as nat, i as int));
                assert(vb.take(bits - i) =~= vb.take(bits - i - 1).push(vb[bits - 1 - i]));
            }
        }
        proof {
            let vb = val_bits(value as nat, bits as int);
            assert(vb.take(bits as int) =~= vb);
        }
        Ok(())
    }

    /// Writes the low byte of `value`.
    pub fn write(&mut self, value: u32)
        requires
            old(self).wf(),
        ensures
            final(self).wf(),
            final(self).bits() =~= old(self).bits() + val_bits((value & 0xFF) as nat, 8),
    {
        let byte: u8 = (value & 0xFF) as u8;
        proof {
            assert(value & 0xFF < 256) by (bit_vector);
        }
        self.write_byte(byte);
        proof {
            assert(((value & 0xFF) as u8) as nat == (value & 0xFF) as nat);
        }
    }

    pub fn write_byte(&mut self, value: u8)
        requires
            old(self).wf(),
        ensures
            final(self).wf(),
            final(self).bits() =~= old(self).bits() + val_bits(value as nat, 8),
    {
        let mut i: u8 = 8;
        while i > 0
            invariant
                self.wf(),
                0 <= i <= 8,
                self.bits() =~= old(self).bits() + val_bits(value as nat, 8).take(8 - i),
            decreases i,
        {
            i = i - 1;
            let b: u8 = (value >> i) & 1;
            self.write_bit(b);
            proof {
                lemma_u8_bit_at(value, i);
                assert((value >> i) & 1 == 1 <==> ((value >> i) & 1) & 1 == 1) by (bit_vector);
                let vb = val_bits(value as nat, 8);
                assert(vb[8 - 1 - i] == bit_at(value as nat, i as int));
                assert(vb.take(8 - i) =~= vb.take(8 - i - 1).push(vb[8 - 1 - i]));
            }
        }
        proof {
            let vb = val_bits(value as nat, 8);
            assert(vb.take(8) =~= vb);
        }
    }

    /// Pads with zero bits to the next byte boundary.
    pub fn align(&mut self)
        requires
            old(self).wf(),
        ensures
            final(self).wf(),
            final(self).aligned(),
            final(self).nbits_zero(),
            final(self).bits() =~= old(self).bits() + zero_bits(
                ((old(self).bits().len() + 7) / 8) * 8 - old(self).bits().len(),
            ),
            final(self).bits().len() == ((old(self).bits().len() + 7) / 8) * 8,
    {
        let ghost target = ((old(self).bits().len() + 7) / 8) * 8;
        if self.nbits == 0 {
            proof {
                vstd::arithmetic::div_mod::lemma_fundamental_div_mod_converse(
                    old(self).bits().len() as int + 7,
                    8,
                    old(self).buf@.len() as int,
                    7,
                );
                assert(self.bits() =~= old(self).bits() + zero_bits(0));
            }
            return ;
        }
        let pad: u8 = 8 - self.nbits;
        proof {
            vstd::arithmetic::div_mod::lemma_fundamental_div_mod_converse(
                old(self).bits().len() as int + 7,
                8,
                old(self).buf@.len() as int + 1,
                old(self).nbits as int - 1,
            );
            assert(target == old(self).bits().len() + pad);
        }
        let mut k: u8 = 0;
        while k < pad
            invariant
                self.wf(),
                k <= pad,
                pad < 8,
                target == old(self).bits().len() + pad,
                self.bits() =~= old(self).bits() + zero_bits(k as int),
                k < pad ==> self.nbits as int == 8 - pad + k,
                k == pad ==> self.nbits == 0,
            decreases pad - k,
        {
            let ghost before = self.bits();
            self.write_bit(0);
            proof {
                assert((0u8 & 1 == 1) == false) by (bit_vector);
                assert(self.bits() =~= before.push(false));
                assert(self.bits() =~= old(self).bits() + zero_bits(k + 1));
            }
            k = k + 1;
        }
        proof {
            vstd::arithmetic::div_mod::lemma_fundamental_div_mod_converse(
                self.bits().len() as int,
                8,
                self.bits().len() as int / 8,
                0,
            );
        }
    }

    /// Hands out the accumulated bytes. The writer must be aligned.
    pub fn into_bytes(self) -> (r: Vec<u8>)
        requires
            self.wf(),
            self.nbits_zero(),
        ensures
            bytes_bits(r@) == self.bits(),
            8 * r@.len() == self.bits().len(),
    {
        proof {
            assert(val_bits(self.cur as nat, 0) =~= Seq::<bool>::empty());
            assert(self.bits() =~= bytes_bits(self.buf@));
        }
        self.buf
    }

    /// True when no partial byte is pending.
    pub closed spec fn nbits_zero(self) -> bool {
        self.nbits == 0
    }
}

/// Appending one bit to the low end of an accumulator extends its
/// MSB-first bit image by that bit.
proof fn lemma_val_bits_shift_in(cur: u8, b: u8, n: int)
    requires
        0 <= n < 8,
        b == 0 || b == 1,
    ensures
        val_bits((((cur << 1u8) | b)) as nat, n + 1) =~= val_bits(cur as nat, n).push(b == 1),
{
    let cur2 = (cur << 1u8) | b;
    assert forall|i: int| 0 <= i < n + 1 implies #[trigger] val_bits(cur2 as nat, n + 1)[i]
        == val_bits(cur as nat, n).push(b == 1)[i] by {
        let k = n - i;
        if i < n {
            lemma_u8_bit_at(cur2, k as u8);
            lemma_u8_bit_at(cur, (k - 1) as u8);
            let kk = k as u8;
            assert(1 <= kk < 8 && (b == 0 || b == 1) ==> ((((cur << 1u8) | b) >> kk) & 1 == (cur
                >> (kk - 1) as u8) & 1)) by (bit_vector);
        } else {
            lemma_u8_bit_at(cur2, 0);
            assert((b == 0 || b == 1) ==> ((((cur << 1u8) | b) >> 0u8) & 1 == b)) by (bit_vector);
        }
    }
}

} // verus!
