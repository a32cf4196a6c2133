//! Wire-format primitives: unsigned and zigzag varints, big-endian
//! fixed-width integers, UUIDs, compact strings and compact arrays.

use vstd::prelude::*;

verus! {

/// Why a decode failed.
#[derive(Clone, Copy, Debug, PartialEq, Eq, Structural)]
pub enum DecodeError {
    /// The input ended before the field was complete.
    UnexpectedEnd,
    /// A varint did not fit in 64 bits (or ran past ten bytes).
    Overflow,
}

/// The unsigned-varint encoding of `v`: little-endian base-128 groups,
/// the most significant bit of each byte set while more groups follow.
pub open spec fn uvarint_bytes(v: nat) -> Seq<u8>
    decreases v,
{
    if v < 128 {
        seq![v as u8]
    } else {
        seq![((v % 128) + 128) as u8] + uvarint_bytes(v / 128)
    }
}

/// Mathematical parse of an unsigned varint at the head of `data`:
/// the value (unbounded) and the number of bytes consumed.
pub open spec fn uvarint_parse(data: Seq<u8>) -> Option<(nat, int)>
    decreases data.len(),
{
    if data.len() == 0 {
        None
    } else if data[0] < 128 {
        Some((data[0] as nat, 1))
    } else {
        match uvarint_parse(data.skip(1)) {
            Some(p) => Some(((data[0] - 128) as nat + 128 * p.0, p.1 + 1)),
            None => None,
        }
    }
}

/// An unsigned varint as the machine reads it: at most ten bytes and a
/// value below 2^64; anything longer or larger is rejected.
pub open spec fn uvarint64_parse(data: Seq<u8>) -> Option<(nat, int)> {
    match uvarint_parse(data) {
        Some(p) => if p.1 <= 10 && p.0 < 0x1_0000_0000_0000_0000 {
            Some(p)
        } else {
            None
        },
        None => None,
    }
}

/// Zigzag mapping from signed to unsigned: non-negative `n` goes to `2n`,
/// negative `n` to `-2n - 1`.
pub open spec fn zigzag(n: int) -> nat {
    if n >= 0 {
        (2 * n) as nat
    } else {
        (-2 * n - 1) as nat
    }
}

/// Inverse of the zigzag mapping.
pub open spec fn unzigzag(u: nat) -> int {
    if u % 2 == 0 {
        (u / 2) as int
    } else {
        -(((u + 1) / 2) as int)
    }
}

/// The signed (zigzag) varint encoding of `n`.
pub open spec fn varint_bytes(n: int) -> Seq<u8> {
    uvarint_bytes(zigzag(n))
}

/// Parse of a signed (zigzag) varint, under the same 64-bit bound as
/// `uvarint64_parse`.
pub open spec fn varint64_parse(data: Seq<u8>) -> Option<(int, int)> {
    match uvarint64_parse(data) {
        Some(p) => Some((unzigzag(p.0), p.1)),
        None => None,
    }
}

/// The zigzag mapping and its inverse cancel in both directions.
pub proof fn lemma_zigzag_round_trip(n: int, u: nat)
    ensures
        unzigzag(zigzag(n)) == n,
        zigzag(unzigzag(u)) == u,
{
}

/// Zigzag-encode a signed 64-bit integer.
pub fn zigzag_encode(n: i64) -> (r: u64)
    ensures
        r as nat == zigzag(n as int),
{
    if n >= 0 {
        (n as u64) * 2
    } else {
        (-(n + 1) as u64) * 2 + 1
    }
}

/// Zigzag-decode back to a signed 64-bit integer.
pub fn zigzag_decode(u: u64) -> (r: i64)
    ensures
        r as int == unzigzag(u as nat),
{
    if u % 2 == 0 {
        (u / 2) as i64
    } else {
        -(((u - 1) / 2) as i64) - 1
    }
}

/// 128 to the power `n`: the weight of the `n`-th base-128 varint group.
pub open spec fn pow128(n: nat) -> nat
    decreases n,
{
    if n == 0 {
        1
    } else {
        128 * pow128((n - 1) as nat)
    }
}

/// 256 to the power `n`: the weight of the `n`-th byte from the low end.
pub open spec fn pow256(n: nat) -> nat
    decreases n,
{
    if n == 0 {
        1
    } else {
        256 * pow256((n - 1) as nat)
    }
}

/// The unsigned value of a big-endian byte string.
pub open spec fn be_value(s: Seq<u8>) -> nat
    decreases s.len(),
{
    if s.len() == 0 {
        0
    } else {
        (256 * be_value(s.drop_last()) + s.last()) as nat
    }
}

/// The `len`-byte big-endian encoding of `v % 256^len`.
pub open spec fn be_bytes(v: nat, len: nat) -> Seq<u8>
    decreases len,
{
    if len == 0 {
        Seq::empty()
    } else {
        be_bytes(v / 256, (len - 1) as nat).push((v % 256) as u8)
    }
}

/// A big-endian byte string of length `n` holds a value below `256^n`.
pub proof fn lemma_be_value_bound(s: Seq<u8>)
    ensures
        be_value(s) < pow256(s.len()),
    decreases s.len(),
{
    if s.len() > 0 {
        lemma_be_value_bound(s.drop_last());
    }
}

/// Encoding `v` on `len` bytes and reading it back returns `v`, whenever
/// `v` fits.
pub proof fn lemma_be_round_trip(v: nat, len: nat)
    ensures
        be_bytes(v, len).len() == len,
        v < pow256(len) ==> be_value(be_bytes(v, len)) == v,
    decreases len,
{
    if len > 0 {
        lemma_be_round_trip(v / 256, (len - 1) as nat);
        let s = be_bytes(v, len);
        assert(s.drop_last() =~= be_bytes(v / 256, (len - 1) as nat));
    }
}

/// The two's-complement reading of an unsigned value against a modulus.
pub open spec fn twos_complement(u: nat, modulus: nat) -> int {
    if 2 * u < modulus {
        u as int
    } else {
        u - modulus
    }
}

/// The unsigned `2^16` representative of a signed 16-bit value.
pub open spec fn u16_repr(v: i16) -> nat {
    if v >= 0 {
        v as nat
    } else {
        (v + 0x10000) as nat
    }
}

/// The unsigned `2^32` representative of a signed 32-bit value.
pub open spec fn u32_repr(v: i32) -> nat {
    if v >= 0 {
        v as nat
    } else {
        (v + 0x1_0000_0000) as nat
    }
}

/// The unsigned `2^64` representative of a signed 64-bit value.
pub open spec fn u64_repr(v: i64) -> nat {
    if v >= 0 {
        v as nat
    } else {
        (v + 0x1_0000_0000_0000_0000) as nat
    }
}

/// A read-only scan over a byte buffer: the bytes and the next position.
pub struct Cursor {
    pub data: Vec<u8>,
    pub pos: usize,
}

impl Cursor {
    /// The bytes not yet consumed.
    pub open spec fn rest(self) -> Seq<u8> {
        if self.pos <= self.data@.len() {
            self.data@.skip(self.pos as int)
        } else {
            Seq::empty()
        }
    }

    pub fn new(data: Vec<u8>) -> (r: Cursor)
        ensures
            r.data == data,
            r.pos == 0,
            r.rest() == data@,
    {
        let r = Cursor { data, pos: 0 };
        proof {
            assert(r.rest() =~= r.data@);
        }
        r
    }

    /// True while unconsumed bytes remain.
    pub fn has_remaining(&self) -> (r: bool)
        ensures
            r == (self.rest().len() > 0),
    {
        self.pos < self.data.len()
    }

    /// How many bytes remain.
    pub fn remaining(&self) -> (r: usize)
        ensures
            r == self.rest().len(),
    {
        if self.pos <= self.data.len() {
            self.data.len() - self.pos
        } else {
            0
        }
    }

    /// Read one byte.
    pub fn read_u8(&mut self) -> (r: Result<u8, DecodeError>)
        ensures
            final(self).data == old(self).data,
            match r {
                Ok(b) => {
                    &&& old(self).rest().len() >= 1
                    &&& b == old(self).rest()[0]
                    &&& final(self).pos == old(self).pos + 1
                    &&& final(self).rest() == old(self).rest().skip(1)
                },
                Err(e) => {
                    &&& e == DecodeError::UnexpectedEnd
                    &&& old(self).rest().len() == 0
                    &&& *final(self) == *old(self)
                },
            },
    {
        if self.pos < self.data.len() {
            let b = self.data[self.pos];
            self.pos = self.pos + 1;
            proof {
                assert(self.rest() =~= old(self).rest().skip(1));
            }
            Ok(b)
        } else {
            Err(DecodeError::UnexpectedEnd)
        }
    }

    /// Skip `n` bytes.
    pub fn advance(&mut self, n: usize) -> (r: Result<(), DecodeError>)
        ensures
            final(self).data == old(self).data,
            match r {
                Ok(()) => {
                    &&& old(self).rest().len() >= n
                    &&& final(self).pos == old(self).pos + n
                    &&& final(self).rest() == old(self).rest().skip(n as int)
                },
                Err(e) => {
                    &&& e == DecodeError::UnexpectedEnd
                    &&& old(self).rest().len() < n
                    &&& *final(self) == *old(self)
                },
            },
    {
        if n == 0 {
            proof {
                assert(self.rest() =~= self.rest().skip(0));
            }
            return Ok(());
        }
        if self.pos <= self.data.len() && n <= self.data.len() - self.pos {
            self.pos = self.pos + n;
            proof {
                assert(self.rest() =~= old(self).rest().skip(n as int));
            }
            Ok(())
        } else {
            Err(DecodeError::UnexpectedEnd)
        }
    }

    /// Read `n` bytes into a fresh buffer.
    pub fn read_bytes(&mut self, n: usize) -> (r: Result<Vec<u8>, DecodeError>)
        ensures
            final(self).data == old(self).data,
            match r {
                Ok(v) => {
                    &&& old(self).rest().len() >= n
                    &&& v@ == old(self).rest().take(n as int)
                    &&& final(self).pos == old(self).pos + n
                    &&& final(self).rest() == old(self).rest().skip(n as int)
                },
                Err(e) => {
                    &&& e == DecodeError::UnexpectedEnd
                    &&& old(self).rest().len() < n
                    &&& *final(self) == *old(self)
                },
            },
    {
        if n == 0 {
            let v: Vec<u8> = Vec::new();
            proof {
                assert(v@ =~= self.rest().take(0));
                assert(self.rest() =~= self.rest().skip(0));
            }
            return Ok(v);
        }
        if self.pos <= self.data.len() && n <= self.data.len() - self.pos {
            let mut v: Vec<u8> = Vec::new();
            let mut k: usize = 0;
            proof {
                assert(v@ =~= self.data@.subrange(self.pos as int, self.pos as int));
            }
            while k < n
                invariant
                    k <= n,
                    self.pos + n <= self.data.len(),
                    v@ == self.data@.subrange(self.pos as int, self.pos + k),
                decreases n - k,
            {
                let b = self.data[self.pos + k];
                v.push(b);
                proof {
                    assert(v@ =~= self.data@.subrange(self.pos as int, self.pos + k + 1));
                }
                k = k + 1;
            }
            self.pos = self.pos + n;
            proof {
                assert(v@ =~= old(self).rest().take(n as int));
                assert(self.rest() =~= old(self).rest().skip(n as int));
            }
            Ok(v)
        } else {
            Err(DecodeError::UnexpectedEnd)
        }
    }

    /// Read an `n`-byte big-endian unsigned integer, `n` at most 16.
    pub fn read_be(&mut self, n: usize) -> (r: Result<u128, DecodeError>)
        requires
            n <= 16,
        ensures
            final(self).data == old(self).data,
            match r {
                Ok(v) => {
                    &&& old(self).rest().len() >= n
                    &&& v as nat == be_value(old(self).rest().take(n as int))
                    &&& final(self).pos == old(self).pos + n
                    &&& final(self).rest() == old(self).rest().skip(n as int)
                },
                Err(e) => {
                    &&& e == DecodeError::UnexpectedEnd
                    &&& old(self).rest().len() < n
                    &&& *final(self) == *old(self)
                },
            },
    {
        if n == 0 {
            proof {
                assert(self.rest().take(0) =~= Seq::<u8>::empty());
                assert(self.rest() =~= self.rest().skip(0));
            }
            return Ok(0);
        }
        if self.pos <= self.data.len() && n <= self.data.len() - self.pos {
            let ghost orig = self.rest();
            let mut v: u128 = 0;
            let mut k: usize = 0;
            proof {
                assert(orig.take(0) =~= Seq::<u8>::empty());
            }
            while k < n
                invariant
                    k <= n,
                    n <= 16,
                    self.pos + n <= self.data.len(),
                    orig == self.rest(),
                    v as nat == be_value(orig.take(k as int)),
                    (v as nat) < pow256(k as nat),
                decreases n - k,
            {
                let b = self.data[self.pos + k];
                proof {
                    lemma_pow256_16();
                    lemma_pow256_increases((k + 1) as nat, 16);
                    assert(pow256((k + 1) as nat) == 256 * pow256(k as nat));
                    assert(orig.take(k + 1).drop_last() =~= orig.take(k as int));
                    assert(orig.take(k + 1).last() == b);
                    assert(orig.take(k + 1).len() > 0);
                }
                v = v * 256 + (b as u128);
                k = k + 1;
            }
            self.pos = self.pos + n;
            proof {
                assert(self.rest() =~= old(self).rest().skip(n as int));
            }
            Ok(v)
        } else {
            Err(DecodeError::UnexpectedEnd)
        }
    }
}

/// Decoded fixed-width integers, one method per wire width.
impl Cursor {
    /// Read a big-endian `u16`.
    pub fn read_u16(&mut self) -> (r: Result<u16, DecodeError>)
        ensures
            final(self).data == old(self).data,
            match r {
                Ok(v) => {
                    &&& old(self).rest().len() >= 2
                    &&& v as nat == be_value(old(self).rest().take(2))
                    &&& final(self).pos == old(self).pos + 2
                    &&& final(self).rest() == old(self).rest().skip(2)
                },
                Err(e) => {
                    &&& e == DecodeError::UnexpectedEnd
                    &&& old(self).rest().len() < 2
                    &&& *final(self) == *old(self)
                },
            },
    {
        match self.read_be(2) {
            Ok(v) => {
                proof {
                    lemma_be_value_bound(old(self).rest().take(2));
                    lemma_pow256_values();
                }
                Ok(v as u16)
            },
            Err(e) => Err(e),
        }
    }

    /// Read a big-endian `u32`.
    pub fn read_u32(&mut self) -> (r: Result<u32, DecodeError>)
        ensures
            final(self).data == old(self).data,
            match r {
                Ok(v) => {
                    &&& old(self).rest().len() >= 4
                    &&& v as nat == be_value(old(self).rest().take(4))
                    &&& final(self).pos == old(self).pos + 4
                    &&& final(self).rest() == old(self).rest().skip(4)
                },
                Err(e) => {
                    &&& e == DecodeError::UnexpectedEnd
                    &&& old(self).rest().len() < 4
                    &&& *final(self) == *old(self)
                },
            },
    {
        match self.read_be(4) {
            Ok(v) => {
                proof {
                    lemma_be_value_bound(old(self).rest().take(4));
                    lemma_pow256_values();
                }
                Ok(v as u32)
            },
            Err(e) => Err(e),
        }
    }

    /// Read a big-endian `u64`.
    pub fn read_u64(&mut self) -> (r: Result<u64, DecodeError>)
        ensures
            final(self).data == old(self).data,
            match r {
                Ok(v) => {
                    &&& old(self).rest().len() >= 8
                    &&& v as nat == be_value(old(self).rest().take(8))
                    &&& final(self).pos == old(self).pos + 8
                    &&& final(self).rest() == old(self).rest().skip(8)
                },
                Err(e) => {
                    &&& e == DecodeError::UnexpectedEnd
                    &&& old(self).rest().len() < 8
                    &&& *final(self) == *old(self)
                },
            },
    {
        match self.read_be(8) {
            Ok(v) => {
                proof {
                    lemma_be_value_bound(old(self).rest().take(8));
                    lemma_pow256_values();
                }
                Ok(v as u64)
            },
            Err(e) => Err(e),
        }
    }

    /// Read a 16-byte big-endian `u128`: the logical value of a UUID.
    pub fn read_uuid(&mut self) -> (r: Result<u128, DecodeError>)
        ensures
            final(self).data == old(self).data,
            match r {
                Ok(v) => {
                    &&& old(self).rest().len() >= 16
                    &&& v as nat == be_value(old(self).rest().take(16))
                    &&& final(self).pos == old(self).pos + 16
                    &&& final(self).rest() == old(self).rest().skip(16)
                },
                Err(e) => {
                    &&& e == DecodeError::UnexpectedEnd
                    &&& old(self).rest().len() < 16
                    &&& *final(self) == *old(self)
                },
            },
    {
        self.read_be(16)
    }

    /// Read a big-endian two's-complement `i16`.
    pub fn read_i16(&mut self) -> (r: Result<i16, DecodeError>)
        ensures
            final(self).data == old(self).data,
            match r {
                Ok(v) => {
                    &&& old(self).rest().len() >= 2
                    &&& v as int == twos_complement(be_value(old(self).rest().take(2)), 0x1_0000)
                    &&& final(self).pos == old(self).pos + 2
                    &&& final(self).rest() == old(self).rest().skip(2)
                },
                Err(e) => {
                    &&& e == DecodeError::UnexpectedEnd
                    &&& old(self).rest().len() < 2
                    &&& *final(self) == *old(self)
                },
            },
    {
        match self.read_u16() {
            Ok(u) => if u < 0x8000 {
                Ok(u as i16)
            } else {
                Ok(-((0xFFFFu16 - u) as i16) - 1)
            },
            Err(e) => Err(e),
        }
    }

    /// Read a big-endian two's-complement `i32`.
    pub fn read_i32(&mut self) -> (r: Result<i32, DecodeError>)
        ensures
            final(self).data == old(self).data,
            match r {
                Ok(v) => {
                    &&& old(self).rest().len() >= 4
                    &&& v as int == twos_complement(
                        be_value(old(self).rest().take(4)),
                        0x1_0000_0000,
                    )
                    &&& final(self).pos == old(self).pos + 4
                    &&& final(self).rest() == old(self).rest().skip(4)
                },
                Err(e) => {
                    &&& e == DecodeError::UnexpectedEnd
                    &&& old(self).rest().len() < 4
                    &&& *final(self) == *old(self)
                },
            },
    {
        match self.read_u32() {
            Ok(u) => if u < 0x8000_0000 {
                Ok(u as i32)
            } else {
                Ok(-((0xFFFF_FFFFu32 - u) as i32) - 1)
            },
            Err(e) => Err(e),
        }
    }

    /// Read a big-endian two's-complement `i64`.
    pub fn read_i64(&mut self) -> (r: Result<i64, DecodeError>)
        ensures
            final(self).data == old(self).data,
            match r {
                Ok(v) => {
                    &&& old(self).rest().len() >= 8
                    &&& v as int == twos_complement(
                        be_value(old(self).rest().take(8)),
                        0x1_0000_0000_0000_0000,
                    )
                    &&& final(self).pos == old(self).pos + 8
                    &&& final(self).rest() == old(self).rest().skip(8)
                },
                Err(e) => {
                    &&& e == DecodeError::UnexpectedEnd
                    &&& old(self).rest().len() < 8
                    &&& *final(self) == *old(self)
                },
            },
    {
        match self.read_u64() {
            Ok(u) => if u < 0x8000_0000_0000_0000 {
                Ok(u as i64)
            } else {
                Ok(-((0xFFFF_FFFF_FFFF_FFFFu64 - u) as i64) - 1)
            },
            Err(e) => Err(e),
        }
    }
}

/// The numeric values of the powers of 256 a reader meets.
pub proof fn lemma_pow256_values()
    ensures
        pow256(1) == 0x100,
        pow256(2) == 0x1_0000,
        pow256(4) == 0x1_0000_0000,
        pow256(8) == 0x1_0000_0000_0000_0000,
        pow256(16) == 0x1_0000_0000_0000_0000_0000_0000_0000_0000,
{
    lemma_pow256_16();
    assert(pow256(0) == 1);
    assert(pow256(1) == 0x100);
    assert(pow256(2) == 0x1_0000);
    assert(pow256(3) == 0x100_0000);
    assert(pow256(4) == 0x1_0000_0000);
    assert(pow256(5) == 0x100_0000_0000);
    assert(pow256(6) == 0x1_0000_0000_0000);
    assert(pow256(7) == 0x100_0000_0000_0000);
    assert(pow256(8) == 0x1_0000_0000_0000_0000);
}

/// The numeric value of `pow256(16)`: one past the largest `u128`.
pub proof fn lemma_pow256_16()
    ensures
        pow256(16) == 0x1_0000_0000_0000_0000_0000_0000_0000_0000,
{
    assert(pow256(0) == 1);
    assert(pow256(1) == 0x100);
    assert(pow256(2) == 0x1_0000);
    assert(pow256(3) == 0x100_0000);
    assert(pow256(4) == 0x1_0000_0000);
    assert(pow256(5) == 0x100_0000_0000);
    assert(pow256(6) == 0x1_0000_0000_0000);
    assert(pow256(7) == 0x100_0000_0000_0000);
    assert(pow256(8) == 0x1_0000_0000_0000_0000);
    assert(pow256(9) == 0x100_0000_0000_0000_0000);
    assert(pow256(10) == 0x1_0000_0000_0000_0000_0000);
    assert(pow256(11) == 0x100_0000_0000_0000_0000_0000);
    assert(pow256(12) == 0x1_0000_0000_0000_0000_0000_0000);
    assert(pow256(13) == 0x100_0000_0000_0000_0000_0000_0000);
    assert(pow256(14) == 0x1_0000_0000_0000_0000_0000_0000_0000);
    assert(pow256(15) == 0x100_0000_0000_0000_0000_0000_0000_0000);
    assert(pow256(16) == 0x1_0000_0000_0000_0000_0000_0000_0000_0000);
}

/// `pow256` grows with its argument.
pub proof fn lemma_pow256_increases(i: nat, j: nat)
    requires
        i <= j,
    ensures
        pow256(i) <= pow256(j),
    decreases j,
{
    if i < j {
        lemma_pow256_increases(i, (j - 1) as nat);
        assert(pow256(j) == 256 * pow256((j - 1) as nat));
        assert(pow256((j - 1) as nat) <= 256 * pow256((j - 1) as nat)) by (nonlinear_arith)
            requires pow256((j - 1) as nat) >= 0;
    }
}

} // verus!

// Reopen the macro for the writer half of the codec.
use vstd::prelude::*;

verus! {

/// Append the `n`-byte big-endian encoding of `v` (low `n` bytes of it).
pub fn put_be(out: &mut Vec<u8>, v: u128, n: usize)
    ensures
        final(out)@ == old(out)@ + be_bytes(v as nat, n as nat),
    decreases n,
{
    if n > 0 {
        put_be(out, v / 256, n - 1);
        out.push((v % 256) as u8);
        proof {
            assert(out@ =~= old(out)@ + be_bytes(v as nat, n as nat));
        }
    } else {
        proof {
            assert(out@ =~= old(out)@ + be_bytes(v as nat, 0));
        }
    }
}

/// Append one byte.
pub fn put_u8(out: &mut Vec<u8>, v: u8)
    ensures
        final(out)@ == old(out)@ + seq![v],
{
    out.push(v);
    proof {
        assert(out@ =~= old(out)@ + seq![v]);
    }
}

/// Append a big-endian `u16`.
pub fn put_u16(out: &mut Vec<u8>, v: u16)
    ensures
        final(out)@ == old(out)@ + be_bytes(v as nat, 2),
{
    put_be(out, v as u128, 2);
}

/// Append a big-endian `u32`.
pub fn put_u32(out: &mut Vec<u8>, v: u32)
    ensures
        final(out)@ == old(out)@ + be_bytes(v as nat, 4),
{
    put_be(out, v as u128, 4);
}

/// Append a big-endian `u64`.
pub fn put_u64(out: &mut Vec<u8>, v: u64)
    ensures
        final(out)@ == old(out)@ + be_bytes(v as nat, 8),
{
    put_be(out, v as u128, 8);
}

/// Append a 16-byte big-endian `u128`: the wire form of a UUID.
pub fn put_uuid(out: &mut Vec<u8>, v: u128)
    ensures
        final(out)@ == old(out)@ + be_bytes(v as nat, 16),
{
    put_be(out, v, 16);
}

/// Append a big-endian two's-complement `i16`.
pub fn put_i16(out: &mut Vec<u8>, v: i16)
    ensures
        final(out)@ == old(out)@ + be_bytes(u16_repr(v), 2),
{
    let u: u16 = if v >= 0 {
        v as u16
    } else {
        ((v as i32) + 0x10000) as u16
    };
    put_u16(out, u);
}

/// Append a big-endian two's-complement `i32`.
pub fn put_i32(out: &mut Vec<u8>, v: i32)
    ensures
        final(out)@ == old(out)@ + be_bytes(u32_repr(v), 4),
{
    let u: u32 = if v >= 0 {
        v as u32
    } else {
        ((v as i64) + 0x1_0000_0000) as u32
    };
    put_u32(out, u);
}

/// Append a big-endian two's-complement `i64`.
pub fn put_i64(out: &mut Vec<u8>, v: i64)
    ensures
        final(out)@ == old(out)@ + be_bytes(u64_repr(v), 8),
{
    let u: u64 = if v >= 0 {
        v as u64
    } else {
        ((v as i128) + 0x1_0000_0000_0000_0000) as u64
    };
    put_u64(out, u);
}

/// Append a copy of `s`.
pub fn put_slice(out: &mut Vec<u8>, s: &Vec<u8>)
    ensures
        final(out)@ == old(out)@ + s@,
{
    let mut k: usize = 0;
    proof {
        assert(out@ =~= old(out)@ + s@.take(0));
    }
    while k < s.len()
        invariant
            k <= s@.len(),
            out@ == old(out)@ + s@.take(k as int),
        decreases s@.len() - k,
    {
        let b = s[k];
        out.push(b);
        proof {
            assert(s@.take(k + 1).drop_last() =~= s@.take(k as int));
            assert(out@ =~= old(out)@ + s@.take(k + 1));
        }
        k = k + 1;
    }
    proof {
        assert(s@.take(s@.len() as int) =~= s@);
    }
}

/// Decoding of varints from a byte scan, as the on-disk and on-wire
/// formats use them.
pub trait ReadVarint {
    /// Read a zigzag-coded signed varint.
    fn read_varint(&mut self) -> Result<i64, DecodeError>;

    /// Read an unsigned varint.
    fn read_uvarint(&mut self) -> Result<u64, DecodeError>;
}

/// Encoding of varints onto a byte buffer.
pub trait WriteVarint {
    /// Append the zigzag varint encoding of `num`.
    fn write_varint(&mut self, num: i64);

    /// Append the unsigned varint encoding of `num`.
    fn write_uvarint(&mut self, num: u64);
}

/// The numeric values of the powers of 128 a varint reader meets.
pub proof fn lemma_pow128_values()
    ensures
        pow128(8) == 0x100_0000_0000_0000,
        pow128(9) == 0x8000_0000_0000_0000,
{
    assert(pow128(0) == 1);
    assert(pow128(1) == 0x80);
    assert(pow128(2) == 0x4000);
    assert(pow128(3) == 0x20_0000);
    assert(pow128(4) == 0x1000_0000);
    assert(pow128(5) == 0x8_0000_0000);
    assert(pow128(6) == 0x400_0000_0000);
    assert(pow128(7) == 0x2_0000_0000_0000);
    assert(pow128(8) == 0x100_0000_0000_0000);
    assert(pow128(9) == 0x8000_0000_0000_0000);
}

/// `pow128` grows with its argument.
pub proof fn lemma_pow128_increases(i: nat, j: nat)
    requires
        i <= j,
    ensures
        pow128(i) <= pow128(j),
    decreases j,
{
    if i < j {
        lemma_pow128_increases(i, (j - 1) as nat);
        assert(pow128(j) == 128 * pow128((j - 1) as nat));
        assert(pow128((j - 1) as nat) <= 128 * pow128((j - 1) as nat)) by (nonlinear_arith)
            requires pow128((j - 1) as nat) >= 0;
    }
}

impl ReadVarint for Cursor {
    /// Read a zigzag varint: an unsigned varint followed by the inverse
    /// zigzag mapping.
    fn read_varint(&mut self) -> (r: Result<i64, DecodeError>)
        ensures
            final(self).data == old(self).data,
            match r {
                Ok(v) => match varint64_parse(old(self).rest()) {
                    Some(p) => {
                        &&& v as int == p.0
                        &&& 0 <= p.1 <= old(self).rest().len()
                        &&& final(self).pos == old(self).pos + p.1
                        &&& final(self).rest() == old(self).rest().skip(p.1)
                    },
                    None => false,
                },
                Err(e) => {
                    &&& *final(self) == *old(self)
                    &&& (e == DecodeError::UnexpectedEnd <==> uvarint_parse(old(self).rest())
                        is None)
                    &&& (e == DecodeError::Overflow <==> (uvarint_parse(old(self).rest()) is Some
                        && uvarint64_parse(old(self).rest()) is None))
                },
            },
    {
        match self.read_uvarint() {
            Ok(u) => Ok(zigzag_decode(u)),
            Err(e) => Err(e),
        }
    }

    /// Read an unsigned varint of at most ten bytes, little-endian
    /// base-128 groups with a continuation bit.
    fn read_uvarint(&mut self) -> (r: Result<u64, DecodeError>)
        ensures
            final(self).data == old(self).data,
            match r {
                Ok(v) => match uvarint64_parse(old(self).rest()) {
                    Some(p) => {
                        &&& v as nat == p.0
                        &&& 0 <= p.1 <= old(self).rest().len()
                        &&& final(self).pos == old(self).pos + p.1
                        &&& final(self).rest() == old(self).rest().skip(p.1)
                    },
                    None => false,
                },
                Err(e) => {
                    &&& *final(self) == *old(self)
                    &&& (e == DecodeError::UnexpectedEnd <==> uvarint_parse(old(self).rest())
                        is None)
                    &&& (e == DecodeError::Overflow <==> (uvarint_parse(old(self).rest()) is Some
                        && uvarint64_parse(old(self).rest()) is None))
                },
            },
    {
        let ghost orig = self.rest();
        let len = self.data.len();
        let avail: usize = if self.pos <= len {
            len - self.pos
        } else {
            0
        };
        proof {
            assert(avail == orig.len());
            lemma_pow128_values();
        }
        let mut value: u64 = 0;
        let mut mult: u64 = 1;
        let mut i: usize = 0;
        proof {
            assert(orig.skip(0) =~= orig);
            assert(pow128(0) == 1);
        }
        // The first nine groups carry seven bits each.
        while i < 9
            invariant
                i <= 9,
                i <= avail,
                *self == *old(self),
                orig == self.rest(),
                avail == orig.len(),
                len == self.data.len(),
                mult == pow128(i as nat),
                (value as nat) < pow128(i as nat),
                pow128(i as nat) <= 0x8000_0000_0000_0000,
                match uvarint_parse(orig.skip(i as int)) {
                    Some(p) => uvarint_parse(orig) == Some(
                        (((value as nat) + p.0 * pow128(i as nat)) as nat, p.1 + i),
                    ),
                    None => uvarint_parse(orig) is None,
                },
            decreases 9 - i,
        {
            if i >= avail {
                proof {
                    assert(orig.skip(i as int).len() == 0);
                }
                return Err(DecodeError::UnexpectedEnd);
            }
            let b = self.data[self.pos + i];
            proof {
                assert(orig.skip(i as int)[0] == b);
                lemma_pow128_increases((i + 1) as nat, 9);
                lemma_pow128_values();
                assert(pow128((i + 1) as nat) == 128 * pow128(i as nat));
                assert((b % 128) as nat * pow128(i as nat) <= 127 * pow128(i as nat))
                    by (nonlinear_arith)
                    requires (b % 128) <= 127, pow128(i as nat) >= 0;
            }
            if b < 128 {
                let v = value + (b as u64) * mult;
                proof {
                    assert(uvarint_parse(orig.skip(i as int)) == Some((b as nat, 1int)));
                }
                self.pos = self.pos + i + 1;
                proof {
                    assert(self.rest() =~= orig.skip(i + 1));
                }
                return Ok(v);
            }
            let ghost old_value = value as nat;
            let ghost old_i = i as int;
            value = value + ((b - 128) as u64) * mult;
            mult = mult * 128;
            i = i + 1;
            proof {
                assert(orig.skip(old_i as int).skip(1) =~= orig.skip(old_i + 1));
                match uvarint_parse(orig.skip(i as int)) {
                    Some(p) => {
                        assert(uvarint_parse(orig.skip(old_i as int)) == Some(
                            (((b - 128) as nat + 128 * p.0) as nat, p.1 + 1),
                        ));
                        assert(((b - 128) as nat + 128 * p.0) * pow128(old_i as nat) == (b
                            - 128) as nat * pow128(old_i as nat) + p.0 * (128 * pow128(old_i as nat)))
                            by (nonlinear_arith);
                    },
                    None => {
                        assert(uvarint_parse(orig.skip(old_i as int)) is None);
                    },
                }
            }
        }
        // The tenth group may carry only the top bit of a 64-bit value.
        if 9 >= avail {
            proof {
                assert(orig.skip(9).len() == 0);
            }
            return Err(DecodeError::UnexpectedEnd);
        }
        let b = self.data[self.pos + 9];
        proof {
            assert(orig.skip(9)[0] == b);
            lemma_pow128_values();
        }
        if b < 128 {
            proof {
                assert(uvarint_parse(orig.skip(9)) == Some((b as nat, 1int)));
            }
            if b <= 1 {
                let v = value + (b as u64) * mult;
                self.pos = self.pos + 10;
                proof {
                    assert(self.rest() =~= orig.skip(10));
                }
                return Ok(v);
            }
            proof {
                assert((b as nat) * pow128(9) >= 2 * pow128(9)) by (nonlinear_arith)
                    requires b >= 2, pow128(9) >= 0;
            }
            return Err(DecodeError::Overflow);
        }
        // A continuation bit in the tenth byte: the value cannot fit; scan
        // to the end of the varint to tell truncation from overflow.
        let mut j: usize = 10;
        proof {
            assert(orig.skip(9).skip(1) =~= orig.skip(10));
            match uvarint_parse(orig.skip(10)) {
                Some(p) => {
                    assert(uvarint_parse(orig.skip(9)) == Some(
                        (((b - 128) as nat + 128 * p.0) as nat, p.1 + 1),
                    ));
                },
                None => {},
            }
        }
        while j < avail
            invariant
                10 <= j,
                j <= avail,
                *self == *old(self),
                orig == self.rest(),
                avail == orig.len(),
                len == self.data.len(),
                match uvarint_parse(orig.skip(j as int)) {
                    Some(p) => uvarint_parse(orig) matches Some(q) && q.1 == p.1 + j,
                    None => uvarint_parse(orig) is None,
                },
            decreases avail - j,
        {
            let b2 = self.data[self.pos + j];
            proof {
                assert(orig.skip(j as int)[0] == b2);
            }
            if b2 < 128 {
                proof {
                    assert(uvarint_parse(orig.skip(j as int)) == Some((b2 as nat, 1int)));
                }
                return Err(DecodeError::Overflow);
            }
            let ghost old_j = j as int;
            j = j + 1;
            proof {
                assert(orig.skip(old_j).skip(1) =~= orig.skip(old_j + 1));
                match uvarint_parse(orig.skip(j as int)) {
                    Some(p) => {
                        assert(uvarint_parse(orig.skip(old_j)) == Some(
                            (((b2 - 128) as nat + 128 * p.0) as nat, p.1 + 1),
                        ));
                    },
                    None => {},
                }
            }
        }
        proof {
            assert(orig.skip(j as int).len() == 0);
        }
        Err(DecodeError::UnexpectedEnd)
    }
}

impl WriteVarint for Vec<u8> {
    /// Append the zigzag varint encoding of `num`.
    fn write_varint(&mut self, num: i64)
        ensures
            final(self)@ == old(self)@ + varint_bytes(num as int),
    {
        let u = zigzag_encode(num);
        self.write_uvarint(u);
    }

    /// Append the unsigned varint encoding of `num`: low seven bits per
    /// byte, continuation bit set while more remain.
    fn write_uvarint(&mut self, num: u64)
        ensures
            final(self)@ == old(self)@ + uvarint_bytes(num as nat),
    {
        let mut n = num;
        while n >= 128
            invariant
                old(self)@ + uvarint_bytes(num as nat) == self@ + uvarint_bytes(n as nat),
            decreases n,
        {
            let b = ((n % 128) + 128) as u8;
            proof {
                assert(uvarint_bytes(n as nat) == seq![b] + uvarint_bytes((n as nat) / 128));
                assert(self@.push(b) + uvarint_bytes((n as nat) / 128) =~= self@ + (seq![b]
                    + uvarint_bytes((n as nat) / 128)));
            }
            self.push(b);
            n = n / 128;
        }
        proof {
            assert(uvarint_bytes(n as nat) == seq![n as u8]);
            assert(self@.push(n as u8) =~= self@ + seq![n as u8]);
        }
        self.push(n as u8);
    }
}

} // verus!

// Round-trip laws of the varint codec, and the UUID string form.
use vstd::arithmetic::div_mod::lemma_div_denominator;
use vstd::string::StringExecFns;

verus! {

/// An encoded unsigned varint parses back to the value it encodes, with
/// any bytes at all following it.
pub proof fn lemma_uvarint_encode_parse(v: nat, rest: Seq<u8>)
    ensures
        uvarint_parse(uvarint_bytes(v) + rest) == Some(
            (v, uvarint_bytes(v).len() as int),
        ),
    decreases v,
{
    let s = uvarint_bytes(v) + rest;
    if v < 128 {
        assert(s[0] == v as u8);
    } else {
        let b = ((v % 128) + 128) as u8;
        assert(s[0] == b);
        lemma_uvarint_encode_parse(v / 128, rest);
        assert(s.skip(1) =~= uvarint_bytes(v / 128) + rest);
    }
}

/// A value below `128^k` encodes on at most `k` bytes.
pub proof fn lemma_uvarint_bytes_len(v: nat, k: nat)
    requires
        v < pow128(k),
        k >= 1,
    ensures
        1 <= uvarint_bytes(v).len() <= k,
    decreases k,
{
    if v >= 128 {
        assert(pow128(k) == 128 * pow128((k - 1) as nat));
        assert(v / 128 < pow128((k - 1) as nat)) by (nonlinear_arith)
            requires v < 128 * pow128((k - 1) as nat), v >= 128;
        lemma_uvarint_bytes_len(v / 128, (k - 1) as nat);
    }
}

/// Law: for every unsigned 64-bit value, decoding its varint encoding —
/// wherever it stands in a larger buffer — yields the value back.
pub proof fn lemma_uvarint_round_trip(v: u64, rest: Seq<u8>)
    ensures
        uvarint64_parse(uvarint_bytes(v as nat) + rest) == Some(
            (v as nat, uvarint_bytes(v as nat).len() as int),
        ),
{
    lemma_uvarint_encode_parse(v as nat, rest);
    lemma_pow128_values();
    assert(pow128(10) == 128 * pow128(9));
    lemma_uvarint_bytes_len(v as nat, 10);
}

/// Law: for every signed 64-bit value, decoding its zigzag varint
/// encoding yields the value back.
pub proof fn lemma_varint_round_trip(n: i64, rest: Seq<u8>)
    ensures
        varint64_parse(varint_bytes(n as int) + rest) == Some(
            (n as int, varint_bytes(n as int).len() as int),
        ),
{
    lemma_uvarint_encode_parse(zigzag(n as int), rest);
    lemma_pow128_values();
    assert(pow128(10) == 128 * pow128(9));
    lemma_uvarint_bytes_len(zigzag(n as int), 10);
    lemma_zigzag_round_trip(n as int, 0);
}

/// A successful varint parse consumes at least one byte and no more than
/// the data it was given.
pub proof fn lemma_uvarint_parse_len(data: Seq<u8>)
    ensures
        match uvarint_parse(data) {
            Some(p) => 0 < p.1 <= data.len(),
            None => true,
        },
    decreases data.len(),
{
    if data.len() > 0 && data[0] >= 128 {
        lemma_uvarint_parse_len(data.skip(1));
    }
}

/// A run of big-endian `u32` values at the head of `data`: the values and
/// the bytes consumed.
pub open spec fn u32s_parse(data: Seq<u8>, count: nat) -> Option<(Seq<u32>, int)>
    decreases count,
{
    if count == 0 {
        Some((Seq::empty(), 0))
    } else if data.len() < 4 {
        None
    } else {
        match u32s_parse(data.skip(4), (count - 1) as nat) {
            Some(p) => Some((seq![be_value(data.take(4)) as u32] + p.0, p.1 + 4)),
            None => None,
        }
    }
}

/// The wire bytes of a run of big-endian `u32` values.
pub open spec fn u32s_bytes(elems: Seq<u32>) -> Seq<u8>
    decreases elems.len(),
{
    if elems.len() == 0 {
        Seq::empty()
    } else {
        be_bytes(elems[0] as nat, 4) + u32s_bytes(elems.skip(1))
    }
}

/// A compact array at the head of `data`: a stored length as unsigned
/// varint, then `stored - 1` elements — a stored zero means "absent" and
/// carries no element at all.
pub open spec fn compact_u32s_parse(data: Seq<u8>) -> Option<(Seq<u32>, int)> {
    match uvarint64_parse(data) {
        Some(p) => {
            let count: nat = if p.0 == 0 {
                0
            } else {
                (p.0 - 1) as nat
            };
            match u32s_parse(data.skip(p.1), count) {
                Some(q) => Some((q.0, p.1 + q.1)),
                None => None,
            }
        },
        None => None,
    }
}

/// The wire bytes of a compact array of `u32`: its length plus one as an
/// unsigned varint, then the elements.
pub open spec fn compact_u32s_bytes(elems: Seq<u32>) -> Seq<u8> {
    uvarint_bytes(elems.len() + 1) + u32s_bytes(elems)
}

/// A run of encoded `u32` values parses back to those values.
pub proof fn lemma_u32s_encode_parse(elems: Seq<u32>, rest: Seq<u8>)
    ensures
        u32s_parse(u32s_bytes(elems) + rest, elems.len()) == Some(
            (elems, u32s_bytes(elems).len() as int),
        ),
    decreases elems.len(),
{
    let s = u32s_bytes(elems) + rest;
    if elems.len() == 0 {
        assert(elems =~= Seq::<u32>::empty());
    } else {
        let head = be_bytes(elems[0] as nat, 4);
        lemma_be_round_trip(elems[0] as nat, 4);
        lemma_pow256_values();
        lemma_u32s_encode_parse(elems.skip(1), rest);
        assert(s.take(4) =~= head);
        assert(s.skip(4) =~= u32s_bytes(elems.skip(1)) + rest);
        assert(seq![elems[0]] + elems.skip(1) =~= elems);
    }
}

/// Law: an emitted compact array stores its element count plus one, and a
/// parse of the emitted bytes returns exactly the elements — the element
/// count that follows a stored value `v` is `v - 1` (and a stored zero
/// carries none).
pub proof fn lemma_compact_array_round_trip(elems: Seq<u32>, rest: Seq<u8>)
    requires
        elems.len() + 1 < 0x1_0000_0000_0000_0000,
    ensures
        compact_u32s_parse(compact_u32s_bytes(elems) + rest) == Some(
            (elems, compact_u32s_bytes(elems).len() as int),
        ),
{
    let stored = (elems.len() + 1) as nat;
    let s = compact_u32s_bytes(elems) + rest;
    lemma_uvarint_encode_parse(stored, u32s_bytes(elems) + rest);
    lemma_pow128_values();
    assert(pow128(10) == 128 * pow128(9));
    lemma_uvarint_bytes_len(stored, 10);
    assert(s =~= uvarint_bytes(stored) + (u32s_bytes(elems) + rest));
    let n = uvarint_bytes(stored).len() as int;
    assert(s.skip(n) =~= u32s_bytes(elems) + rest);
    lemma_u32s_encode_parse(elems, rest);
}

/// 16 to the power `n`: the weight of the `n`-th hex digit from the low
/// end.
pub open spec fn pow16(n: nat) -> nat
    decreases n,
{
    if n == 0 {
        1
    } else {
        16 * pow16((n - 1) as nat)
    }
}

/// Every power of 16 is positive.
pub proof fn lemma_pow16_pos(n: nat)
    ensures
        pow16(n) >= 1,
    decreases n,
{
    if n > 0 {
        lemma_pow16_pos((n - 1) as nat);
    }
}

/// The lower-case hex digit for a value below 16.
pub open spec fn hex_char(n: nat) -> char {
    if n == 0 { '0' }
    else if n == 1 { '1' }
    else if n == 2 { '2' }
    else if n == 3 { '3' }
    else if n == 4 { '4' }
    else if n == 5 { '5' }
    else if n == 6 { '6' }
    else if n == 7 { '7' }
    else if n == 8 { '8' }
    else if n == 9 { '9' }
    else if n == 10 { 'a' }
    else if n == 11 { 'b' }
    else if n == 12 { 'c' }
    else if n == 13 { 'd' }
    else if n == 14 { 'e' }
    else { 'f' }
}

/// The `i`-th hex digit of a UUID value, most significant first.
pub open spec fn uuid_nibble(u: u128, i: nat) -> nat {
    ((u as nat) / pow16((31 - i) as nat)) % 16
}

/// The 32 hex digits of a UUID value, most significant first.
pub open spec fn uuid_hex_chars(u: u128) -> Seq<char> {
    Seq::new(32, |i: int| hex_char(uuid_nibble(u, i as nat)))
}

/// The canonical 8-4-4-4-12 hyphenated form of a UUID value.
pub open spec fn uuid_string(u: u128) -> Seq<char> {
    let hex = uuid_hex_chars(u);
    hex.subrange(0, 8) + seq!['-'] + hex.subrange(8, 12) + seq!['-'] + hex.subrange(12, 16)
        + seq!['-'] + hex.subrange(16, 20) + seq!['-'] + hex.subrange(20, 32)
}

/// One lower-case hex digit as a string slice.
fn hex_char_str(n: u8) -> (r: &'static str)
    requires
        n < 16,
    ensures
        r@ == seq![hex_char(n as nat)],
{
    proof {
        reveal_strlit("0");
        reveal_strlit("1");
        reveal_strlit("2");
        reveal_strlit("3");
        reveal_strlit("4");
        reveal_strlit("5");
        reveal_strlit("6");
        reveal_strlit("7");
        reveal_strlit("8");
        reveal_strlit("9");
        reveal_strlit("a");
        reveal_strlit("b");
        reveal_strlit("c");
        reveal_strlit("d");
        reveal_strlit("e");
        reveal_strlit("f");
    }
    let r = if n == 0 { "0" }
    else if n == 1 { "1" }
    else if n == 2 { "2" }
    else if n == 3 { "3" }
    else if n == 4 { "4" }
    else if n == 5 { "5" }
    else if n == 6 { "6" }
    else if n == 7 { "7" }
    else if n == 8 { "8" }
    else if n == 9 { "9" }
    else if n == 10 { "a" }
    else if n == 11 { "b" }
    else if n == 12 { "c" }
    else if n == 13 { "d" }
    else if n == 14 { "e" }
    else { "f" };
    proof {
        assert(r@ =~= seq![hex_char(n as nat)]);
    }
    r
}

/// Append the hex digits `start..end` of `u`, most significant first,
/// reading them from the little-endian nibble table `nibs`.
fn push_hex_range(s: &mut String, nibs: &Vec<u8>, u: Ghost<u128>, start: usize, end: usize)
    requires
        start <= end <= 32,
        nibs@.len() == 32,
        forall|m: int| 0 <= m < 32 ==> nibs@[m] < 16 && nibs@[m] as nat == ((u@ as nat) / pow16(
            m as nat,
        )) % 16,
    ensures
        final(s)@ == old(s)@ + uuid_hex_chars(u@).subrange(start as int, end as int),
{
    let mut j = start;
    proof {
        assert(s@ =~= s@ + uuid_hex_chars(u@).subrange(start as int, start as int));
    }
    while j < end
        invariant
            start <= j <= end <= 32,
            nibs@.len() == 32,
            forall|m: int| 0 <= m < 32 ==> nibs@[m] < 16 && nibs@[m] as nat == ((u@ as nat)
                / pow16(m as nat)) % 16,
            s@ == old(s)@ + uuid_hex_chars(u@).subrange(start as int, j as int),
        decreases end - j,
    {
        let nib = nibs[31 - j];
        let piece = hex_char_str(nib);
        s.append(piece);
        proof {
            assert(uuid_hex_chars(u@)[j as int] == hex_char(uuid_nibble(u@, j as nat)));
            assert(s@ =~= old(s)@ + uuid_hex_chars(u@).subrange(start as int, j + 1));
        }
        j = j + 1;
    }
}

/// The canonical hyphenated string of a UUID value, lower-case hex in
/// 8-4-4-4-12 groups.
pub fn uuid_to_string(u: u128) -> (r: String)
    ensures
        r@ == uuid_string(u),
{
    let mut nibs: Vec<u8> = Vec::new();
    let mut v = u;
    let mut k: usize = 0;
    proof {
        assert(pow16(0) == 1);
    }
    while k < 32
        invariant
            k <= 32,
            nibs@.len() == k,
            v as nat == (u as nat) / pow16(k as nat),
            forall|m: int| 0 <= m < k ==> nibs@[m] < 16 && nibs@[m] as nat == ((u as nat) / pow16(
                m as nat,
            )) % 16,
        decreases 32 - k,
    {
        let nib = (v % 16) as u8;
        nibs.push(nib);
        proof {
            lemma_pow16_pos(k as nat);
            lemma_div_denominator(u as int, pow16(k as nat) as int, 16);
            assert(pow16((k + 1) as nat) == 16 * pow16(k as nat));
        }
        v = v / 16;
        k = k + 1;
    }
    let mut s = String::new();
    proof {
        reveal_strlit("-");
    }
    push_hex_range(&mut s, &nibs, Ghost(u), 0, 8);
    s.append("-");
    push_hex_range(&mut s, &nibs, Ghost(u), 8, 12);
    s.append("-");
    push_hex_range(&mut s, &nibs, Ghost(u), 12, 16);
    s.append("-");
    push_hex_range(&mut s, &nibs, Ghost(u), 16, 20);
    s.append("-");
    push_hex_range(&mut s, &nibs, Ghost(u), 20, 32);
    proof {
        assert("-"@ =~= seq!['-']);
        assert(s@ =~= uuid_string(u));
    }
    s
}

} // verus!

// Compact-array readers over a cursor.
use vstd::prelude::*;
use vstd::seq_lib::lemma_seq_skip_of_skip;

verus! {

/// Consumption of a compact array of UUIDs whose values are discarded:
/// the stored length as unsigned varint, then 16 bytes per element.
pub open spec fn spec_skip_uuids(data: Seq<u8>) -> Option<int> {
    match uvarint64_parse(data) {
        Some(p) => {
            let count: nat = if p.0 == 0 {
                0
            } else {
                (p.0 - 1) as nat
            };
            if data.len() >= p.1 + 16 * count {
                Some(p.1 + 16 * count)
            } else {
                None
            }
        },
        None => None,
    }
}

impl Cursor {
    /// Read a compact array of big-endian `u32` values: a stored length
    /// plus one as unsigned varint, then the elements; a stored zero
    /// means an absent array and no elements.
    pub fn read_compact_u32s(&mut self) -> (r: Result<Vec<u32>, DecodeError>)
        ensures
            final(self).data == old(self).data,
            match r {
                Ok(v) => match compact_u32s_parse(old(self).rest()) {
                    Some(p) => {
                        &&& v@ == p.0
                        &&& 0 <= p.1 <= old(self).rest().len()
                        &&& final(self).pos == old(self).pos + p.1
                        &&& final(self).rest() == old(self).rest().skip(p.1)
                    },
                    None => false,
                },
                Err(_) => {
                    &&& compact_u32s_parse(old(self).rest()) is None
                    &&& *final(self) == *old(self)
                },
            },
    {
        let ghost orig = self.rest();
        let start = self.pos;
        let stored = match self.read_uvarint() {
            Ok(u) => u,
            Err(e) => {
                return Err(e);
            },
        };
        let ghost n1 = uvarint64_parse(orig).unwrap().1;
        let count: u64 = if stored == 0 {
            0
        } else {
            stored - 1
        };
        let mut v: Vec<u32> = Vec::new();
        let mut i: u64 = 0;
        proof {
            lemma_uvarint_parse_len(orig);
            assert(orig.len() > 0);
            match u32s_parse(self.rest(), count as nat) {
                Some(q) => {
                    assert(v@ + q.0 =~= q.0);
                },
                None => {},
            }
        }
        while i < count
            invariant
                i <= count,
                self.data == old(self).data,
                uvarint64_parse(orig) == Some((stored as nat, n1)),
                orig == old(self).rest(),
                start == old(self).pos,
                start <= self.data@.len(),
                orig.len() == self.data@.len() - start,
                count == if stored == 0 { 0nat } else { (stored - 1) as nat },
                self.pos == start + n1 + 4 * i,
                self.pos <= self.data@.len(),
                self.rest() == orig.skip(n1 + 4 * i),
                v@.len() == i,
                match u32s_parse(self.rest(), (count - i) as nat) {
                    Some(q) => u32s_parse(orig.skip(n1), count as nat) == Some(
                        (v@ + q.0, 4 * i + q.1),
                    ),
                    None => u32s_parse(orig.skip(n1), count as nat) is None,
                },
            decreases count - i,
        {
            let ghost rest_before = self.rest();
            let ghost v_before = v@;
            let x = match self.read_u32() {
                Ok(x) => x,
                Err(e) => {
                    proof {
                        assert(u32s_parse(rest_before, (count - i) as nat) is None);
                    }
                    self.pos = start;
                    proof {
                        assert(*self =~= *old(self));
                    }
                    return Err(e);
                },
            };
            v.push(x);
            i = i + 1;
            proof {
                lemma_uvarint_parse_len(orig);
                lemma_seq_skip_of_skip(orig, n1 + 4 * (i - 1), 4);
                assert(rest_before.skip(4) =~= orig.skip(n1 + 4 * i));
                match u32s_parse(self.rest(), (count - i) as nat) {
                    Some(q) => {
                        assert(u32s_parse(rest_before, (count - i + 1) as nat) == Some(
                            (seq![x] + q.0, q.1 + 4),
                        ));
                        assert(v_before + (seq![x] + q.0) =~= v@ + q.0);
                    },
                    None => {
                        assert(u32s_parse(rest_before, (count - i + 1) as nat) is None);
                    },
                }
            }
        }
        proof {
            assert(u32s_parse(self.rest(), 0) == Some((Seq::<u32>::empty(), 0int)));
            assert(v@ + Seq::<u32>::empty() =~= v@);
        }
        Ok(v)
    }

    /// Skip a compact array of UUIDs, keeping none of the values.
    pub fn skip_compact_uuids(&mut self) -> (r: Result<(), DecodeError>)
        ensures
            final(self).data == old(self).data,
            match r {
                Ok(()) => match spec_skip_uuids(old(self).rest()) {
                    Some(n) => {
                        &&& 0 <= n <= old(self).rest().len()
                        &&& final(self).pos == old(self).pos + n
                        &&& final(self).rest() == old(self).rest().skip(n)
                    },
                    None => false,
                },
                Err(_) => {
                    &&& spec_skip_uuids(old(self).rest()) is None
                    &&& *final(self) == *old(self)
                },
            },
    {
        let ghost orig = self.rest();
        let start = self.pos;
        let stored = match self.read_uvarint() {
            Ok(u) => u,
            Err(e) => {
                return Err(e);
            },
        };
        let ghost n1 = uvarint64_parse(orig).unwrap().1;
        let count: u64 = if stored == 0 {
            0
        } else {
            stored - 1
        };
        let mut i: u64 = 0;
        proof {
            lemma_uvarint_parse_len(orig);
            assert(orig.len() > 0);
        }
        while i < count
            invariant
                i <= count,
                self.data == old(self).data,
                uvarint64_parse(orig) == Some((stored as nat, n1)),
                orig == old(self).rest(),
                start == old(self).pos,
                start <= self.data@.len(),
                orig.len() == self.data@.len() - start,
                count == if stored == 0 { 0nat } else { (stored - 1) as nat },
                self.pos == start + n1 + 16 * i,
                self.pos <= self.data@.len(),
                self.rest() == orig.skip(n1 + 16 * i),
            decreases count - i,
        {
            let ghost rest_before = self.rest();
            match self.advance(16) {
                Ok(()) => {},
                Err(e) => {
                    proof {
                        assert(orig.len() == n1 + 16 * i + rest_before.len());
                        assert(16 * i + 16 <= 16 * count) by (nonlinear_arith)
                            requires i + 1 <= count;
                        assert(orig.len() < n1 + 16 * count);
                    }
                    self.pos = start;
                    proof {
                        assert(*self =~= *old(self));
                    }
                    return Err(e);
                },
            };
            i = i + 1;
            proof {
                lemma_uvarint_parse_len(orig);
                lemma_seq_skip_of_skip(orig, n1 + 16 * (i - 1), 16);
                assert(rest_before.skip(16) =~= orig.skip(n1 + 16 * i));
            }
        }
        proof {
            assert(orig.len() >= n1 + 16 * count);
        }
        Ok(())
    }
}

} // verus!

// Small helpers shared by the handlers.
use vstd::prelude::*;

verus! {

impl Cursor {
    /// Read a big-endian two's-complement `i8`.
    pub fn read_i8(&mut self) -> (r: Result<i8, DecodeError>)
        ensures
            final(self).data == old(self).data,
            match r {
                Ok(v) => {
                    &&& old(self).rest().len() >= 1
                    &&& v as int == twos_complement(old(self).rest()[0] as nat, 0x100)
                    &&& final(self).pos == old(self).pos + 1
                    &&& final(self).rest() == old(self).rest().skip(1)
                },
                Err(e) => {
                    &&& e == DecodeError::UnexpectedEnd
                    &&& old(self).rest().len() < 1
                    &&& *final(self) == *old(self)
                },
            },
    {
        match self.read_u8() {
            Ok(u) => if u < 0x80 {
                Ok(u as i8)
            } else {
                Ok(-((0xFFu8 - u) as i8) - 1)
            },
            Err(e) => Err(e),
        }
    }
}

/// Append a compact length: the count plus one as an unsigned varint.
pub fn put_compact_len(out: &mut Vec<u8>, n: usize)
    ensures
        final(out)@ == old(out)@ + uvarint_bytes(n as nat + 1),
{
    if (n as u64) < 0xFFFF_FFFF_FFFF_FFFF {
        out.write_uvarint((n as u64) + 1);
    } else {
        // The count is the largest 64-bit value; its successor needs the
        // full ten-byte encoding.
        proof {
            assert(uvarint_bytes(0x2) =~= seq![0x02u8]);
            assert(uvarint_bytes(0x100) =~= seq![0x80u8, 0x02u8]);
            assert(uvarint_bytes(0x8000) =~= seq![0x80u8, 0x80u8, 0x02u8]);
            assert(uvarint_bytes(0x40_0000) =~= seq![0x80u8, 0x80u8, 0x80u8, 0x02u8]);
            assert(uvarint_bytes(0x2000_0000) =~= seq![0x80u8, 0x80u8, 0x80u8, 0x80u8, 0x02u8]);
            assert(uvarint_bytes(0x10_0000_0000) =~= seq![
                0x80u8, 0x80u8, 0x80u8, 0x80u8, 0x80u8, 0x02u8,
            ]);
            assert(uvarint_bytes(0x800_0000_0000) =~= seq![
                0x80u8, 0x80u8, 0x80u8, 0x80u8, 0x80u8, 0x80u8, 0x02u8,
            ]);
            assert(uvarint_bytes(0x4_0000_0000_0000) =~= seq![
                0x80u8, 0x80u8, 0x80u8, 0x80u8, 0x80u8, 0x80u8, 0x80u8, 0x02u8,
            ]);
            assert(uvarint_bytes(0x200_0000_0000_0000) =~= seq![
                0x80u8, 0x80u8, 0x80u8, 0x80u8, 0x80u8, 0x80u8, 0x80u8, 0x80u8, 0x02u8,
            ]);
            assert(uvarint_bytes(0x1_0000_0000_0000_0000) =~= seq![
                0x80u8, 0x80u8, 0x80u8, 0x80u8, 0x80u8, 0x80u8, 0x80u8, 0x80u8, 0x80u8, 0x02u8,
            ]);
        }
        let mut k: u8 = 0;
        while k < 9
            invariant
                k <= 9,
                out@ == old(out)@ + seq![
                    0x80u8, 0x80u8, 0x80u8, 0x80u8, 0x80u8, 0x80u8, 0x80u8, 0x80u8, 0x80u8,
                ].take(k as int),
            decreases 9 - k,
        {
            put_u8(out, 0x80);
            k = k + 1;
            proof {
                assert(out@ =~= old(out)@ + seq![
                    0x80u8, 0x80u8, 0x80u8, 0x80u8, 0x80u8, 0x80u8, 0x80u8, 0x80u8, 0x80u8,
                ].take(k as int));
            }
        }
        put_u8(out, 0x02);
        proof {
            assert(out@ =~= old(out)@ + uvarint_bytes(n as nat + 1));
        }
    }
}

/// Compare two byte vectors for equality of their contents.
pub fn bytes_eq(a: &Vec<u8>, b: &Vec<u8>) -> (r: bool)
    ensures
        r == (a@ == b@),
{
    if a.len() != b.len() {
        return false;
    }
    let mut k: usize = 0;
    while k < a.len()
        invariant
            k <= a@.len(),
            a@.len() == b@.len(),
            forall|j: int| 0 <= j < k ==> a@[j] == b@[j],
        decreases a@.len() - k,
    {
        if a[k] != b[k] {
            return false;
        }
        k = k + 1;
    }
    proof {
        assert(a@ =~= b@);
    }
    true
}

} // verus!

// Compact byte strings: a stored length plus one, then the payload.
use vstd::prelude::*;

verus! {

/// The wire bytes of a compact byte string (or compact string): its
/// length plus one as an unsigned varint, then the payload bytes.
pub open spec fn compact_bytes(payload: Seq<u8>) -> Seq<u8> {
    uvarint_bytes(payload.len() + 1) + payload
}

/// Append a compact byte string.
pub fn put_compact_bytes(out: &mut Vec<u8>, v: &Vec<u8>)
    ensures
        final(out)@ == old(out)@ + compact_bytes(v@),
{
    put_compact_len(out, v.len());
    put_slice(out, v);
    proof {
        assert(out@ =~= old(out)@ + compact_bytes(v@));
    }
}

} // verus!

// A run of big-endian words.
use vstd::prelude::*;

verus! {

/// Append each word of `v` as four big-endian bytes.
pub fn put_u32s(out: &mut Vec<u8>, v: &Vec<u32>)
    ensures
        final(out)@ == old(out)@ + u32s_bytes(v@),
{
    let mut k: usize = 0;
    proof {
        assert(v@.skip(0) =~= v@);
    }
    while k < v.len()
        invariant
            k <= v@.len(),
            old(out)@ + u32s_bytes(v@) == out@ + u32s_bytes(v@.skip(k as int)),
        decreases v@.len() - k,
    {
        let ghost before = out@;
        let x = v[k];
        put_u32(out, x);
        k = k + 1;
        proof {
            lemma_seq_skip_of_skip(v@, k - 1, 1);
            assert(v@.skip(k - 1)[0] == v@[k - 1]);
            assert(u32s_bytes(v@.skip(k - 1)) == be_bytes(v@[k - 1] as nat, 4) + u32s_bytes(
                v@.skip(k as int),
            ));
            assert(before + (be_bytes(v@[k - 1] as nat, 4) + u32s_bytes(v@.skip(k as int))) =~= out@
                + u32s_bytes(v@.skip(k as int)));
        }
    }
    proof {
        assert(u32s_bytes(v@.skip(v@.len() as int)) == Seq::<u8>::empty());
        assert(out@ + Seq::<u8>::empty() =~= out@);
    }
}

} // verus!
