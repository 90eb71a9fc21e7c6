//! Sequential, offset-tracked binary cursor over an owned byte buffer.
//!
//! All multi-byte values are decoded in little-endian byte order from the
//! byte slice itself, independent of the host's native byte order. Every
//! read fails with a bounds error when it would run past the end of the
//! buffer; a failed read leaves the cursor where it was.

use crate::error::DecodeError;
use vstd::arithmetic::div_mod::{lemma_fundamental_div_mod, lemma_mod_multiples_vanish, lemma_small_mod};
use vstd::arithmetic::mul::{lemma_mul_inequality, lemma_mul_upper_bound};
use vstd::arithmetic::power2::{lemma2_to64, lemma2_to64_rest, lemma_pow2_adds, lemma_pow2_strictly_increases, pow2};
use vstd::prelude::*;
use vstd::slice::{slice_subrange, slice_to_vec};
use vstd::utf8::{decode_utf8, encode_utf8, encode_utf8_decode_utf8, encode_utf8_valid_utf8, valid_utf8};

verus! {

/// Little-endian value of a byte sequence: the first byte is the least
/// significant.
pub open spec fn le_nat(b: Seq<u8>) -> nat
    decreases b.len(),
{
    if b.len() == 0 {
        0
    } else {
        b[0] as nat + 256 * le_nat(b.skip(1))
    }
}

/// A little-endian byte sequence of length `n` encodes a value below
/// `2^(8n)`.
pub proof fn lemma_le_nat_bound(b: Seq<u8>)
    ensures
        le_nat(b) < pow2(8 * b.len()),
    decreases b.len(),
{
    lemma2_to64();
    if b.len() == 0 {
    } else {
        lemma_le_nat_bound(b.skip(1));
        lemma_pow2_adds(8, 8 * (b.len() - 1) as nat);
        assert(le_nat(b) <= 255 + 256 * (pow2(8 * (b.len() - 1) as nat) - 1));
    }
}

/// Reading `n` raw bytes at offset `i`: the bytes themselves and the new
/// offset, or nothing when fewer than `n` bytes remain.
pub open spec fn sp_read_bytes(b: Seq<u8>, i: int, n: int) -> Option<(Seq<u8>, int)> {
    if 0 <= i && 0 <= n && i + n <= b.len() {
        Some((b.subrange(i, i + n), i + n))
    } else {
        None
    }
}

/// Reading an `n`-byte little-endian unsigned value at offset `i`.
pub open spec fn sp_read_le(b: Seq<u8>, i: int, n: int) -> Option<(nat, int)> {
    if 0 <= i && 0 <= n && i + n <= b.len() {
        Some((le_nat(b.subrange(i, i + n)), i + n))
    } else {
        None
    }
}

/// Two's-complement reinterpretation of a 16-bit unsigned value.
pub open spec fn i16_of(v: nat) -> int {
    if v < 0x8000 {
        v as int
    } else {
        v - 0x10000
    }
}

/// Two's-complement reinterpretation of a 32-bit unsigned value.
pub open spec fn i32_of(v: nat) -> int {
    if v < 0x80000000 {
        v as int
    } else {
        v - 0x100000000
    }
}

/// Two's-complement reinterpretation of a 64-bit unsigned value.
pub open spec fn i64_of(v: nat) -> int {
    if v < 0x8000000000000000 {
        v as int
    } else {
        v - 0x10000000000000000
    }
}

/// Two's-complement reinterpretation of a 128-bit unsigned value.
pub open spec fn i128_of(v: nat) -> int {
    if v < 0x80000000000000000000000000000000 {
        v as int
    } else {
        v - 0x100000000000000000000000000000000
    }
}

/// Whether a ULEB128 encoding starting at the head of `b` reaches a
/// final byte (high bit clear) before the sequence runs out.
pub open spec fn uleb_terminated(b: Seq<u8>) -> bool
    decreases b.len(),
{
    if b.len() == 0 {
        false
    } else if b[0] < 128 {
        true
    } else {
        uleb_terminated(b.skip(1))
    }
}

/// Number of bytes the ULEB128 encoding at the head of `b` occupies.
pub open spec fn uleb_count(b: Seq<u8>) -> int
    decreases b.len(),
{
    if b.len() == 0 {
        0
    } else if b[0] < 128 {
        1
    } else {
        1 + uleb_count(b.skip(1))
    }
}

/// The unbounded value of the ULEB128 encoding at the head of `b`:
/// 7 payload bits per byte, least-significant group first.
pub open spec fn uleb_value(b: Seq<u8>) -> nat
    decreases b.len(),
{
    if b.len() == 0 {
        0
    } else if b[0] < 128 {
        b[0] as nat
    } else {
        (b[0] - 128) as nat + 128 * uleb_value(b.skip(1))
    }
}

/// Reading a ULEB128 value at offset `i`: the decoded value truncated
/// to 64 bits, and the new offset; nothing when the buffer ends before
/// a final byte appears.
pub open spec fn sp_read_uleb(b: Seq<u8>, i: int) -> Option<(u64, int)> {
    if 0 <= i <= b.len() && uleb_terminated(b.skip(i)) {
        Some(
            (
                (uleb_value(b.skip(i)) % 0x10000000000000000) as u64,
                i + uleb_count(b.skip(i)),
            ),
        )
    } else {
        None
    }
}

/// The canonical ULEB128 encoding of `n`.
pub open spec fn uleb_encoding(n: nat) -> Seq<u8>
    decreases n,
{
    if n < 128 {
        seq![n as u8]
    } else {
        seq![(128 + n % 128) as u8] + uleb_encoding(n / 128)
    }
}

/// One step of ULEB128 accumulation: adding the payload group at
/// position `k` keeps the running value equal, modulo `2^64`, to the
/// full value with the remaining groups still pending.
proof fn lemma_uleb_step(val: nat, payload: nat, k: nat, rest: nat, val2: nat)
    requires
        payload < 128,
        k <= 9 ==> val < pow2(7 * k),
        val < 0x10000000000000000,
        val2 == if k <= 8 {
            val + payload * pow2(7 * k)
        } else if k == 9 {
            val + (payload % 2) * 0x8000000000000000
        } else {
            val
        },
    ensures
        val2 < 0x10000000000000000,
        k <= 8 ==> val2 < pow2(7 * (k + 1)),
        (val + pow2(7 * k) * (payload + 128 * rest)) % 0x10000000000000000 == (val2 + pow2(
            7 * (k + 1),
        ) * rest) % 0x10000000000000000,
{
    let m: int = 0x10000000000000000;
    let p = pow2(7 * k);
    let q = pow2(7 * (k + 1));
    lemma2_to64();
    lemma2_to64_rest();
    lemma_pow2_adds(7 * k, 7);
    assert(q == p * 128);
    if k <= 8 {
        assert(val2 == val + payload * p);
        lemma_mul_inequality(payload as int, 127, p as int);
        assert(payload * p <= 127 * p);
        assert(val2 < 128 * p);
        if 7 * (k + 1) < 64 {
            lemma_pow2_strictly_increases(7 * (k + 1), 64);
        }
        assert(val2 < 0x10000000000000000);
        assert(p * (payload + 128 * rest) == payload * p + (p * 128) * rest) by (nonlinear_arith);
        assert(val + p * (payload + 128 * rest) == val2 + q * rest);
    } else if k == 9 {
        assert(p == pow2(63));
        assert(p == 0x8000000000000000);
        let h = payload / 2;
        let r2 = payload % 2;
        lemma_fundamental_div_mod(payload as int, 2);
        assert(val2 == val + r2 * 0x8000000000000000);
        assert(val2 < m);
        lemma_pow2_adds(64, 6);
        assert(q == pow2(64) * pow2(6));
        assert(q == m * 64);
        assert(p * (payload + 128 * rest) == (2 * h + r2) * p + (p * 128) * rest)
            by (nonlinear_arith)
            requires
                payload == 2 * h + r2,
                q == p * 128,
        ;
        assert((2 * h + r2) * p == m * h + r2 * p) by (nonlinear_arith)
            requires
                p == 0x8000000000000000,
                m == 0x10000000000000000,
        ;
        assert(val + p * (payload + 128 * rest) == m * (h + 64 * rest) + val2)
            by (nonlinear_arith)
            requires
                p * (payload + 128 * rest) == m * h + r2 * p + (m * 64) * rest,
                val2 == val + r2 * p,
        ;
        lemma_mod_multiples_vanish(h as int + 64 * (rest as int), val2 as int, m);
        assert((val2 + q * rest) == m * (64 * rest) + val2) by (nonlinear_arith)
            requires
                q == m * 64,
        ;
        lemma_mod_multiples_vanish(64 * (rest as int), val2 as int, m);
    } else {
        assert(val2 == val);
        lemma_pow2_adds(64, (7 * k - 64) as nat);
        let c = pow2((7 * k - 64) as nat);
        assert(p == pow2(64) * c);
        lemma_pow2_adds(64, (7 * k + 7 - 64) as nat);
        lemma_pow2_adds((7 * k - 64) as nat, 7);
        assert(q == pow2(64) * (c * 128));
        assert(val + p * (payload + 128 * rest) == m * (c * (payload + 128 * rest)) + val)
            by (nonlinear_arith)
            requires
                p == m * c,
        ;
        lemma_mod_multiples_vanish((c as int) * (payload as int + 128 * (rest as int)), val as int, m);
        assert(val2 + q * rest == m * ((c * 128) * rest) + val) by (nonlinear_arith)
            requires
                q == m * (c * 128),
                val2 == val,
        ;
        lemma_mod_multiples_vanish(((c as int) * 128) * (rest as int), val as int, m);
    }
}

/// Sequential reader over an owned byte buffer with a tracked offset.
pub struct BinaryReader {
    data: Vec<u8>,
    offs: usize,
}

impl BinaryReader {
    /// The offset never exceeds the buffer length.
    pub closed spec fn wf(self) -> bool {
        self.offs <= self.data@.len()
    }

    /// The underlying byte buffer.
    pub closed spec fn buf(self) -> Seq<u8> {
        self.data@
    }

    /// The current read offset.
    pub closed spec fn pos(self) -> int {
        self.offs as int
    }

    /// Constructs a reader at offset 0 over a fully-loaded buffer.
    pub fn new(data: Vec<u8>) -> (r: Self)
        ensures
            r.wf(),
            r.buf() == data@,
            r.pos() == 0,
    {
        BinaryReader { data, offs: 0 }
    }

    /// Returns a copy of the next `len` bytes and advances the offset,
    /// or a bounds error (cursor unmoved) when fewer bytes remain.
    pub fn read(&mut self, len: usize) -> (r: Result<Vec<u8>, DecodeError>)
        requires
            old(self).wf(),
        ensures
            final(self).wf(),
            final(self).buf() == old(self).buf(),
            match sp_read_bytes(old(self).buf(), old(self).pos(), len as int) {
                Some((v, o)) => r matches Ok(out) && out@ == v && final(self).pos() == o,
                None => r == Err::<Vec<u8>, DecodeError>(DecodeError::Bounds) && final(self).pos()
                    == old(self).pos(),
            },
    {
        if len > self.data.len() - self.offs {
            return Err(DecodeError::Bounds);
        }
        let s = slice_subrange(self.data.as_slice(), self.offs, self.offs + len);
        let v = slice_to_vec(s);
        self.offs = self.offs + len;
        Ok(v)
    }

    /// Returns the next byte and advances the offset by 1, or a bounds
    /// error when the buffer is exhausted.
    pub fn read_u8(&mut self) -> (r: Result<u8, DecodeError>)
        requires
            old(self).wf(),
        ensures
            final(self).wf(),
            final(self).buf() == old(self).buf(),
            match sp_read_le(old(self).buf(), old(self).pos(), 1) {
                Some((v, o)) => r == Ok::<u8, DecodeError>(v as u8) && v < 256 && final(self).pos() == o,
                None => r == Err::<u8, DecodeError>(DecodeError::Bounds) && final(self).pos() == old(
                    self,
                ).pos(),
            },
    {
        if self.offs >= self.data.len() {
            return Err(DecodeError::Bounds);
        }
        let b = self.data[self.offs];
        proof {
            let s = self.buf().subrange(self.pos(), self.pos() + 1);
            assert(s.skip(1) =~= Seq::<u8>::empty());
            assert(le_nat(Seq::<u8>::empty()) == 0);
            assert(s[0] == b);
            assert(le_nat(s) == b as nat);
        }
        self.offs = self.offs + 1;
        Ok(b)
    }

    /// Reads an `n`-byte (`n <= 16`) little-endian unsigned value.
    fn read_le(&mut self, n: usize) -> (r: Result<u128, DecodeError>)
        requires
            old(self).wf(),
            n <= 16,
        ensures
            final(self).wf(),
            final(self).buf() == old(self).buf(),
            match sp_read_le(old(self).buf(), old(self).pos(), n as int) {
                Some((v, o)) => r == Ok::<u128, DecodeError>(v as u128) && final(self).pos() == o && v
                    < pow2(8 * n as nat),
                None => r == Err::<u128, DecodeError>(DecodeError::Bounds) && final(self).pos() == old(
                    self,
                ).pos(),
            },
    {
        if n > self.data.len() - self.offs {
            return Err(DecodeError::Bounds);
        }
        let ghost s = self.buf().subrange(self.pos(), self.pos() + n as int);
        let mut val: u128 = 0;
        let mut j: usize = n;
        proof {
            assert(s.skip(n as int) =~= Seq::<u8>::empty());
            assert(le_nat(Seq::<u8>::empty()) == 0);
            lemma2_to64();
        }
        while j > 0
            invariant
                j <= n,
                n <= 16,
                self.wf(),
                self.offs + n <= self.data@.len(),
                s == self.buf().subrange(self.pos(), self.pos() + n as int),
                val as nat == le_nat(s.skip(j as int)),
                val < pow2(8 * (n - j) as nat),
            decreases j,
        {
            j = j - 1;
            assert(self.offs + j < self.data.len());
            let b = self.data[self.offs + j];
            proof {
                assert(s.skip(j as int).skip(1) =~= s.skip(j as int + 1));
                assert(s.skip(j as int)[0] == self.buf()[self.pos() + j]);
                assert(le_nat(s.skip(j as int)) == b as nat + 256 * le_nat(s.skip(j as int + 1)));
                lemma_pow2_adds(8 * (n - j - 1) as nat, 8);
                lemma2_to64();
                assert(256 * (val as nat) + 255 < 256 * pow2(8 * (n - j - 1) as nat));
                if 8 * (n - j) < 128 {
                    lemma_pow2_strictly_increases(8 * (n - j) as nat, 128);
                }
                lemma_pow2_adds(64, 64);
                assert(pow2(128) == 0x100000000000000000000000000000000);
            }
            val = val * 256 + b as u128;
        }
        proof {
            assert(s.skip(0) =~= s);
            lemma_le_nat_bound(s);
        }
        self.offs = self.offs + n;
        Ok(val)
    }

    /// Reads a 16-bit little-endian unsigned integer.
    pub fn read_u16(&mut self) -> (r: Result<u16, DecodeError>)
        requires
            old(self).wf(),
        ensures
            final(self).wf(),
            final(self).buf() == old(self).buf(),
            match sp_read_le(old(self).buf(), old(self).pos(), 2) {
                Some((v, o)) => r == Ok::<u16, DecodeError>(v as u16) && v < 0x10000 && final(self).pos() == o,
                None => r == Err::<u16, DecodeError>(DecodeError::Bounds) && final(self).pos() == old(
                    self,
                ).pos(),
            },
    {
        proof {
            lemma2_to64();
        }
        match self.read_le(2) {
            Ok(v) => Ok(v as u16),
            Err(e) => Err(e),
        }
    }

    /// Reads a 16-bit little-endian signed integer (two's complement).
    pub fn read_i16(&mut self) -> (r: Result<i16, DecodeError>)
        requires
            old(self).wf(),
        ensures
            final(self).wf(),
            final(self).buf() == old(self).buf(),
            match sp_read_le(old(self).buf(), old(self).pos(), 2) {
                Some((v, o)) => r == Ok::<i16, DecodeError>(i16_of(v) as i16) && v < 0x10000 && final(self).pos() == o,
                None => r == Err::<i16, DecodeError>(DecodeError::Bounds) && final(self).pos() == old(
                    self,
                ).pos(),
            },
    {
        proof {
            lemma2_to64();
        }
        match self.read_le(2) {
            Ok(v) => {
                if v < 0x8000 {
                    Ok(v as i16)
                } else {
                    Ok((v as i32 - 0x10000) as i16)
                }
            },
            Err(e) => Err(e),
        }
    }

    /// Reads a 32-bit little-endian unsigned integer.
    pub fn read_u32(&mut self) -> (r: Result<u32, DecodeError>)
        requires
            old(self).wf(),
        ensures
            final(self).wf(),
            final(self).buf() == old(self).buf(),
            match sp_read_le(old(self).buf(), old(self).pos(), 4) {
                Some((v, o)) => r == Ok::<u32, DecodeError>(v as u32) && v < 0x100000000 && final(self).pos() == o,
                None => r == Err::<u32, DecodeError>(DecodeError::Bounds) && final(self).pos() == old(
                    self,
                ).pos(),
            },
    {
        proof {
            lemma2_to64();
        }
        match self.read_le(4) {
            Ok(v) => Ok(v as u32),
            Err(e) => Err(e),
        }
    }

    /// Reads a 32-bit little-endian signed integer (two's complement).
    pub fn read_i32(&mut self) -> (r: Result<i32, DecodeError>)
        requires
            old(self).wf(),
        ensures
            final(self).wf(),
            final(self).buf() == old(self).buf(),
            match sp_read_le(old(self).buf(), old(self).pos(), 4) {
                Some((v, o)) => r == Ok::<i32, DecodeError>(i32_of(v) as i32) && v < 0x100000000 && final(self).pos() == o,
                None => r == Err::<i32, DecodeError>(DecodeError::Bounds) && final(self).pos() == old(
                    self,
                ).pos(),
            },
    {
        proof {
            lemma2_to64();
        }
        match self.read_le(4) {
            Ok(v) => {
                if v < 0x80000000 {
                    Ok(v as i32)
                } else {
                    Ok((v as i64 - 0x100000000) as i32)
                }
            },
            Err(e) => Err(e),
        }
    }

    /// Reads a 64-bit little-endian unsigned integer.
    pub fn read_u64(&mut self) -> (r: Result<u64, DecodeError>)
        requires
            old(self).wf(),
        ensures
            final(self).wf(),
            final(self).buf() == old(self).buf(),
            match sp_read_le(old(self).buf(), old(self).pos(), 8) {
                Some((v, o)) => r == Ok::<u64, DecodeError>(v as u64) && v < 0x10000000000000000 && final(self).pos() == o,
                None => r == Err::<u64, DecodeError>(DecodeError::Bounds) && final(self).pos() == old(
                    self,
                ).pos(),
            },
    {
        proof {
            lemma2_to64();
            lemma2_to64_rest();
        }
        match self.read_le(8) {
            Ok(v) => Ok(v as u64),
            Err(e) => Err(e),
        }
    }

    /// Reads a 64-bit little-endian signed integer (two's complement).
    pub fn read_i64(&mut self) -> (r: Result<i64, DecodeError>)
        requires
            old(self).wf(),
        ensures
            final(self).wf(),
            final(self).buf() == old(self).buf(),
            match sp_read_le(old(self).buf(), old(self).pos(), 8) {
                Some((v, o)) => r == Ok::<i64, DecodeError>(i64_of(v) as i64) && v < 0x10000000000000000 && final(self).pos() == o,
                None => r == Err::<i64, DecodeError>(DecodeError::Bounds) && final(self).pos() == old(
                    self,
                ).pos(),
            },
    {
        proof {
            lemma2_to64();
            lemma2_to64_rest();
        }
        match self.read_le(8) {
            Ok(v) => {
                if v < 0x8000000000000000 {
                    Ok(v as i64)
                } else {
                    Ok((v as i128 - 0x10000000000000000) as i64)
                }
            },
            Err(e) => Err(e),
        }
    }

    /// Reads a 128-bit little-endian unsigned integer.
    pub fn read_u128(&mut self) -> (r: Result<u128, DecodeError>)
        requires
            old(self).wf(),
        ensures
            final(self).wf(),
            final(self).buf() == old(self).buf(),
            match sp_read_le(old(self).buf(), old(self).pos(), 16) {
                Some((v, o)) => r == Ok::<u128, DecodeError>(v as u128) && final(self).pos() == o,
                None => r == Err::<u128, DecodeError>(DecodeError::Bounds) && final(self).pos() == old(
                    self,
                ).pos(),
            },
    {
        self.read_le(16)
    }

    /// Reads a 128-bit little-endian signed integer (two's complement).
    pub fn read_i128(&mut self) -> (r: Result<i128, DecodeError>)
        requires
            old(self).wf(),
        ensures
            final(self).wf(),
            final(self).buf() == old(self).buf(),
            match sp_read_le(old(self).buf(), old(self).pos(), 16) {
                Some((v, o)) => r == Ok::<i128, DecodeError>(i128_of(v) as i128) && final(self).pos()
                    == o,
                None => r == Err::<i128, DecodeError>(DecodeError::Bounds) && final(self).pos() == old(
                    self,
                ).pos(),
            },
    {
        proof {
            lemma_pow2_adds(64, 64);
            lemma2_to64();
        }
        match self.read_le(16) {
            Ok(v) => {
                if v < 0x80000000000000000000000000000000 {
                    Ok(v as i128)
                } else {
                    let m = v - 0x80000000000000000000000000000000;
                    let r = -1 - ((0x7fffffffffffffffffffffffffffffff - m) as i128);
                    Ok(r)
                }
            },
            Err(e) => Err(e),
        }
    }
}

/// The result of `String::from_utf8_lossy` on bytes that are not valid
/// UTF-8: invalid sequences replaced by U+FFFD. A function of the bytes
/// alone; named here because spelling out the substitution would mean
/// restating the whole algorithm.
pub uninterp spec fn utf8_lossy(b: Seq<u8>) -> Seq<char>;

/// The character sequence `String::from_utf8_lossy` produces for the
/// given bytes: the decoded text when the bytes are valid UTF-8,
/// otherwise the replacement-substituted text named by `utf8_lossy`.
pub open spec fn lossy_chars(b: Seq<u8>) -> Seq<char> {
    if valid_utf8(b) {
        decode_utf8(b)
    } else {
        utf8_lossy(b)
    }
}

/// Relies on `String::from_utf8_lossy` (std): valid UTF-8 decodes to
/// its character sequence; invalid input has U+FFFD substituted for
/// each invalid sequence, a result that depends on the bytes alone.
#[verifier::external_body]
fn utf8_lossy_decode(b: &[u8]) -> (r: String)
    ensures
        r@ == lossy_chars(b@),
        !valid_utf8(b@) ==> r@ == utf8_lossy(b@),
{
    String::from_utf8_lossy(b).into_owned()
}

/// Reading a tagged string at offset `i`: one presence byte; `0x0b`
/// announces a ULEB128 length and that many bytes of lossily-decoded
/// UTF-8 text, anything else is the empty string.
pub open spec fn sp_read_tagged_str(b: Seq<u8>, i: int) -> Option<(Seq<char>, int)> {
    match sp_read_le(b, i, 1) {
        None => None,
        Some((p, i1)) => if p != 0x0b {
            Some((Seq::<char>::empty(), i1))
        } else {
            match sp_read_uleb(b, i1) {
                None => None,
                Some((len, i2)) => if i2 + len <= b.len() {
                    Some((lossy_chars(b.subrange(i2, i2 + len as int)), i2 + len as int))
                } else {
                    None
                },
            }
        },
    }
}

/// The tagged-string encoding of `s`: presence byte `0x0b`, the ULEB128
/// length of the UTF-8 encoding, then the UTF-8 bytes themselves.
pub open spec fn tagged_encoding(s: Seq<char>) -> Seq<u8> {
    seq![0x0bu8] + uleb_encoding(encode_utf8(s).len()) + encode_utf8(s)
}

proof fn lemma_le_nat_single(b: Seq<u8>, i: int)
    requires
        0 <= i < b.len(),
    ensures
        le_nat(b.subrange(i, i + 1)) == b[i],
{
    let s = b.subrange(i, i + 1);
    assert(s.skip(1) =~= Seq::<u8>::empty());
    assert(le_nat(Seq::<u8>::empty()) == 0);
    assert(s[0] == b[i]);
}

impl BinaryReader {
    /// Decodes an unsigned LEB128 integer: 7 payload bits per byte,
    /// least-significant group first, continuation signalled by the
    /// high bit. Groups beyond 64 bits are truncated (the value is
    /// taken modulo `2^64`). Fails with a bounds error (cursor unmoved)
    /// when the buffer ends before a final byte.
    pub fn read_uleb128(&mut self) -> (r: Result<u64, DecodeError>)
        requires
            old(self).wf(),
        ensures
            final(self).wf(),
            final(self).buf() == old(self).buf(),
            match sp_read_uleb(old(self).buf(), old(self).pos()) {
                Some((v, o)) => r == Ok::<u64, DecodeError>(v) && final(self).pos() == o,
                None => r == Err::<u64, DecodeError>(DecodeError::Bounds) && final(self).pos()
                    == old(self).pos(),
            },
    {
        let ghost b = self.buf();
        let start = self.offs;
        let mut j: usize = self.offs;
        let mut val: u64 = 0;
        let mut mult: u64 = 1;
        proof {
            lemma2_to64();
        }
        loop
            invariant
                self == old(self),
                self.wf(),
                b == self.buf(),
                start == self.pos(),
                start <= j <= b.len(),
                forall|i: int| start <= i < j ==> b[i] >= 128,
                j - start <= 9 ==> mult == pow2((7 * (j - start)) as nat),
                j - start <= 9 ==> (val as nat) < pow2((7 * (j - start)) as nat),
                uleb_terminated(b.skip(start as int)) == uleb_terminated(b.skip(j as int)),
                uleb_count(b.skip(start as int)) == j - start + uleb_count(b.skip(j as int)),
                uleb_value(b.skip(start as int)) % 0x10000000000000000 == (val as nat + pow2(
                    (7 * (j - start)) as nat,
                ) * uleb_value(b.skip(j as int))) % 0x10000000000000000,
            decreases b.len() - j,
        {
            if j >= self.data.len() {
                proof {
                    assert(b.skip(j as int) =~= Seq::<u8>::empty());
                    assert(!uleb_terminated(Seq::<u8>::empty()));
                }
                return Err(DecodeError::Bounds);
            }
            let byte = self.data[j];
            let payload: u64 = if byte >= 128 {
                (byte - 128) as u64
            } else {
                byte as u64
            };
            let ghost k = (j - start) as nat;
            let ghost suffix = b.skip(j as int);
            let ghost restv = uleb_value(b.skip(j as int + 1));
            proof {
                assert(suffix.skip(1) =~= b.skip(j as int + 1));
                assert(suffix[0] == b[j as int]);
                lemma2_to64();
                lemma2_to64_rest();
                if k >= 10 {
                    assert((val as nat) < pow2(64)) by {
                        lemma2_to64();
                        lemma2_to64_rest();
                    }
                }
            }
            let old_val = val;
            if j - start <= 8 {
                proof {
                    lemma_mul_upper_bound(payload as int, 127, mult as int, pow2(56) as int);
                    if 7 * k < 56 {
                        lemma_pow2_strictly_increases(7 * k, 56);
                    }
                }
                val = val + payload * mult;
            } else if j - start == 9 {
                if payload % 2 == 1 {
                    val = val + 0x8000000000000000;
                }
            }
            proof {
                lemma_uleb_step(
                    old_val as nat,
                    payload as nat,
                    k,
                    if byte >= 128 {
                        restv
                    } else {
                        0
                    },
                    val as nat,
                );
            }
            if byte < 128 {
                proof {
                    assert(uleb_terminated(suffix));
                    assert(uleb_count(suffix) == 1);
                    assert(uleb_value(suffix) == payload as nat + 128 * 0);
                    lemma_small_mod(val as nat, 0x10000000000000000);
                }
                self.offs = j + 1;
                return Ok(val);
            }
            proof {
                assert(uleb_terminated(suffix) == uleb_terminated(b.skip(j as int + 1)));
                assert(uleb_count(suffix) == 1 + uleb_count(b.skip(j as int + 1)));
                assert(uleb_value(suffix) == (payload as nat) + 128 * restv);
            }
            j = j + 1;
            if j - start <= 9 {
                proof {
                    lemma_pow2_adds((7 * (j - 1 - start)) as nat, 7);
                    lemma2_to64();
                    lemma2_to64_rest();
                }
                mult = mult * 128;
            }
        }
    }

    /// Reads a tagged string: a presence byte, then (when the byte is
    /// `0x0b`) a ULEB128 length and that many bytes decoded as UTF-8
    /// with U+FFFD substituted for invalid sequences. Any other
    /// presence byte yields the empty string and consumes one byte.
    pub fn read_str_uleb128(&mut self) -> (r: Result<String, DecodeError>)
        requires
            old(self).wf(),
        ensures
            final(self).wf(),
            final(self).buf() == old(self).buf(),
            match sp_read_tagged_str(old(self).buf(), old(self).pos()) {
                Some((s, o)) => r matches Ok(v) && v@ == s && final(self).pos() == o,
                None => r == Err::<String, DecodeError>(DecodeError::Bounds) && final(self).pos()
                    == old(self).pos(),
            },
    {
        let start = self.offs;
        let presence = match self.read_u8() {
            Ok(p) => p,
            Err(e) => {
                return Err(e);
            },
        };
        if presence != 0x0b {
            return Ok(String::new());
        }
        let len = match self.read_uleb128() {
            Ok(l) => l,
            Err(e) => {
                self.offs = start;
                return Err(e);
            },
        };
        if len > (self.data.len() - self.offs) as u64 {
            self.offs = start;
            return Err(DecodeError::Bounds);
        }
        let bytes = match self.read(len as usize) {
            Ok(v) => v,
            Err(e) => {
                self.offs = start;
                return Err(e);
            },
        };
        let s = utf8_lossy_decode(bytes.as_slice());
        Ok(s)
    }
}

/// Encodes `n` as ULEB128: the canonical encoding that
/// `read_uleb128` decodes back to `n`.
pub fn encode_uleb128(n: u64) -> (r: Vec<u8>)
    ensures
        r@ == uleb_encoding(n as nat),
{
    let mut out: Vec<u8> = Vec::new();
    let mut m: u64 = n;
    while m >= 128
        invariant
            uleb_encoding(n as nat) == out@ + uleb_encoding(m as nat),
        decreases m,
    {
        let ghost m0 = m as nat;
        out.push((m % 128 + 128) as u8);
        m = m / 128;
        proof {
            assert(uleb_encoding(m0) == seq![(128 + m0 % 128) as u8] + uleb_encoding(m0 / 128));
            assert(out@ + uleb_encoding(m as nat) =~= out@.drop_last() + uleb_encoding(m0));
        }
    }
    out.push(m as u8);
    proof {
        assert(uleb_encoding(m as nat) == seq![m as u8]);
        assert(out@ =~= out@.drop_last() + uleb_encoding(m as nat));
    }
    out
}

/// Encodes a string in the tagged-string format: presence byte `0x0b`,
/// ULEB128 byte length, then the UTF-8 bytes.
pub fn encode_tagged_string(s: &str) -> (r: Vec<u8>)
    ensures
        r@ == tagged_encoding(s@),
{
    let bytes = s.as_bytes();
    let mut out: Vec<u8> = Vec::new();
    out.push(0x0b);
    let mut lenenc = encode_uleb128(bytes.len() as u64);
    out.append(&mut lenenc);
    let mut bv = slice_to_vec(bytes);
    out.append(&mut bv);
    proof {
        assert(out@ =~= tagged_encoding(s@));
    }
    out
}

/// ULEB128 round-trip: decoding the encoding of any 64-bit value,
/// whatever bytes follow it, yields the value back and consumes
/// exactly the bytes the encoder produced.
pub proof fn lemma_uleb128_round_trip(n: nat, rest: Seq<u8>)
    requires
        n < 0x10000000000000000,
    ensures
        ({
            let enc = uleb_encoding(n);
            &&& uleb_terminated(enc + rest)
            &&& uleb_count(enc + rest) == enc.len()
            &&& uleb_value(enc + rest) == n
            &&& sp_read_uleb(enc + rest, 0) == Some((n as u64, enc.len() as int))
        }),
    decreases n,
{
    let enc = uleb_encoding(n);
    let b = enc + rest;
    assert(b.skip(0) =~= b);
    if n < 128 {
        assert(enc == seq![n as u8]);
        assert(b[0] == n as u8);
        assert(b[0] < 128);
        lemma_small_mod(n, 0x10000000000000000);
    } else {
        let b0 = (128 + n % 128) as u8;
        let tail = uleb_encoding(n / 128);
        lemma_uleb128_round_trip(n / 128, rest);
        assert(enc == seq![b0] + tail);
        assert(b.skip(1) =~= tail + rest);
        assert(b[0] == b0);
        assert(b0 >= 128);
        assert(uleb_terminated(b));
        assert(uleb_count(b) == 1 + uleb_count(tail + rest));
        assert(uleb_value(b) == (b0 - 128) as nat + 128 * uleb_value(tail + rest));
        lemma_fundamental_div_mod(n as int, 128);
        assert(uleb_value(b) == n);
        lemma_small_mod(n, 0x10000000000000000);
    }
}

/// Tagged-string round-trip: decoding the tagged encoding of any
/// string, whatever bytes follow it, yields the original characters
/// and consumes exactly the encoded bytes.
pub proof fn lemma_tagged_string_round_trip(s: Seq<char>, rest: Seq<u8>)
    requires
        encode_utf8(s).len() < 0x10000000000000000,
    ensures
        ({
            let enc = tagged_encoding(s);
            sp_read_tagged_str(enc + rest, 0) == Some((s, enc.len() as int))
        }),
{
    let bytes = encode_utf8(s);
    let lenenc = uleb_encoding(bytes.len());
    let enc = tagged_encoding(s);
    let b = enc + rest;
    assert(b[0] == 0x0b);
    lemma_le_nat_single(b, 0);
    assert(sp_read_le(b, 0, 1) == Some((0x0b as nat, 1int)));
    lemma_uleb128_round_trip(bytes.len(), bytes + rest);
    let lb = lenenc + (bytes + rest);
    assert(b.skip(1) =~= lb);
    assert(lb.skip(0) =~= lb);
    assert(uleb_terminated(b.skip(1)));
    assert(uleb_count(b.skip(1)) == lenenc.len());
    assert(uleb_value(b.skip(1)) == bytes.len());
    lemma_small_mod(bytes.len(), 0x10000000000000000);
    let i2 = 1 + lenenc.len() as int;
    assert(sp_read_uleb(b, 1) == Some((bytes.len() as u64, i2)));
    assert(b.subrange(i2, i2 + bytes.len() as int) =~= bytes);
    encode_utf8_valid_utf8(s);
    encode_utf8_decode_utf8(s);
    assert(lossy_chars(bytes) == s);
    assert(i2 + bytes.len() == enc.len());
}

/// Decoding a tagged string whose presence byte is not `0x0b` yields
/// the empty string and consumes exactly one byte.
pub proof fn lemma_tagged_string_absent(b: Seq<u8>, i: int)
    requires
        0 <= i < b.len(),
        b[i] != 0x0b,
    ensures
        sp_read_tagged_str(b, i) == Some((Seq::<char>::empty(), i + 1)),
{
    lemma_le_nat_single(b, i);
}


/// Truncating the buffer after a fixed-width read leaves the read
/// unchanged; truncating it mid-read makes the read fail.
pub proof fn lemma_read_le_trunc(b: Seq<u8>, m: int, i: int, n: int)
    requires
        0 <= m <= b.len(),
        0 <= i <= m,
        0 <= n,
    ensures
        match sp_read_le(b, i, n) {
            Some((v, o)) => sp_read_le(b.take(m), i, n) == (if o <= m {
                Some((v, o))
            } else {
                None
            }),
            None => sp_read_le(b.take(m), i, n) == None::<(nat, int)>,
        },
{
    if i + n <= m {
        assert(b.take(m).subrange(i, i + n) =~= b.subrange(i, i + n));
    }
}

/// The same for raw byte reads.
pub proof fn lemma_read_bytes_trunc(b: Seq<u8>, m: int, i: int, n: int)
    requires
        0 <= m <= b.len(),
        0 <= i <= m,
        0 <= n,
    ensures
        match sp_read_bytes(b, i, n) {
            Some((v, o)) => sp_read_bytes(b.take(m), i, n) == (if o <= m {
                Some((v, o))
            } else {
                None
            }),
            None => sp_read_bytes(b.take(m), i, n) == None::<(Seq<u8>, int)>,
        },
{
    if i + n <= m {
        assert(b.take(m).subrange(i, i + n) =~= b.subrange(i, i + n));
    }
}

/// How a ULEB128 encoding behaves under truncation of its suffix.
proof fn lemma_uleb_take(s: Seq<u8>, l: int)
    requires
        0 <= l <= s.len(),
    ensures
        uleb_terminated(s) && uleb_count(s) <= l ==> uleb_terminated(s.take(l)) && uleb_count(
            s.take(l),
        ) == uleb_count(s) && uleb_value(s.take(l)) == uleb_value(s),
        uleb_terminated(s) && uleb_count(s) > l ==> !uleb_terminated(s.take(l)),
        !uleb_terminated(s) ==> !uleb_terminated(s.take(l)),
    decreases l,
{
    if l == 0 {
        assert(s.take(0) =~= Seq::<u8>::empty());
        if uleb_terminated(s) {
            lemma_uleb_count_pos(s);
        }
    } else {
        assert(s.take(l)[0] == s[0]);
        if s[0] < 128 {
        } else {
            lemma_uleb_take(s.skip(1), l - 1);
            assert(s.take(l).skip(1) =~= s.skip(1).take(l - 1));
            if uleb_terminated(s) {
                lemma_uleb_count_pos(s.skip(1));
            }
        }
    }
}

/// A terminated encoding occupies at least one byte.
pub(crate) proof fn lemma_uleb_count_pos(s: Seq<u8>)
    requires
        uleb_terminated(s),
    ensures
        uleb_count(s) >= 1,
    decreases s.len(),
{
    if s.len() > 0 && s[0] >= 128 {
        lemma_uleb_count_pos(s.skip(1));
    }
}

/// Truncating the buffer after a ULEB128 read leaves the read
/// unchanged; truncating it mid-read makes the read fail.
pub proof fn lemma_read_uleb_trunc(b: Seq<u8>, m: int, i: int)
    requires
        0 <= m <= b.len(),
        0 <= i <= m,
    ensures
        match sp_read_uleb(b, i) {
            Some((v, o)) => sp_read_uleb(b.take(m), i) == (if o <= m {
                Some((v, o))
            } else {
                None
            }),
            None => sp_read_uleb(b.take(m), i) == None::<(u64, int)>,
        },
{
    let s = b.skip(i);
    assert(b.take(m).skip(i) =~= s.take(m - i));
    lemma_uleb_take(s, m - i);
}

/// Truncating the buffer after a tagged-string read leaves the read
/// unchanged; truncating it mid-read makes the read fail.
pub proof fn lemma_read_tagged_trunc(b: Seq<u8>, m: int, i: int)
    requires
        0 <= m <= b.len(),
        0 <= i <= m,
    ensures
        match sp_read_tagged_str(b, i) {
            Some((v, o)) => sp_read_tagged_str(b.take(m), i) == (if o <= m {
                Some((v, o))
            } else {
                None
            }),
            None => sp_read_tagged_str(b.take(m), i) == None::<(Seq<char>, int)>,
        },
{
    lemma_read_le_trunc(b, m, i, 1);
    match sp_read_le(b, i, 1) {
        None => {},
        Some((p, i1)) => {
            if p == 0x0b {
                match sp_read_uleb(b, i1) {
                    None => {},
                    Some((len, i2)) => {
                        lemma_uleb_count_pos(b.skip(i1));
                        assert(i2 >= i1 + 1);
                    },
                }
                if i1 <= m {
                    lemma_read_uleb_trunc(b, m, i1);
                    match sp_read_uleb(b, i1) {
                        None => {},
                        Some((len, i2)) => {
                            if i2 + len <= b.len() && i2 + len <= m {
                                assert(b.take(m).subrange(i2, i2 + len as int) =~= b.subrange(
                                    i2,
                                    i2 + len as int,
                                ));
                            }
                        },
                    }
                }
            }
        },
    }
}

} // verus!
