//! Binary codec: deterministic, bounds-checked encoding and decoding of
//! fixed-width big-endian integers and raw byte spans over in-memory buffers.
//!
//! [`Reader`] decodes from a borrowed byte slice and never consumes anything
//! on failure; [`Writer`] appends to a growable output buffer and never
//! fails.  The wire layout of every integer is its natural width, big-endian.

use vstd::arithmetic::div_mod::lemma_fundamental_div_mod;
use vstd::prelude::*;
use vstd::slice::slice_subrange;

verus! {

/// Error type of the binary codec.
#[derive(Debug)]
pub enum Error {
    /// The codec ran out of input: fewer bytes remain than the requested
    /// decode needs.  The cause is set only when the end of input was hit
    /// while decoding a nested structure.
    Eof(Option<Box<Error>>),
    /// The decoded bytes do not form a valid value (an unknown tag).
    Invalid,
}

/// `256^n`: the number of values representable in `n` bytes.
pub open spec fn pow256(n: nat) -> nat
    decreases n,
{
    if n == 0 {
        1
    } else {
        256 * pow256((n - 1) as nat)
    }
}

/// The unsigned value of a big-endian byte string.
pub open spec fn be_nat(s: Seq<u8>) -> nat
    decreases s.len(),
{
    if s.len() == 0 {
        0
    } else {
        be_nat(s.drop_last()) * 256 + (s.last() as nat)
    }
}

/// The `n`-byte big-endian encoding of `v % 256^n`.
pub open spec fn be_enc(v: nat, n: nat) -> Seq<u8>
    decreases n,
{
    if n == 0 {
        Seq::empty()
    } else {
        be_enc(v / 256, (n - 1) as nat).push((v % 256) as u8)
    }
}

/// The signed reading of an unsigned value `v` stored in `n` bytes:
/// two's complement, so values at or above `256^n / 2` wrap to negatives.
pub open spec fn signed_of(v: nat, n: nat) -> int {
    if 2 * v < pow256(n) {
        v as int
    } else {
        v as int - pow256(n) as int
    }
}

/// The unsigned value that stands for a signed value `v` in `n` bytes:
/// the inverse of [`signed_of`] on the representable range.
pub open spec fn unsigned_repr(v: int, n: nat) -> nat {
    if v >= 0 {
        v as nat
    } else {
        (v + pow256(n)) as nat
    }
}

/// The concrete values of `256^n` for every width this codec uses.
pub proof fn lemma_pow256_vals()
    ensures
        pow256(0) == 1,
        pow256(1) == 0x100,
        pow256(2) == 0x1_0000,
        pow256(4) == 0x1_0000_0000,
        pow256(8) == 0x1_0000_0000_0000_0000,
        pow256(16) == 0x1_0000_0000_0000_0000_0000_0000_0000_0000,
{
    reveal_with_fuel(pow256, 17);
}

/// `256^n` grows monotonically in `n`.
pub proof fn lemma_pow256_mono(a: nat, b: nat)
    requires
        a <= b,
    ensures
        pow256(a) <= pow256(b),
    decreases b,
{
    if a < b {
        lemma_pow256_mono(a, (b - 1) as nat);
        assert(pow256(b) == 256 * pow256((b - 1) as nat));
    }
}

/// A byte string of length `n` holds a value below `256^n`.
pub proof fn lemma_be_nat_bound(s: Seq<u8>)
    ensures
        be_nat(s) < pow256(s.len()),
    decreases s.len(),
{
    if s.len() > 0 {
        lemma_be_nat_bound(s.drop_last());
        assert(be_nat(s.drop_last()) <= pow256((s.len() - 1) as nat) - 1);
        assert(be_nat(s) <= (pow256((s.len() - 1) as nat) - 1) * 256 + 255) by {
            assert(be_nat(s.drop_last()) * 256 <= (pow256((s.len() - 1) as nat) - 1) * 256);
        }
    }
}

/// Law: decoding an encoding is the identity.  Every unsigned value `v`
/// that fits in `n` bytes encodes to exactly `n` bytes, and those bytes
/// decode back to `v`.
pub proof fn lemma_codec_round_trip(v: nat, n: nat)
    requires
        v < pow256(n),
    ensures
        be_enc(v, n).len() == n,
        be_nat(be_enc(v, n)) == v,
    decreases n,
{
    if n > 0 {
        assert(v / 256 < pow256((n - 1) as nat)) by {
            lemma_fundamental_div_mod(v as int, 256);
        }
        lemma_codec_round_trip(v / 256, (n - 1) as nat);
        let e = be_enc(v, n);
        assert(e.drop_last() =~= be_enc(v / 256, (n - 1) as nat));
        assert(be_nat(e) == (v / 256) * 256 + (v % 256));
        lemma_fundamental_div_mod(v as int, 256);
    }
}

/// Law: reading a signed value back from its unsigned representation is
/// the identity on the representable range of `n` bytes.
pub proof fn lemma_signed_round_trip(v: int, n: nat)
    requires
        -(pow256(n) as int) <= 2 * v < pow256(n),
    ensures
        unsigned_repr(v, n) < pow256(n),
        signed_of(unsigned_repr(v, n), n) == v,
{
}

/// Decodes fixed-width big-endian integers and raw byte spans from a
/// borrowed byte buffer, tracking a read cursor.  Every failed read is
/// fully rolled back: the unread remainder is exactly what it was before.
pub struct Reader<'a> {
    buf: &'a [u8],
    offs: usize,
}

impl<'a> Reader<'a> {
    /// The cursor never passes the end of the buffer.
    pub closed spec fn wf(self) -> bool {
        self.offs <= self.buf@.len()
    }

    /// The unread remainder of the buffer.
    pub closed spec fn remaining(self) -> Seq<u8> {
        self.buf@.skip(self.offs as int)
    }

    /// A reader positioned at the start of `buf`.
    pub fn new(buf: &'a [u8]) -> (r: Self)
        ensures
            r.wf(),
            r.remaining() == buf@,
    {
        let r = Reader { buf, offs: 0 };
        proof {
            assert(r.remaining() =~= buf@);
        }
        r
    }

    /// The unread remainder, as a borrowed slice.
    pub fn as_ref(&self) -> (r: &'a [u8])
        requires
            self.wf(),
        ensures
            r@ == self.remaining(),
    {
        slice_subrange(self.buf, self.offs, self.buf.len())
    }

    /// How many bytes remain unread.
    pub fn remaining_len(&self) -> (r: usize)
        requires
            self.wf(),
        ensures
            r == self.remaining().len(),
    {
        self.buf.len() - self.offs
    }

    /// Consumes the next `n` bytes and returns their big-endian value.
    /// On failure nothing is consumed.
    fn read_be(&mut self, n: usize) -> (r: Result<u128, Error>)
        requires
            old(self).wf(),
            n <= 16,
        ensures
            final(self).wf(),
            match r {
                Ok(v) => {
                    &&& old(self).remaining().len() >= n
                    &&& final(self).remaining() == old(self).remaining().skip(n as int)
                    &&& v == be_nat(old(self).remaining().take(n as int))
                },
                Err(e) => {
                    &&& *final(self) == *old(self)
                    &&& old(self).remaining().len() < n
                    &&& e matches Error::Eof(None)
                },
            },
    {
        if self.buf.len() - self.offs < n {
            return Err(Error::Eof(None));
        }
        let ghost rem = self.remaining();
        let mut v: u128 = 0;
        let mut i: usize = 0;
        while i < n
            invariant
                self.buf == old(self).buf,
                self.offs == old(self).offs,
                self.wf(),
                i <= n,
                n <= 16,
                n <= rem.len(),
                rem == self.remaining(),
                v == be_nat(rem.take(i as int)),
                v < pow256(i as nat),
            decreases n - i,
        {
            let blen = self.buf.len();
            assert(self.offs + i < blen);
            let b = self.buf[self.offs + i];
            proof {
                lemma_pow256_mono(i as nat, 15);
                lemma_pow256_vals();
                assert(v * 256 <= (pow256(15) - 1) * 256);
                assert(rem.take(i + 1).drop_last() =~= rem.take(i as int));
                assert(rem.take(i + 1).last() == rem[i as int]);
                assert(rem[i as int] == self.buf@[self.offs + i]);
                assert(pow256((i + 1) as nat) == 256 * pow256(i as nat));
            }
            v = v * 256 + b as u128;
            i += 1;
        }
        proof {
            assert(rem.take(n as int) =~= rem.take(n as int));
        }
        self.offs = self.offs + n;
        proof {
            assert(self.remaining() =~= rem.skip(n as int));
        }
        Ok(v)
    }

    /// Decodes one `u8`.
    pub fn read_u8(&mut self) -> (r: Result<u8, Error>)
        requires
            old(self).wf(),
        ensures
            final(self).wf(),
            match r {
                Ok(v) => {
                    &&& old(self).remaining().len() >= 1
                    &&& final(self).remaining() == old(self).remaining().skip(1)
                    &&& v == be_nat(old(self).remaining().take(1))
                },
                Err(e) => {
                    &&& *final(self) == *old(self)
                    &&& old(self).remaining().len() < 1
                    &&& e matches Error::Eof(None)
                },
            },
    {
        proof {
            lemma_pow256_vals();
            lemma_be_nat_bound(old(self).remaining().take(1));
        }
        match self.read_be(1) {
            Ok(v) => Ok(v as u8),
            Err(e) => Err(e),
        }
    }

    /// Decodes one big-endian `u16`.
    pub fn read_u16(&mut self) -> (r: Result<u16, Error>)
        requires
            old(self).wf(),
        ensures
            final(self).wf(),
            match r {
                Ok(v) => {
                    &&& old(self).remaining().len() >= 2
                    &&& final(self).remaining() == old(self).remaining().skip(2)
                    &&& v == be_nat(old(self).remaining().take(2))
                },
                Err(e) => {
                    &&& *final(self) == *old(self)
                    &&& old(self).remaining().len() < 2
                    &&& e matches Error::Eof(None)
                },
            },
    {
        proof {
            lemma_pow256_vals();
            lemma_be_nat_bound(old(self).remaining().take(2));
        }
        match self.read_be(2) {
            Ok(v) => Ok(v as u16),
            Err(e) => Err(e),
        }
    }

    /// Decodes one big-endian `u32`.
    pub fn read_u32(&mut self) -> (r: Result<u32, Error>)
        requires
            old(self).wf(),
        ensures
            final(self).wf(),
            match r {
                Ok(v) => {
                    &&& old(self).remaining().len() >= 4
                    &&& final(self).remaining() == old(self).remaining().skip(4)
                    &&& v == be_nat(old(self).remaining().take(4))
                },
                Err(e) => {
                    &&& *final(self) == *old(self)
                    &&& old(self).remaining().len() < 4
                    &&& e matches Error::Eof(None)
                },
            },
    {
        proof {
            lemma_pow256_vals();
            lemma_be_nat_bound(old(self).remaining().take(4));
        }
        match self.read_be(4) {
            Ok(v) => Ok(v as u32),
            Err(e) => Err(e),
        }
    }

    /// Decodes one big-endian `u64`.
    pub fn read_u64(&mut self) -> (r: Result<u64, Error>)
        requires
            old(self).wf(),
        ensures
            final(self).wf(),
            match r {
                Ok(v) => {
                    &&& old(self).remaining().len() >= 8
                    &&& final(self).remaining() == old(self).remaining().skip(8)
                    &&& v == be_nat(old(self).remaining().take(8))
                },
                Err(e) => {
                    &&& *final(self) == *old(self)
                    &&& old(self).remaining().len() < 8
                    &&& e matches Error::Eof(None)
                },
            },
    {
        proof {
            lemma_pow256_vals();
            lemma_be_nat_bound(old(self).remaining().take(8));
        }
        match self.read_be(8) {
            Ok(v) => Ok(v as u64),
            Err(e) => Err(e),
        }
    }

    /// Decodes one big-endian `u128`.
    pub fn read_u128(&mut self) -> (r: Result<u128, Error>)
        requires
            old(self).wf(),
        ensures
            final(self).wf(),
            match r {
                Ok(v) => {
                    &&& old(self).remaining().len() >= 16
                    &&& final(self).remaining() == old(self).remaining().skip(16)
                    &&& v == be_nat(old(self).remaining().take(16))
                },
                Err(e) => {
                    &&& *final(self) == *old(self)
                    &&& old(self).remaining().len() < 16
                    &&& e matches Error::Eof(None)
                },
            },
    {
        proof {
            lemma_pow256_vals();
            lemma_be_nat_bound(old(self).remaining().take(16));
        }
        match self.read_be(16) {
            Ok(v) => Ok(v as u128),
            Err(e) => Err(e),
        }
    }

    /// Decodes one big-endian `i8` (two's complement).
    pub fn read_i8(&mut self) -> (r: Result<i8, Error>)
        requires
            old(self).wf(),
        ensures
            final(self).wf(),
            match r {
                Ok(v) => {
                    &&& old(self).remaining().len() >= 1
                    &&& final(self).remaining() == old(self).remaining().skip(1)
                    &&& v as int == signed_of(be_nat(old(self).remaining().take(1)), 1)
                },
                Err(e) => {
                    &&& *final(self) == *old(self)
                    &&& old(self).remaining().len() < 1
                    &&& e matches Error::Eof(None)
                },
            },
    {
        proof {
            lemma_pow256_vals();
            lemma_be_nat_bound(old(self).remaining().take(1));
        }
        match self.read_be(1) {
            Ok(v) => Ok((0 as i8).wrapping_add_unsigned(v as u8)),
            Err(e) => Err(e),
        }
    }

    /// Decodes one big-endian `i16` (two's complement).
    pub fn read_i16(&mut self) -> (r: Result<i16, Error>)
        requires
            old(self).wf(),
        ensures
            final(self).wf(),
            match r {
                Ok(v) => {
                    &&& old(self).remaining().len() >= 2
                    &&& final(self).remaining() == old(self).remaining().skip(2)
                    &&& v as int == signed_of(be_nat(old(self).remaining().take(2)), 2)
                },
                Err(e) => {
                    &&& *final(self) == *old(self)
                    &&& old(self).remaining().len() < 2
                    &&& e matches Error::Eof(None)
                },
            },
    {
        proof {
            lemma_pow256_vals();
            lemma_be_nat_bound(old(self).remaining().take(2));
        }
        match self.read_be(2) {
            Ok(v) => Ok((0 as i16).wrapping_add_unsigned(v as u16)),
            Err(e) => Err(e),
        }
    }

    /// Decodes one big-endian `i32` (two's complement).
    pub fn read_i32(&mut self) -> (r: Result<i32, Error>)
        requires
            old(self).wf(),
        ensures
            final(self).wf(),
            match r {
                Ok(v) => {
                    &&& old(self).remaining().len() >= 4
                    &&& final(self).remaining() == old(self).remaining().skip(4)
                    &&& v as int == signed_of(be_nat(old(self).remaining().take(4)), 4)
                },
                Err(e) => {
                    &&& *final(self) == *old(self)
                    &&& old(self).remaining().len() < 4
                    &&& e matches Error::Eof(None)
                },
            },
    {
        proof {
            lemma_pow256_vals();
            lemma_be_nat_bound(old(self).remaining().take(4));
        }
        match self.read_be(4) {
            Ok(v) => Ok((0 as i32).wrapping_add_unsigned(v as u32)),
            Err(e) => Err(e),
        }
    }

    /// Decodes one big-endian `i64` (two's complement).
    pub fn read_i64(&mut self) -> (r: Result<i64, Error>)
        requires
            old(self).wf(),
        ensures
            final(self).wf(),
            match r {
                Ok(v) => {
                    &&& old(self).remaining().len() >= 8
                    &&& final(self).remaining() == old(self).remaining().skip(8)
                    &&& v as int == signed_of(be_nat(old(self).remaining().take(8)), 8)
                },
                Err(e) => {
                    &&& *final(self) == *old(self)
                    &&& old(self).remaining().len() < 8
                    &&& e matches Error::Eof(None)
                },
            },
    {
        proof {
            lemma_pow256_vals();
            lemma_be_nat_bound(old(self).remaining().take(8));
        }
        match self.read_be(8) {
            Ok(v) => Ok((0 as i64).wrapping_add_unsigned(v as u64)),
            Err(e) => Err(e),
        }
    }

    /// Decodes one big-endian `i128` (two's complement).
    pub fn read_i128(&mut self) -> (r: Result<i128, Error>)
        requires
            old(self).wf(),
        ensures
            final(self).wf(),
            match r {
                Ok(v) => {
                    &&& old(self).remaining().len() >= 16
                    &&& final(self).remaining() == old(self).remaining().skip(16)
                    &&& v as int == signed_of(be_nat(old(self).remaining().take(16)), 16)
                },
                Err(e) => {
                    &&& *final(self) == *old(self)
                    &&& old(self).remaining().len() < 16
                    &&& e matches Error::Eof(None)
                },
            },
    {
        proof {
            lemma_pow256_vals();
            lemma_be_nat_bound(old(self).remaining().take(16));
        }
        match self.read_be(16) {
            Ok(v) => Ok((0 as i128).wrapping_add_unsigned(v as u128)),
            Err(e) => Err(e),
        }
    }

    /// Returns a zero-copy borrowed view of the next `n` bytes.  `n == 0`
    /// always succeeds with an empty view; on failure nothing is consumed.
    pub fn read_bytes(&mut self, n: usize) -> (r: Result<&'a [u8], Error>)
        requires
            old(self).wf(),
        ensures
            final(self).wf(),
            match r {
                Ok(b) => {
                    &&& old(self).remaining().len() >= n
                    &&& b@ == old(self).remaining().take(n as int)
                    &&& final(self).remaining() == old(self).remaining().skip(n as int)
                },
                Err(e) => {
                    &&& *final(self) == *old(self)
                    &&& old(self).remaining().len() < n
                    &&& e matches Error::Eof(None)
                },
            },
    {
        if self.buf.len() - self.offs < n {
            return Err(Error::Eof(None));
        }
        let b = slice_subrange(self.buf, self.offs, self.offs + n);
        proof {
            assert(b@ =~= self.remaining().take(n as int));
        }
        let ghost rem = self.remaining();
        self.offs = self.offs + n;
        proof {
            assert(self.remaining() =~= rem.skip(n as int));
        }
        Ok(b)
    }

    /// Fills the caller-supplied buffer with the next `buf.len()` bytes.
    /// On failure the buffer and the cursor are left untouched.
    pub fn read_bytes_to(&mut self, buf: &mut [u8]) -> (r: Result<(), Error>)
        requires
            old(self).wf(),
        ensures
            final(self).wf(),
            match r {
                Ok(_) => {
                    &&& old(self).remaining().len() >= old(buf)@.len()
                    &&& final(buf)@ == old(self).remaining().take(old(buf)@.len() as int)
                    &&& final(self).remaining() == old(self).remaining().skip(
                        old(buf)@.len() as int,
                    )
                },
                Err(e) => {
                    &&& *final(self) == *old(self)
                    &&& final(buf)@ == old(buf)@
                    &&& old(self).remaining().len() < old(buf)@.len()
                    &&& e matches Error::Eof(None)
                },
            },
    {
        let n = buf.len();
        if self.buf.len() - self.offs < n {
            return Err(Error::Eof(None));
        }
        let ghost rem = self.remaining();
        let mut i: usize = 0;
        while i < n
            invariant
                self.buf == old(self).buf,
                self.offs == old(self).offs,
                self.wf(),
                i <= n,
                n <= rem.len(),
                rem == self.remaining(),
                buf@.len() == n,
                forall|j: int| 0 <= j < i ==> buf@[j] == rem[j],
            decreases n - i,
        {
            let blen = self.buf.len();
            assert(self.offs + i < blen);
            buf[i] = self.buf[self.offs + i];
            i += 1;
        }
        proof {
            assert(buf@ =~= rem.take(n as int));
        }
        self.offs = self.offs + n;
        proof {
            assert(self.remaining() =~= rem.skip(n as int));
        }
        Ok(())
    }
}

/// Encodes fixed-width big-endian integers and raw byte spans, appending
/// them to a growable output buffer.  Writing never fails.
pub struct Writer {
    buf: Vec<u8>,
}

impl Writer {
    /// Everything written so far.
    pub closed spec fn bytes(self) -> Seq<u8> {
        self.buf@
    }

    /// A writer over an empty output buffer.
    pub fn new() -> (w: Writer)
        ensures
            w.bytes() == Seq::<u8>::empty(),
    {
        let w = Writer { buf: Vec::new() };
        proof {
            assert(w.bytes() =~= Seq::<u8>::empty());
        }
        w
    }

    /// Appends the `n`-byte big-endian encoding of `v`.
    fn write_be(&mut self, v: u128, n: usize)
        ensures
            final(self).bytes() == old(self).bytes() + be_enc(v as nat, n as nat),
        decreases n,
    {
        if n == 0 {
            proof {
                assert(self.bytes() =~= self.bytes() + be_enc(v as nat, 0));
            }
        } else {
            self.write_be(v / 256, n - 1);
            self.buf.push((v % 256) as u8);
            proof {
                assert(self.bytes() =~= old(self).bytes() + be_enc(v as nat, n as nat));
            }
        }
    }

    /// Appends one `u8`, big-endian, at its natural width.
    pub fn write_u8(&mut self, v: u8)
        ensures
            final(self).bytes() == old(self).bytes() + be_enc(v as nat, 1),
    {
        self.write_be(v as u128, 1);
    }

    /// Appends one `u16`, big-endian, at its natural width.
    pub fn write_u16(&mut self, v: u16)
        ensures
            final(self).bytes() == old(self).bytes() + be_enc(v as nat, 2),
    {
        self.write_be(v as u128, 2);
    }

    /// Appends one `u32`, big-endian, at its natural width.
    pub fn write_u32(&mut self, v: u32)
        ensures
            final(self).bytes() == old(self).bytes() + be_enc(v as nat, 4),
    {
        self.write_be(v as u128, 4);
    }

    /// Appends one `u64`, big-endian, at its natural width.
    pub fn write_u64(&mut self, v: u64)
        ensures
            final(self).bytes() == old(self).bytes() + be_enc(v as nat, 8),
    {
        self.write_be(v as u128, 8);
    }

    /// Appends one `u128`, big-endian, at its natural width.
    pub fn write_u128(&mut self, v: u128)
        ensures
            final(self).bytes() == old(self).bytes() + be_enc(v as nat, 16),
    {
        self.write_be(v as u128, 16);
    }

    /// Appends one `i8`, big-endian two's complement, at its natural width.
    pub fn write_i8(&mut self, v: i8)
        ensures
            final(self).bytes() == old(self).bytes() + be_enc(unsigned_repr(v as int, 1), 1),
    {
        proof {
            lemma_pow256_vals();
        }
        self.write_be((0 as u8).wrapping_add_signed(v) as u128, 1);
    }

    /// Appends one `i16`, big-endian two's complement, at its natural width.
    pub fn write_i16(&mut self, v: i16)
        ensures
            final(self).bytes() == old(self).bytes() + be_enc(unsigned_repr(v as int, 2), 2),
    {
        proof {
            lemma_pow256_vals();
        }
        self.write_be((0 as u16).wrapping_add_signed(v) as u128, 2);
    }

    /// Appends one `i32`, big-endian two's complement, at its natural width.
    pub fn write_i32(&mut self, v: i32)
        ensures
            final(self).bytes() == old(self).bytes() + be_enc(unsigned_repr(v as int, 4), 4),
    {
        proof {
            lemma_pow256_vals();
        }
        self.write_be((0 as u32).wrapping_add_signed(v) as u128, 4);
    }

    /// Appends one `i64`, big-endian two's complement, at its natural width.
    pub fn write_i64(&mut self, v: i64)
        ensures
            final(self).bytes() == old(self).bytes() + be_enc(unsigned_repr(v as int, 8), 8),
    {
        proof {
            lemma_pow256_vals();
        }
        self.write_be((0 as u64).wrapping_add_signed(v) as u128, 8);
    }

    /// Appends one `i128`, big-endian two's complement, at its natural width.
    pub fn write_i128(&mut self, v: i128)
        ensures
            final(self).bytes() == old(self).bytes() + be_enc(unsigned_repr(v as int, 16), 16),
    {
        proof {
            lemma_pow256_vals();
        }
        self.write_be((0 as u128).wrapping_add_signed(v) as u128, 16);
    }

    /// Appends a raw byte span verbatim.
    pub fn write_bytes(&mut self, b: &[u8])
        ensures
            final(self).bytes() == old(self).bytes() + b@,
    {
        proof {
            assert(self.bytes() + b@.take(0) =~= self.bytes());
        }
        let mut i: usize = 0;
        while i < b.len()
            invariant
                i <= b@.len(),
                self.bytes() == old(self).bytes() + b@.take(i as int),
            decreases b@.len() - i,
        {
            self.buf.push(b[i]);
            proof {
                assert(old(self).bytes() + b@.take(i + 1) =~= (old(self).bytes() + b@.take(
                    i as int,
                )).push(b@[i as int]));
            }
            i += 1;
        }
        proof {
            assert(b@.take(b@.len() as int) =~= b@);
        }
    }

    /// The output written so far, as a borrowed slice.
    pub fn as_slice(&self) -> (r: &[u8])
        ensures
            r@ == self.bytes(),
    {
        self.buf.as_slice()
    }

    /// Hands the output buffer to the caller.
    pub fn into_vec(self) -> (r: Vec<u8>)
        ensures
            r@ == self.bytes(),
    {
        self.buf
    }
}

} // verus!
