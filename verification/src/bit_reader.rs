//! Bit-level access to a byte stream: `BitSequence` is an ordered group of up
//! to 16 bits, and `BitReader` pulls 1–16 bits at a time from a byte slice,
//! least-significant bit first within each byte.
use vstd::prelude::*;

use crate::Error;

verus! {

/// The `i`-th bit of `x`, counting from the least significant end.
pub open spec fn bit_of(x: u16, i: u16) -> bool {
    (x >> i) & 1 == 1
}

/// The low `n` bits of `x` as a sequence, least significant first.
pub open spec fn bits_seq(x: u16, n: nat) -> Seq<bool> {
    Seq::new(n, |i: int| bit_of(x, i as u16))
}

/// The eight bits of one byte, least significant first.
pub open spec fn byte_bits(b: u8) -> Seq<bool> {
    bits_seq(b as u16, 8)
}

/// All bits of a byte sequence, each byte least-significant-bit first.
pub open spec fn bytes_bits(s: Seq<u8>) -> Seq<bool>
    decreases s.len(),
{
    if s.len() == 0 {
        Seq::empty()
    } else {
        byte_bits(s[0]) + bytes_bits(s.skip(1))
    }
}

pub proof fn lemma_bytes_bits_len(s: Seq<u8>)
    ensures
        bytes_bits(s).len() == 8 * s.len(),
    decreases s.len(),
{
    if s.len() > 0 {
        lemma_bytes_bits_len(s.skip(1));
    }
}

/// Skipping whole bytes skips exactly eight bits each.
pub proof fn lemma_bytes_bits_skip(s: Seq<u8>, k: int)
    requires
        0 <= k <= s.len(),
    ensures
        bytes_bits(s).skip(8 * k) == bytes_bits(s.skip(k)),
    decreases k,
{
    if k > 0 {
        lemma_bytes_bits_skip(s.skip(1), k - 1);
        lemma_bytes_bits_len(s);
        lemma_bytes_bits_len(s.skip(1));
        assert(s.skip(1).skip(k - 1) =~= s.skip(k));
        assert(bytes_bits(s).skip(8 * k) =~= bytes_bits(s.skip(1)).skip(8 * (k - 1)));
    } else {
        assert(s.skip(0) =~= s);
        assert(bytes_bits(s).skip(0) =~= bytes_bits(s));
    }
}

proof fn lemma_shl1_pos(n: u16)
    by (bit_vector)
    requires
        n < 16,
    ensures
        (1u16 << n) >= 1,
{
}

proof fn lemma_mask_bit(x: u16, n: u16, i: u16)
    by (bit_vector)
    requires
        n < 16,
    ensures
        (x & (((1u16 << n) - 1) as u16)) < (1u16 << n),
        i < n ==> bit_of(x & (((1u16 << n) - 1) as u16), i) == bit_of(x, i),
{
}

proof fn lemma_concat_bit(a: u16, b: u16, la: u16, lb: u16, i: u16)
    by (bit_vector)
    requires
        la < 16,
        lb >= 1,
        la + lb <= 16,
        a < (1u16 << la),
        lb < 16 ==> b < (1u16 << lb),
    ensures
        la + lb < 16 ==> (a | (b << la)) < (1u16 << ((la + lb) as u16)),
        i < la ==> bit_of(a | (b << la), i) == bit_of(a, i),
        la <= i < la + lb ==> bit_of(a | (b << la), i) == bit_of(b, (i - la) as u16),
{
}

pub(crate) proof fn lemma_shift_bit(x: u16, n: u16, l: u16, i: u16)
    by (bit_vector)
    requires
        n < 16,
        n <= l,
        l <= 16,
        l < 16 ==> x < (1u16 << l),
    ensures
        i + n < 16 ==> bit_of(x >> n, i) == bit_of(x, (i + n) as u16),
        l - n < 16 ==> (x >> n) < (1u16 << ((l - n) as u16)),
{
}

/// An ordered group of `len <= 16` bits, stored in the low bits of `bits`.
/// Bits above position `len` are always zero, so derived equality and hashing
/// agree with equality of the abstract bit sequences.
#[derive(Clone, Copy, Debug, PartialEq, Eq, Hash, Structural)]
pub struct BitSequence {
    pub bits: u16,
    pub len: u8,
}

impl View for BitSequence {
    type V = Seq<bool>;

    open spec fn view(&self) -> Seq<bool> {
        bits_seq(self.bits, self.len as nat)
    }
}

impl BitSequence {
    /// All stored bits above position `len` are zero.
    pub open spec fn wf(self) -> bool {
        self.len <= 16 && (self.len < 16 ==> self.bits < (1u16 << (self.len as u16)))
    }

    pub fn new(bits: u16, len: u8) -> (r: Self)
        requires
            len <= 16,
        ensures
            r.wf(),
            r@ == bits_seq(bits, len as nat),
            r.len == len,
            r.bits == if len == 16 {
                bits
            } else {
                (bits & (((1u16 << (len as u16)) - 1) as u16))
            },
    {
        let masked: u16 = if len == 16 {
            bits
        } else {
            proof {
                lemma_shl1_pos(len as u16);
            }
            bits & ((1u16 << (len as u16)) - 1)
        };
        let r = Self { bits: masked, len };
        proof {
            if len < 16 {
                assert forall|i: int| 0 <= i < len implies r@[i] == bits_seq(bits, len as nat)[i] by {
                    lemma_mask_bit(bits, len as u16, i as u16);
                }
                lemma_mask_bit(bits, len as u16, 0);
                assert(r@ =~= bits_seq(bits, len as nat));
            }
        }
        r
    }

    pub fn bits(&self) -> (r: u16)
        ensures
            r == self.bits,
    {
        self.bits
    }

    pub fn len(&self) -> (r: u8)
        ensures
            r == self.len,
    {
        self.len
    }

    /// Appends `other`'s bits above `self`'s bits.
    pub fn concat(self, other: Self) -> (r: Self)
        requires
            self.wf(),
            other.wf(),
            self.len + other.len <= 16,
        ensures
            r.wf(),
            r@ == self@ + other@,
            r.len == self.len + other.len,
    {
        if other.len == 0 {
            proof {
                assert(self@ + other@ =~= self@);
            }
            self
        } else {
            let r = Self {
                bits: self.bits | (other.bits << (self.len as u16)),
                len: self.len + other.len,
            };
            proof {
                let a = self.bits;
                let b = other.bits;
                let la = self.len as u16;
                let lb = other.len as u16;
                assert forall|i: int| 0 <= i < r.len implies r@[i] == (self@ + other@)[i] by {
                    lemma_concat_bit(a, b, la, lb, i as u16);
                }
                lemma_concat_bit(a, b, la, lb, 0);
                assert(r@ =~= self@ + other@);
            }
            r
        }
    }

    /// Splits off the low `len` bits, returning them and keeping the rest.
    pub fn shrink(&mut self, len: u8) -> (r: Self)
        requires
            old(self).wf(),
            len <= old(self).len,
        ensures
            r.wf(),
            final(self).wf(),
            r@ == old(self)@.take(len as int),
            final(self)@ == old(self)@.skip(len as int),
            r.len == len,
            final(self).len == old(self).len - len,
    {
        let ghost prev = *self;
        let res = if len == 16 {
            let r = *self;
            self.bits = 0;
            proof {
                lemma_shl1_pos(0);
            }
            r
        } else {
            proof {
                lemma_shl1_pos(len as u16);
            }
            let r = Self::new(self.bits & ((1u16 << (len as u16)) - 1), len);
            proof {
                assert forall|i: int| 0 <= i < len implies r@[i] == prev@[i] by {
                    lemma_mask_bit(prev.bits, len as u16, i as u16);
                }
            }
            self.bits = self.bits >> (len as u16);
            proof {
                assert forall|i: int| 0 <= i < prev.len - len implies
                    #[trigger] bit_of(self.bits, i as u16) == prev@[i + len] by {
                    lemma_shift_bit(prev.bits, len as u16, prev.len as u16, i as u16);
                }
                lemma_shift_bit(prev.bits, len as u16, prev.len as u16, 0);
            }
            r
        };
        self.len = self.len - len;
        proof {
            assert(res@ =~= prev@.take(len as int));
            assert(self@ =~= prev@.skip(len as int));
        }
        res
    }
}

/// Equality of bit sequences never ignores the declared length: values of
/// different lengths are never equal, whatever their stored bit patterns
/// hold beyond those lengths.
pub proof fn lemma_bitseq_distinct_lengths(a: BitSequence, b: BitSequence)
    requires
        a.len != b.len,
    ensures
        a != b,
{
}

proof fn lemma_two_bytes_bit(lo: u16, hi: u16, i: u16)
    by (bit_vector)
    requires
        lo < 256,
        hi < 256,
        i < 16,
    ensures
        i < 8 ==> bit_of((lo + 256 * hi) as u16, i) == bit_of(lo, i),
        8 <= i ==> bit_of((lo + 256 * hi) as u16, i) == bit_of(hi, (i - 8) as u16),
{
}

/// A byte stream drawn from a slice: the part at and after `pos` is still to
/// be read.
#[derive(Clone, Copy)]
pub struct ByteReader<'a> {
    pub data: &'a [u8],
    pub pos: usize,
}

impl<'a> ByteReader<'a> {
    pub open spec fn wf(self) -> bool {
        self.pos <= self.data@.len()
    }

    /// The bytes that have not been consumed yet.
    pub open spec fn remaining(self) -> Seq<u8> {
        self.data@.skip(self.pos as int)
    }

    pub fn new(data: &'a [u8]) -> (r: Self)
        ensures
            r.wf(),
            r.data@ == data@,
            r.pos == 0,
            r.remaining() == data@,
    {
        let r = ByteReader { data, pos: 0 };
        proof {
            assert(r.remaining() =~= data@);
        }
        r
    }

    pub fn remaining_len(&self) -> (r: usize)
        requires
            self.wf(),
        ensures
            r == self.remaining().len(),
    {
        self.data.len() - self.pos
    }

    /// Reads one byte, or fails without consuming anything at end of input.
    pub fn read_u8(&mut self) -> (r: Result<u8, Error>)
        requires
            old(self).wf(),
        ensures
            final(self).wf(),
            final(self).data@ == old(self).data@,
            old(self).remaining().len() == 0 ==> r == Err::<u8, Error>(Error::UnexpectedEof)
                && *final(self) == *old(self),
            old(self).remaining().len() > 0 ==> r == Ok::<u8, Error>(old(self).remaining()[0])
                && final(self).pos == old(self).pos + 1
                && final(self).remaining() == old(self).remaining().skip(1),
    {
        if self.pos < self.data.len() {
            let b = self.data[self.pos];
            self.pos = self.pos + 1;
            proof {
                assert(self.remaining() =~= old(self).remaining().skip(1));
            }
            Ok(b)
        } else {
            Err(Error::UnexpectedEof)
        }
    }

    /// Reads exactly `n` bytes, or fails without consuming anything if fewer
    /// remain.
    pub fn read_exact(&mut self, n: usize) -> (r: Result<Vec<u8>, Error>)
        requires
            old(self).wf(),
        ensures
            final(self).wf(),
            final(self).data@ == old(self).data@,
            old(self).remaining().len() < n ==> r == Err::<Vec<u8>, Error>(Error::UnexpectedEof)
                && *final(self) == *old(self),
            old(self).remaining().len() >= n ==> match r {
                Ok(v) => v@ == old(self).remaining().take(n as int)
                    && final(self).pos == old(self).pos + n
                    && final(self).remaining() == old(self).remaining().skip(n as int),
                Err(_) => false,
            },
    {
        if self.data.len() - self.pos < n {
            return Err(Error::UnexpectedEof);
        }
        let mut v: Vec<u8> = Vec::new();
        let mut i: usize = 0;
        while i < n
            invariant
                self.wf(),
                *self == *old(self),
                i <= n,
                n <= self.remaining().len(),
                self.data@.len() <= usize::MAX,
                v@ == self.remaining().take(n as int).take(i as int),
            decreases n - i,
        {
            assert(self.remaining().len() == self.data@.len() - self.pos);
            v.push(self.data[self.pos + i]);
            i = i + 1;
            proof {
                assert(v@ =~= self.remaining().take(n as int).take(i as int));
            }
        }
        self.pos = self.pos + n;
        proof {
            assert(v@ =~= old(self).remaining().take(n as int));
            assert(self.remaining() =~= old(self).remaining().skip(n as int));
        }
        Ok(v)
    }

    /// Reads a little-endian 16-bit integer.
    pub fn read_u16_le(&mut self) -> (r: Result<u16, Error>)
        requires
            old(self).wf(),
        ensures
            final(self).wf(),
            final(self).data@ == old(self).data@,
            old(self).remaining().len() < 2 ==> r == Err::<u16, Error>(Error::UnexpectedEof)
                && *final(self) == *old(self),
            old(self).remaining().len() >= 2 ==> match r {
                Ok(x) => x == old(self).remaining()[0] + 256 * (old(self).remaining()[1] as int)
                    && final(self).pos == old(self).pos + 2
                    && final(self).remaining() == old(self).remaining().skip(2),
                Err(_) => false,
            },
    {
        if self.data.len() - self.pos < 2 {
            return Err(Error::UnexpectedEof);
        }
        let b0 = self.data[self.pos];
        let b1 = self.data[self.pos + 1];
        self.pos = self.pos + 2;
        proof {
            assert(self.remaining() =~= old(self).remaining().skip(2));
        }
        Ok((b0 as u16) + 256 * (b1 as u16))
    }

    /// Reads a little-endian 32-bit integer.
    pub fn read_u32_le(&mut self) -> (r: Result<u32, Error>)
        requires
            old(self).wf(),
        ensures
            final(self).wf(),
            final(self).data@ == old(self).data@,
            old(self).remaining().len() < 4 ==> r == Err::<u32, Error>(Error::UnexpectedEof)
                && *final(self) == *old(self),
            old(self).remaining().len() >= 4 ==> match r {
                Ok(x) => x == le_u32(old(self).remaining())
                    && final(self).pos == old(self).pos + 4
                    && final(self).remaining() == old(self).remaining().skip(4),
                Err(_) => false,
            },
    {
        if self.data.len() - self.pos < 4 {
            return Err(Error::UnexpectedEof);
        }
        let b0 = self.data[self.pos];
        let b1 = self.data[self.pos + 1];
        let b2 = self.data[self.pos + 2];
        let b3 = self.data[self.pos + 3];
        self.pos = self.pos + 4;
        proof {
            assert(self.remaining() =~= old(self).remaining().skip(4));
        }
        Ok((b0 as u32) + 256 * (b1 as u32) + 65536 * (b2 as u32) + 16777216 * (b3 as u32))
    }
}

/// The value of the first four bytes of `s` read as a little-endian 32-bit
/// integer.
pub open spec fn le_u32(s: Seq<u8>) -> int {
    s[0] + 256 * (s[1] as int) + 65536 * (s[2] as int) + 16777216 * (s[3] as int)
}

/// The value of the first two bytes of `s` read as a little-endian 16-bit
/// integer.
pub open spec fn le_u16(s: Seq<u8>) -> int {
    s[0] + 256 * (s[1] as int)
}

/// The index of the first zero byte of `s`, or -1 if there is none.
pub open spec fn first_zero(s: Seq<u8>) -> int
    decreases s.len(),
{
    if s.len() == 0 {
        -1
    } else if s[0] == 0 {
        0
    } else {
        let r = first_zero(s.skip(1));
        if r < 0 {
            -1
        } else {
            r + 1
        }
    }
}

/// How many bytes a read up to and including the first zero byte consumes:
/// everything when there is no zero byte.
pub open spec fn zstr_len(s: Seq<u8>) -> int {
    if first_zero(s) >= 0 {
        first_zero(s) + 1
    } else {
        s.len() as int
    }
}

/// The bytes before the first zero byte: everything when there is none.
pub open spec fn zstr_content(s: Seq<u8>) -> Seq<u8> {
    if first_zero(s) >= 0 {
        s.take(first_zero(s))
    } else {
        s
    }
}

/// Where the first zero byte of `s` lies, given that the bytes before `i`
/// are nonzero and `s[i]`, if it exists, is zero.
pub(crate) proof fn lemma_first_zero_at(s: Seq<u8>, i: int)
    requires
        0 <= i <= s.len(),
        forall|j: int| 0 <= j < i ==> s[j] != 0,
        i < s.len() ==> s[i] == 0,
    ensures
        first_zero(s) == if i == s.len() {
            -1int
        } else {
            i
        },
    decreases i,
{
    if i == 0 {
    } else {
        lemma_first_zero_at(s.skip(1), i - 1);
    }
}

impl<'a> ByteReader<'a> {
    /// Reads bytes up to and including the first zero byte and returns the
    /// bytes before it; at end of input, returns everything that was left.
    pub fn read_until_zero(&mut self) -> (r: Vec<u8>)
        requires
            old(self).wf(),
        ensures
            final(self).wf(),
            final(self).data@ == old(self).data@,
            r@ == zstr_content(old(self).remaining()),
            final(self).pos == old(self).pos + zstr_len(old(self).remaining()),
            final(self).remaining() == old(self).remaining().skip(
                zstr_len(old(self).remaining()),
            ),
    {
        let ghost rem = self.remaining();
        let n = self.data.len();
        let mut v: Vec<u8> = Vec::new();
        let mut i: usize = 0;
        loop
            invariant
                self.wf(),
                *self == *old(self),
                rem == old(self).remaining(),
                i <= rem.len(),
                self.data@.len() <= usize::MAX,
                v@ == rem.take(i as int),
                forall|j: int| 0 <= j < i ==> rem[j] != 0,
            ensures
                self.wf(),
                *self == *old(self),
                i <= rem.len(),
                v@ == rem.take(i as int),
                forall|j: int| 0 <= j < i ==> rem[j] != 0,
                i == rem.len() || rem[i as int] == 0,
            decreases rem.len() - i,
        {
            proof {
                assert(rem.len() == self.data@.len() - self.pos);
            }
            if self.pos + i == self.data.len() {
                break;
            }
            let b = self.data[self.pos + i];
            if b == 0 {
                break;
            }
            v.push(b);
            i = i + 1;
            proof {
                assert(v@ =~= rem.take(i as int));
            }
        }
        proof {
            lemma_first_zero_at(rem, i as int);
            assert(v@ =~= zstr_content(rem));
        }
        if self.pos + i == self.data.len() {
            self.pos = self.pos + i;
        } else {
            self.pos = self.pos + i + 1;
        }
        proof {
            assert(self.remaining() =~= rem.skip(zstr_len(rem)));
        }
        v
    }
}

/// Pulls 1 to 16 bits at a time from a byte stream, keeping a small residual
/// buffer of bits taken from the stream but not yet handed out.
pub struct BitReader<'a> {
    pub stream: ByteReader<'a>,
    pub buf: BitSequence,
}

impl<'a> BitReader<'a> {
    pub open spec fn wf(self) -> bool {
        self.stream.wf() && self.buf.wf() && self.buf.len <= 7
    }

    /// The whole unread bit stream: residual bits first, then the bits of the
    /// unread bytes, least significant first within each byte.
    pub open spec fn bits(self) -> Seq<bool> {
        self.buf@ + bytes_bits(self.stream.remaining())
    }

    /// How many bits of the underlying slice have been consumed.
    pub open spec fn cursor(self) -> int {
        8 * self.stream.pos - self.buf.len
    }

    /// The unread bits are exactly the bit stream of the whole slice from
    /// the cursor on: the residual buffer holds bits of the byte the cursor
    /// sits in.
    pub open spec fn aligned(self) -> bool {
        &&& 0 <= self.cursor() <= 8 * self.stream.data@.len()
        &&& self.bits() == bytes_bits(self.stream.data@).skip(self.cursor())
    }

    pub fn new(stream: ByteReader<'a>) -> (r: Self)
        requires
            stream.wf(),
        ensures
            r.wf(),
            r.stream == stream,
            r.buf.len == 0,
            r.bits() == bytes_bits(stream.remaining()),
    {
        let r = Self { stream, buf: BitSequence::new(0, 0) };
        proof {
            assert(r.bits() =~= bytes_bits(stream.remaining()));
        }
        r
    }

    /// Reads the next `len` bits of the stream; the first stream bit becomes
    /// the least significant bit of the result.  Fails, consuming nothing,
    /// when fewer than `len` bits are left.
    pub fn read_bits(&mut self, len: u8) -> (r: Result<BitSequence, Error>)
        requires
            old(self).wf(),
            len <= 16,
        ensures
            final(self).wf(),
            final(self).stream.data@ == old(self).stream.data@,
            final(self).stream.pos >= old(self).stream.pos,
            old(self).bits().len() < len ==> r == Err::<BitSequence, Error>(Error::UnexpectedEof)
                && *final(self) == *old(self),
            old(self).bits().len() >= len ==> match r {
                Ok(bs) => bs.wf() && bs.len == len
                    && bs@ == old(self).bits().take(len as int)
                    && final(self).bits() == old(self).bits().skip(len as int),
                Err(_) => false,
            },
    {
        proof {
            lemma_bytes_bits_len(self.stream.remaining());
        }
        if self.buf.len() >= len {
            let ghost prevbits = self.bits();
            let r = self.buf.shrink(len);
            proof {
                assert(r@ =~= prevbits.take(len as int));
                assert(self.bits() =~= prevbits.skip(len as int));
            }
            return Ok(r);
        }
        let need = len - self.buf.len();
        let ghost prevbits = self.bits();
        let ghost rem = self.stream.remaining();
        if self.buf.len() + 8 < len {
            // Two fresh bytes are required.
            if self.stream.remaining_len() < 2 {
                return Err(Error::UnexpectedEof);
            }
            let b0 = match self.stream.read_u8() {
                Ok(b) => b,
                Err(_) => { return Err(Error::UnexpectedEof); },
            };
            let b1 = match self.stream.read_u8() {
                Ok(b) => b,
                Err(_) => { return Err(Error::UnexpectedEof); },
            };
            let value: u16 = (b0 as u16) + 256 * (b1 as u16);
            let tail = BitSequence::new(value, need);
            let new_buf = if need == 16 {
                BitSequence::new(0, 0)
            } else {
                BitSequence::new(value >> (need as u16), 16 - need)
            };
            let old_buf = self.buf;
            self.buf = new_buf;
            let result = old_buf.concat(tail);
            proof {
                let ghost vb16 = bits_seq(value, 16);
                assert(self.stream.remaining() =~= rem.skip(2));
                assert(rem.skip(1).skip(1) =~= rem.skip(2));
                assert(rem.skip(1)[0] == rem[1]);
                assert(bytes_bits(rem) == byte_bits(rem[0]) + bytes_bits(rem.skip(1)));
                assert(bytes_bits(rem.skip(1)) == byte_bits(rem[1]) + bytes_bits(
                    rem.skip(1).skip(1)));
                assert(bytes_bits(rem.skip(1).skip(1)) == bytes_bits(rem.skip(2)));
                assert(bytes_bits(rem) =~= byte_bits(rem[0]) + byte_bits(rem[1]) + bytes_bits(
                    rem.skip(2)));
                assert forall|i: int| 0 <= i < 16 implies vb16[i] == (byte_bits(b0) + byte_bits(
                    b1))[i] by {
                    lemma_two_bytes_bit(b0 as u16, b1 as u16, i as u16);
                }
                assert(vb16 =~= byte_bits(b0) + byte_bits(b1));
                assert(tail@ =~= vb16.take(need as int));
                if need == 16 {
                    assert(new_buf@ =~= vb16.skip(need as int));
                } else {
                    assert forall|i: int| 0 <= i < 16 - need implies new_buf@[i] == vb16[i
                        + need] by {
                        lemma_shift_bit(value, need as u16, 16, i as u16);
                    }
                    assert(new_buf@ =~= vb16.skip(need as int));
                }
                assert(result@ =~= prevbits.take(len as int));
                assert(self.bits() =~= prevbits.skip(len as int));
            }
            Ok(result)
        } else {
            // One fresh byte is enough.
            if self.stream.remaining_len() < 1 {
                return Err(Error::UnexpectedEof);
            }
            let b0 = match self.stream.read_u8() {
                Ok(b) => b,
                Err(_) => { return Err(Error::UnexpectedEof); },
            };
            let tail = BitSequence::new(b0 as u16, need);
            let new_buf = BitSequence::new((b0 as u16) >> (need as u16), 8 - need);
            let old_buf = self.buf;
            self.buf = new_buf;
            let result = old_buf.concat(tail);
            proof {
                assert(self.stream.remaining() =~= rem.skip(1));
                assert(bytes_bits(rem) == byte_bits(rem[0]) + bytes_bits(rem.skip(1)));
                assert(tail@ =~= byte_bits(b0).take(need as int));
                assert((b0 as u16) < (1u16 << 8)) by (bit_vector);
                assert forall|i: int| 0 <= i < 8 - need implies new_buf@[i] == byte_bits(b0)[i
                    + need] by {
                    lemma_shift_bit(b0 as u16, need as u16, 8, i as u16);
                }
                assert(new_buf@ =~= byte_bits(b0).skip(need as int));
                assert(result@ =~= prevbits.take(len as int));
                assert(self.bits() =~= prevbits.skip(len as int));
            }
            Ok(result)
        }
    }

    /// Discards the unread bits of the current byte, realigning the stream to
    /// a byte boundary, and hands back the underlying byte reader.
    pub fn borrow_reader_from_boundary(&mut self) -> (r: &mut ByteReader<'a>)
        requires
            old(self).wf(),
        ensures
            *r == old(self).stream,
            final(self).stream == *final(r),
            final(self).buf@ == Seq::<bool>::empty(),
            final(self).buf.wf(),
            final(self).buf.len == 0,
            final(self).buf.bits == 0,
    {
        proof {
            assert(0u16 & (((1u16 << 0u16) - 1) as u16) == 0) by (bit_vector);
        }
        self.buf = BitSequence::new(0, 0);
        proof {
            assert(self.buf@ =~= Seq::<bool>::empty());
        }
        &mut self.stream
    }
}

} // verus!
