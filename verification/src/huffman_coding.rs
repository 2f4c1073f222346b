//! Canonical Huffman decoding for the three DEFLATE alphabets: the code-length
//! alphabet, the literal/length alphabet and the distance alphabet
//! (RFC 1951, sections 3.2.2, 3.2.5 and 3.2.7).
use vstd::prelude::*;

use crate::Error;
use crate::bit_reader::BitReader;
use crate::bit_reader::BitSequence;
use crate::bit_reader::bit_of;
use crate::bit_reader::bits_seq;

verus! {

/// The index of a symbol in its alphabet, as assigned by the canonical code.
pub struct HuffmanCodeWord(pub u16);

/// A closed alphabet of tokens that a canonical Huffman code can decode to.
/// Implementations tie the executable conversion to a spec-level table.
pub trait HuffmanSymbol: Sized + Copy {
    /// The token denoted by code word `w`, if `w` lies in the alphabet.
    spec fn spec_from_word(w: u16) -> Option<Self>;

    /// Converts a code word into the alphabet's token; fails exactly on words
    /// outside the alphabet.
    fn token_try_from(word: HuffmanCodeWord) -> (r: Result<Self, Error>)
        ensures
            match Self::spec_from_word(word.0) {
                Some(t) => r == Ok::<Self, Error>(t),
                None => r == Err::<Self, Error>(Error::BadCodeWord),
            },
    ;
}

/// Tokens of the code-length alphabet, used to decode the other two trees.
#[derive(Clone, Copy, Debug, PartialEq, Eq, Structural)]
pub enum TreeCodeToken {
    /// A literal code length 0..=15.
    Length(u8),
    /// Repeat the previous length 3–6 times (2 extra bits).
    CopyPrev,
    /// Emit `base` plus extra-bit many zero lengths.
    RepeatZero { base: u16, extra_bits: u8 },
}

impl HuffmanSymbol for TreeCodeToken {
    open spec fn spec_from_word(w: u16) -> Option<Self> {
        if w <= 15 {
            Some(TreeCodeToken::Length(w as u8))
        } else if w == 16 {
            Some(TreeCodeToken::CopyPrev)
        } else if w == 17 {
            Some(TreeCodeToken::RepeatZero { base: 3, extra_bits: 3 })
        } else if w == 18 {
            Some(TreeCodeToken::RepeatZero { base: 11, extra_bits: 7 })
        } else {
            None
        }
    }

    fn token_try_from(word: HuffmanCodeWord) -> (r: Result<Self, Error>) {
        let w = word.0;
        if w <= 15 {
            Ok(Self::Length(w as u8))
        } else if w == 16 {
            Ok(Self::CopyPrev)
        } else if w == 17 {
            Ok(Self::RepeatZero { base: 3, extra_bits: 3 })
        } else if w == 18 {
            Ok(Self::RepeatZero { base: 11, extra_bits: 7 })
        } else {
            Err(Error::BadCodeWord)
        }
    }
}

/// Tokens of the literal/length alphabet: 256 literals, the end-of-block
/// marker, and 29 match-length codes with their base values and extra bits.
#[derive(Clone, Copy, Debug, PartialEq, Eq, Structural)]
pub enum LitLenToken {
    Literal(u8),
    EndOfBlock,
    Length { base: u16, extra_bits: u8 },
}

impl HuffmanSymbol for LitLenToken {
    open spec fn spec_from_word(w: u16) -> Option<Self> {
        if w <= 255 {
            Some(LitLenToken::Literal(w as u8))
        } else if w == 256 {
            Some(LitLenToken::EndOfBlock)
        } else if w <= 264 {
            Some(LitLenToken::Length { base: (w - 254) as u16, extra_bits: 0 })
        } else if w <= 268 {
            Some(LitLenToken::Length { base: (11 + (w - 265) * 2) as u16, extra_bits: 1 })
        } else if w <= 272 {
            Some(LitLenToken::Length { base: (19 + (w - 269) * 4) as u16, extra_bits: 2 })
        } else if w <= 276 {
            Some(LitLenToken::Length { base: (35 + (w - 273) * 8) as u16, extra_bits: 3 })
        } else if w <= 280 {
            Some(LitLenToken::Length { base: (67 + (w - 277) * 16) as u16, extra_bits: 4 })
        } else if w <= 284 {
            Some(LitLenToken::Length { base: (131 + (w - 281) * 32) as u16, extra_bits: 5 })
        } else if w == 285 {
            Some(LitLenToken::Length { base: 258, extra_bits: 0 })
        } else {
            None
        }
    }

    fn token_try_from(word: HuffmanCodeWord) -> (r: Result<Self, Error>) {
        let w = word.0;
        if w <= 255 {
            Ok(Self::Literal(w as u8))
        } else if w == 256 {
            Ok(Self::EndOfBlock)
        } else if w <= 264 {
            Ok(Self::Length { base: w - 254, extra_bits: 0 })
        } else if w <= 268 {
            Ok(Self::Length { base: 11 + (w - 265) * 2, extra_bits: 1 })
        } else if w <= 272 {
            Ok(Self::Length { base: 19 + (w - 269) * 4, extra_bits: 2 })
        } else if w <= 276 {
            Ok(Self::Length { base: 35 + (w - 273) * 8, extra_bits: 3 })
        } else if w <= 280 {
            Ok(Self::Length { base: 67 + (w - 277) * 16, extra_bits: 4 })
        } else if w <= 284 {
            Ok(Self::Length { base: 131 + (w - 281) * 32, extra_bits: 5 })
        } else if w == 285 {
            Ok(Self::Length { base: 258, extra_bits: 0 })
        } else {
            Err(Error::BadCodeWord)
        }
    }
}

/// A distance code: its base distance and how many extra bits follow it
/// (RFC 1951, section 3.2.5).
#[derive(Clone, Copy, Debug, PartialEq, Eq, Structural)]
pub struct DistanceToken {
    pub base: u16,
    pub extra_bits: u8,
}

impl HuffmanSymbol for DistanceToken {
    open spec fn spec_from_word(w: u16) -> Option<Self> {
        // The table of RFC 1951, section 3.2.5.
        if w <= 3 {
            Some(DistanceToken { base: (w + 1) as u16, extra_bits: 0 })
        } else if w <= 29 {
            let base: u16 = if w == 4 { 5 } else if w == 5 { 7 } else if w == 6 { 9 }
            else if w == 7 { 13 } else if w == 8 { 17 } else if w == 9 { 25 }
            else if w == 10 { 33 } else if w == 11 { 49 } else if w == 12 { 65 }
            else if w == 13 { 97 } else if w == 14 { 129 } else if w == 15 { 193 }
            else if w == 16 { 257 } else if w == 17 { 385 } else if w == 18 { 513 }
            else if w == 19 { 769 } else if w == 20 { 1025 } else if w == 21 { 1537 }
            else if w == 22 { 2049 } else if w == 23 { 3073 } else if w == 24 { 4097 }
            else if w == 25 { 6145 } else if w == 26 { 8193 } else if w == 27 { 12289 }
            else if w == 28 { 16385 } else { 24577 };
            Some(DistanceToken { base, extra_bits: ((w / 2) - 1) as u8 })
        } else {
            None
        }
    }

    #[verifier::rlimit(50)]
    fn token_try_from(word: HuffmanCodeWord) -> (r: Result<Self, Error>) {
        let w = word.0;
        // See RFC 1951, section 3.2.5.
        let r = if w <= 3 {
            Ok(DistanceToken { base: w + 1, extra_bits: 0 })
        } else if w == 4 {
            Ok(DistanceToken { base: 5, extra_bits: 1 })
        } else if w == 5 {
            Ok(DistanceToken { base: 7, extra_bits: 1 })
        } else if w == 6 {
            Ok(DistanceToken { base: 9, extra_bits: 2 })
        } else if w == 7 {
            Ok(DistanceToken { base: 13, extra_bits: 2 })
        } else if w == 8 {
            Ok(DistanceToken { base: 17, extra_bits: 3 })
        } else if w == 9 {
            Ok(DistanceToken { base: 25, extra_bits: 3 })
        } else if w == 10 {
            Ok(DistanceToken { base: 33, extra_bits: 4 })
        } else if w == 11 {
            Ok(DistanceToken { base: 49, extra_bits: 4 })
        } else if w == 12 {
            Ok(DistanceToken { base: 65, extra_bits: 5 })
        } else if w == 13 {
            Ok(DistanceToken { base: 97, extra_bits: 5 })
        } else if w == 14 {
            Ok(DistanceToken { base: 129, extra_bits: 6 })
        } else if w == 15 {
            Ok(DistanceToken { base: 193, extra_bits: 6 })
        } else if w == 16 {
            Ok(DistanceToken { base: 257, extra_bits: 7 })
        } else if w == 17 {
            Ok(DistanceToken { base: 385, extra_bits: 7 })
        } else if w == 18 {
            Ok(DistanceToken { base: 513, extra_bits: 8 })
        } else if w == 19 {
            Ok(DistanceToken { base: 769, extra_bits: 8 })
        } else if w == 20 {
            Ok(DistanceToken { base: 1025, extra_bits: 9 })
        } else if w == 21 {
            Ok(DistanceToken { base: 1537, extra_bits: 9 })
        } else if w == 22 {
            Ok(DistanceToken { base: 2049, extra_bits: 10 })
        } else if w == 23 {
            Ok(DistanceToken { base: 3073, extra_bits: 10 })
        } else if w == 24 {
            Ok(DistanceToken { base: 4097, extra_bits: 11 })
        } else if w == 25 {
            Ok(DistanceToken { base: 6145, extra_bits: 11 })
        } else if w == 26 {
            Ok(DistanceToken { base: 8193, extra_bits: 12 })
        } else if w == 27 {
            Ok(DistanceToken { base: 12289, extra_bits: 12 })
        } else if w == 28 {
            Ok(DistanceToken { base: 16385, extra_bits: 13 })
        } else if w == 29 {
            Ok(DistanceToken { base: 24577, extra_bits: 13 })
        } else {
            Err(Error::BadCodeWord)
        };
        r
    }
}

/// The number of the bit sequence `s`, its first element being the least
/// significant bit.
pub open spec fn bits_val(s: Seq<bool>) -> nat
    decreases s.len(),
{
    if s.len() == 0 {
        0
    } else {
        (if s[0] {
            1nat
        } else {
            0nat
        }) + 2 * bits_val(s.skip(1))
    }
}

pub(crate) proof fn lemma_bits_val_reconstruct(x: u16, n: nat)
    requires
        n <= 16,
        n < 16 ==> x < (1u16 << (n as u16)),
    ensures
        bits_val(bits_seq(x, n)) == x,
    decreases n,
{
    if n == 0 {
        assert((1u16 << 0u16) == 1) by (bit_vector);
        assert(bits_seq(x, 0) =~= Seq::<bool>::empty());
    } else {
        let rest = bits_seq((x >> 1u16) as u16, (n - 1) as nat);
        assert forall|i: int| 0 <= i < n - 1 implies bits_seq(x, n).skip(1)[i] == rest[i] by {
            crate::bit_reader::lemma_shift_bit(x, 1, 16, i as u16);
        }
        assert(bits_seq(x, n).skip(1) =~= rest);
        crate::bit_reader::lemma_shift_bit(x, 1, if n < 16 { n as u16 } else { 16 }, 0);
        lemma_bits_val_reconstruct(x >> 1u16, (n - 1) as nat);
        assert((x as int) == (if bit_of(x, 0) {
            1int
        } else {
            0int
        }) + 2 * ((x >> 1u16) as int)) by (bit_vector);
    }
}

/// Two well-formed bit sequences with the same bits are the same value: the
/// stored bits above the length are zero, so the fields are determined.
pub proof fn lemma_bitseq_injective(a: BitSequence, b: BitSequence)
    requires
        a.wf(),
        b.wf(),
        a.len == b.len,
        a@ == b@,
    ensures
        a == b,
{
    lemma_bits_val_reconstruct(a.bits, a.len as nat);
    lemma_bits_val_reconstruct(b.bits, b.len as nat);
}

/// The mapping that a list of (code, token) entries denotes; a later entry
/// with the same code overrides an earlier one.
pub open spec fn entries_map<T>(s: Seq<(BitSequence, T)>) -> Map<BitSequence, T>
    decreases s.len(),
{
    if s.len() == 0 {
        Map::empty()
    } else {
        entries_map(s.drop_last()).insert(s.last().0, s.last().1)
    }
}

/// Looks a key up in a map, as an `Option`.
pub open spec fn spec_lookup<T>(m: Map<BitSequence, T>, key: BitSequence) -> Option<T> {
    if m.dom().contains(key) {
        Some(m[key])
    } else {
        None
    }
}

/// The code built from the first `k` bits of a stream: the first bit read
/// becomes the most significant bit of the accumulated code.
pub open spec fn prefix_key(bits: Seq<bool>, k: int) -> BitSequence {
    BitSequence { bits: bits_val(bits.take(k).reverse()) as u16, len: k as u8 }
}

/// The token decoded by the shortest matching prefix of `bits` of length at
/// least `k`, together with how many bits that prefix has.  No code is longer
/// than 16 bits, and decoding stops when the stream runs out.
pub open spec fn spec_decode<T>(m: Map<BitSequence, T>, bits: Seq<bool>, k: int) -> Option<(T, int)>
    decreases 17 - k,
    when k >= 1
{
    if k > 16 || k > bits.len() {
        None
    } else if m.dom().contains(prefix_key(bits, k)) {
        Some((m[prefix_key(bits, k)], k))
    } else {
        spec_decode(m, bits, k + 1)
    }
}

/// A canonical Huffman decoding table for tokens of alphabet `T`, stored as
/// (code, token) entries.
pub struct HuffmanCoding<T: HuffmanSymbol> {
    pub map: Vec<(BitSequence, T)>,
}

impl<T: HuffmanSymbol> HuffmanCoding<T> {
    /// The mapping from codes to tokens that the entries denote.
    pub open spec fn table(self) -> Map<BitSequence, T> {
        entries_map(self.map@)
    }

    /// Every code is well formed and between 1 and 15 bits long.
    pub open spec fn wf(self) -> bool {
        forall|j: int|
            0 <= j < self.map@.len() ==> (#[trigger] self.map@[j]).0.wf() && 1 <= self.map@[
                j
            ].0.len <= 15
    }

    /// Looks up the token whose code is exactly `seq`, if any.
    pub fn decode_symbol(&self, seq: BitSequence) -> (r: Option<T>)
        ensures
            r == spec_lookup(self.table(), seq),
    {
        let ghost full = self.map@;
        let mut i: usize = self.map.len();
        proof {
            assert(full.take(i as int) =~= full);
        }
        while i > 0
            invariant
                i <= self.map@.len(),
                self.map@ == full,
                spec_lookup(entries_map(full), seq) == spec_lookup(
                    entries_map(full.take(i as int)),
                    seq,
                ),
            decreases i,
        {
            i = i - 1;
            proof {
                assert(full.take(i + 1).drop_last() =~= full.take(i as int));
                assert(full.take(i + 1).last() == full[i as int]);
            }
            let entry = &self.map[i];
            if entry.0 == seq {
                return Some(entry.1);
            }
        }
        proof {
            assert(full.take(0) =~= Seq::<(BitSequence, T)>::empty());
        }
        None
    }

    /// Reads bits one at a time, each new bit entering at the low end of the
    /// accumulated code, until the code matches a table entry.  Fails when
    /// the stream ends first, or after 16 bits without a match.
    pub fn read_symbol<'a>(&self, bit_reader: &mut BitReader<'a>) -> (r: Result<T, Error>)
        requires
            self.wf(),
            old(bit_reader).wf(),
        ensures
            final(bit_reader).wf(),
            final(bit_reader).stream.data@ == old(bit_reader).stream.data@,
            final(bit_reader).stream.pos >= old(bit_reader).stream.pos,
            final(bit_reader).bits().len() <= old(bit_reader).bits().len(),
            match spec_decode(self.table(), old(bit_reader).bits(), 1) {
                Some((t, k)) => r == Ok::<T, Error>(t) && final(bit_reader).bits() == old(
                    bit_reader,
                ).bits().skip(k),
                None => if old(bit_reader).bits().len() >= 16 {
                    r == Err::<T, Error>(Error::NoSymbolFound)
                } else {
                    r == Err::<T, Error>(Error::UnexpectedEof)
                },
            },
    {
        let ghost ob = old(bit_reader).bits();
        let ghost m = self.table();
        let mut acc = BitSequence::new(0, 0);
        let mut count: u8 = 0;
        proof {
            assert(acc@ =~= ob.take(0).reverse());
        }
        loop
            invariant
                self.wf(),
                m == self.table(),
                ob == old(bit_reader).bits(),
                bit_reader.wf(),
                bit_reader.stream.data@ == old(bit_reader).stream.data@,
                bit_reader.stream.pos >= old(bit_reader).stream.pos,
                count <= 16,
                acc.wf(),
                acc.len == count,
                count as int <= ob.len(),
                acc@ == ob.take(count as int).reverse(),
                bit_reader.bits() == ob.skip(count as int),
                spec_decode(m, ob, 1) == spec_decode(m, ob, count + 1),
            decreases 16 - count,
        {
            if count == 16 {
                proof {
                    assert(spec_decode(m, ob, 17) == None::<(T, int)>);
                }
                return Err(Error::NoSymbolFound);
            }
            match bit_reader.read_bits(1) {
                Err(_) => {
                    proof {
                        assert(ob.len() == count);
                        assert(spec_decode(m, ob, count + 1) == None::<(T, int)>);
                    }
                    return Err(Error::UnexpectedEof);
                },
                Ok(b) => {
                    acc = b.concat(acc);
                    count = count + 1;
                    proof {
                        assert(b@[0] == ob[count - 1]);
                        assert(acc@ =~= ob.take(count as int).reverse());
                        lemma_bits_val_reconstruct(acc.bits, acc.len as nat);
                        assert(acc == prefix_key(ob, count as int));
                        assert(bit_reader.bits() =~= ob.skip(count as int));
                    }
                    match self.decode_symbol(acc) {
                        Some(val) => {
                            proof {
                                assert(m.dom().contains(prefix_key(ob, count as int)));
                                assert(spec_decode(m, ob, count as int) == Some(
                                    (m[prefix_key(ob, count as int)], count as int)));
                                assert(spec_decode(m, ob, 1) == Some((val, count as int)));
                            }
                            return Ok(val);
                        },
                        None => {
                            proof {
                                assert(spec_decode(m, ob, count as int) == spec_decode(
                                    m, ob, count + 1));
                            }
                        },
                    }
                },
            }
        }
    }
}

/// How many entries of `ls` are the code length `l`.
pub open spec fn count_len(ls: Seq<u8>, l: int) -> int
    decreases ls.len(),
{
    if ls.len() == 0 {
        0
    } else {
        count_len(ls.drop_last(), l) + if ls.last() == l {
            1int
        } else {
            0int
        }
    }
}

/// The smallest canonical code value of length `l` (RFC 1951, section 3.2.2):
/// past the end of each shorter length class, shifted up one bit.
pub open spec fn first_code(ls: Seq<u8>, l: int) -> int
    decreases l,
{
    if l <= 0 {
        0
    } else {
        (first_code(ls, l - 1) + if l - 1 == 0 {
            0int
        } else {
            count_len(ls, l - 1)
        }) * 2
    }
}

/// The canonical code value assigned to symbol `i`: the first code of its
/// length class, plus how many earlier symbols share that length.
pub open spec fn spec_code_value(ls: Seq<u8>, i: int) -> int {
    first_code(ls, ls[i] as int) + count_len(ls.take(i), ls[i] as int)
}

/// The low `n` bits of `v`, as a code of `n` bits.
pub open spec fn low_bits_key(v: int, n: u8) -> BitSequence
    recommends
        1 <= n && n <= 15,
{
    BitSequence { bits: (((v % 65536) as u16) & (((1u16 << (n as u16)) - 1) as u16)), len: n }
}

/// The canonical decoding table for the first `k` symbols of a length list:
/// every symbol with a nonzero length is present under its canonical code,
/// a later symbol overriding an earlier one if their codes collide.
pub open spec fn spec_table<T: HuffmanSymbol>(ls: Seq<u8>, k: int) -> Map<BitSequence, T>
    decreases k,
{
    if k <= 0 {
        Map::empty()
    } else {
        let m = spec_table::<T>(ls, k - 1);
        if ls[k - 1] == 0 {
            m
        } else {
            m.insert(
                low_bits_key(spec_code_value(ls, k - 1), ls[k - 1]),
                T::spec_from_word((k - 1) as u16).unwrap(),
            )
        }
    }
}

proof fn lemma_count_len_bound(ls: Seq<u8>, l: int)
    ensures
        0 <= count_len(ls, l) <= ls.len(),
    decreases ls.len(),
{
    if ls.len() > 0 {
        lemma_count_len_bound(ls.drop_last(), l);
    }
}

/// An upper bound for `first_code` of a list of at most 65536 lengths.
spec fn bound_fc(l: int) -> int
    decreases l,
{
    if l <= 0 {
        0
    } else {
        2 * (bound_fc(l - 1) + 65536)
    }
}

proof fn lemma_first_code_bound(ls: Seq<u8>, l: int)
    requires
        ls.len() <= 65536,
    ensures
        0 <= first_code(ls, l) <= bound_fc(l),
    decreases l,
{
    if l > 0 {
        lemma_first_code_bound(ls, l - 1);
        lemma_count_len_bound(ls, l - 1);
    }
}

proof fn lemma_bound_fc_nonneg(l: int)
    ensures
        bound_fc(l) >= 0,
    decreases l,
{
    if l > 0 {
        lemma_bound_fc_nonneg(l - 1);
    }
}

proof fn lemma_bound_fc_at_most_15(l: int)
    requires
        l <= 15,
    ensures
        bound_fc(l) <= bound_fc(15),
    decreases 15 - l,
{
    if l < 15 {
        lemma_bound_fc_at_most_15(l + 1);
        lemma_bound_fc_nonneg(l);
        if l >= 0 {
            assert(bound_fc(l + 1) == 2 * (bound_fc(l) + 65536));
        } else {
            lemma_bound_fc_nonneg(15);
        }
    }
}

proof fn lemma_bound_fc_15_value()
    ensures
        bound_fc(15) == 4294836224,
{
    assert(bound_fc(0) == 0);
    assert(bound_fc(1) == 131072);
    assert(bound_fc(2) == 393216);
    assert(bound_fc(3) == 917504);
    assert(bound_fc(4) == 1966080);
    assert(bound_fc(5) == 4063232);
    assert(bound_fc(6) == 8257536);
    assert(bound_fc(7) == 16646144);
    assert(bound_fc(8) == 33423360);
    assert(bound_fc(9) == 66977792);
    assert(bound_fc(10) == 134086656);
    assert(bound_fc(11) == 268304384);
    assert(bound_fc(12) == 536739840);
    assert(bound_fc(13) == 1073610752);
    assert(bound_fc(14) == 2147352576);
    assert(bound_fc(15) == 4294836224);
}

impl<T: HuffmanSymbol> HuffmanCoding<T> {
    /// Builds the canonical decoding table from per-symbol code lengths
    /// (index = symbol, value = length in bits, 0 = symbol unused), per the
    /// algorithm of RFC 1951, section 3.2.2.  Fails exactly when a symbol
    /// with a nonzero length lies outside the alphabet.
    pub fn from_lengths(code_lengths: &[u8]) -> (r: Result<Self, Error>)
        requires
            code_lengths@.len() <= 65536,
            forall|i: int| 0 <= i < code_lengths@.len() ==> code_lengths@[i] <= 15,
        ensures
            match r {
                Ok(c) => c.wf() && c.table() == spec_table::<T>(
                    code_lengths@,
                    code_lengths@.len() as int,
                ) && (forall|i: int|
                    0 <= i < code_lengths@.len() && code_lengths@[i] > 0
                        ==> T::spec_from_word(i as u16) is Some),
                Err(e) => e == Error::BadCodeWord && (exists|i: int|
                    0 <= i < code_lengths@.len() && code_lengths@[i] > 0 && T::spec_from_word(
                        i as u16,
                    ) is None),
            },
    {
        let ghost ls = code_lengths@;
        let n = code_lengths.len();
        let mut bl_count: Vec<u64> = vec![0u64; 16];
        let mut ind: usize = 0;
        proof {
            assert(ls.take(0) =~= Seq::<u8>::empty());
        }
        while ind < n
            invariant
                ls == code_lengths@,
                n == ls.len(),
                n <= 65536,
                ind <= n,
                bl_count@.len() == 16,
                forall|l: int| 0 <= l < 16 ==> 0 <= #[trigger] bl_count@[l] <= ind,
                bl_count@[0] == 0,
                forall|l: int| 1 <= l < 16 ==> bl_count@[l] == count_len(ls.take(ind as int), l),
                forall|i: int| 0 <= i < n ==> ls[i] <= 15,
            decreases n - ind,
        {
            let len = code_lengths[ind];
            if len > 0 {
                let c = bl_count[len as usize];
                bl_count[len as usize] = c + 1;
            }
            ind = ind + 1;
            proof {
                assert(ls.take(ind as int).drop_last() =~= ls.take(ind - 1));
                assert(ls.take(ind as int).last() == ls[ind - 1]);
                assert forall|l: int| 1 <= l < 16 implies bl_count@[l] == count_len(
                    ls.take(ind as int),
                    l,
                ) by {
                    assert(count_len(ls.take(ind as int), l) == count_len(ls.take(ind - 1), l)
                        + if ls[ind - 1] == l {
                        1int
                    } else {
                        0int
                    });
                }
            }
        }
        proof {
            assert(ls.take(n as int) =~= ls);
        }
        let mut next_code: Vec<u64> = vec![0u64; 16];
        let mut code: u64 = 0;
        let mut bits: usize = 1;
        while bits < 16
            invariant
                ls == code_lengths@,
                n == ls.len(),
                n <= 65536,
                1 <= bits <= 16,
                bl_count@.len() == 16,
                bl_count@[0] == 0,
                forall|l: int| 0 <= l < 16 ==> 0 <= #[trigger] bl_count@[l] <= n,
                forall|l: int| 1 <= l < 16 ==> bl_count@[l] == count_len(ls, l),
                next_code@.len() == 16,
                code == first_code(ls, bits - 1),
                forall|l: int| 1 <= l < bits ==> next_code@[l] == first_code(ls, l),
            decreases 16 - bits,
        {
            proof {
                lemma_first_code_bound(ls, bits - 1);
                lemma_bound_fc_at_most_15(bits - 1);
                lemma_bound_fc_15_value();
            }
            code = (code + bl_count[bits - 1]) * 2;
            next_code[bits] = code;
            bits = bits + 1;
        }
        let mut map: Vec<(BitSequence, T)> = Vec::new();
        let mut ind: usize = 0;
        while ind < n
            invariant
                ls == code_lengths@,
                n == ls.len(),
                n <= 65536,
                ind <= n,
                forall|i: int| 0 <= i < n ==> ls[i] <= 15,
                next_code@.len() == 16,
                forall|l: int|
                    1 <= l < 16 ==> next_code@[l] == first_code(ls, l) + count_len(
                        ls.take(ind as int),
                        l,
                    ),
                entries_map(map@) == spec_table::<T>(ls, ind as int),
                forall|j: int|
                    0 <= j < map@.len() ==> (#[trigger] map@[j]).0.wf() && 1 <= map@[j].0.len <= 15,
                forall|i: int|
                    0 <= i < ind && ls[i] > 0 ==> T::spec_from_word(i as u16) is Some,
            decreases n - ind,
        {
            let code_len = code_lengths[ind];
            let ghost prev_map = map@;
            if code_len != 0 {
                match T::token_try_from(HuffmanCodeWord(ind as u16)) {
                    Ok(value) => {
                        proof {
                            lemma_first_code_bound(ls, code_len as int);
                            lemma_bound_fc_at_most_15(code_len as int);
                            lemma_bound_fc_15_value();
                            lemma_count_len_bound(ls.take(ind as int), code_len as int);
                            assert(ls.take(ind as int).len() <= n);
                        }
                        let nc = next_code[code_len as usize];
                        let bits16: u16 = (nc % 65536) as u16;
                        let key = BitSequence::new(bits16, code_len);
                        proof {
                            assert(nc == spec_code_value(ls, ind as int));
                            assert(key == low_bits_key(spec_code_value(ls, ind as int), code_len));
                        }
                        map.push((key, value));
                        next_code[code_len as usize] = nc + 1;
                        proof {
                            assert(map@.drop_last() =~= prev_map);
                            assert(map@.last() == (key, value));
                            assert(entries_map(map@) == entries_map(prev_map).insert(key, value));
                        }
                    },
                    Err(e) => {
                        return Err(e);
                    },
                }
            }
            ind = ind + 1;
            proof {
                assert(ls.take(ind as int).drop_last() =~= ls.take(ind - 1));
                assert(ls.take(ind as int).last() == ls[ind - 1]);
                assert forall|l: int| 1 <= l < 16 implies count_len(ls.take(ind as int), l)
                    == count_len(ls.take(ind - 1), l) + (if ls[ind - 1] == l {
                    1int
                } else {
                    0int
                }) by {}
                assert(spec_table::<T>(ls, ind as int) == if ls[ind - 1] == 0 {
                    spec_table::<T>(ls, ind - 1)
                } else {
                    spec_table::<T>(ls, ind - 1).insert(
                        low_bits_key(spec_code_value(ls, ind - 1), ls[ind - 1]),
                        T::spec_from_word((ind - 1) as u16).unwrap(),
                    )
                });
            }
        }
        proof {
            assert(ls.take(n as int) =~= ls);
        }
        Ok(Self { map })
    }
}

/// The order in which the code-length alphabet's own code lengths are stored
/// in a dynamic block header (RFC 1951, section 3.2.7).
pub open spec fn spec_clen_order(i: int) -> int {
    if i == 0 { 16 } else if i == 1 { 17 } else if i == 2 { 18 } else if i == 3 { 0 }
    else if i == 4 { 8 } else if i == 5 { 7 } else if i == 6 { 9 } else if i == 7 { 6 }
    else if i == 8 { 10 } else if i == 9 { 5 } else if i == 10 { 11 } else if i == 11 { 4 }
    else if i == 12 { 12 } else if i == 13 { 3 } else if i == 14 { 13 } else if i == 15 { 2 }
    else if i == 16 { 14 } else if i == 17 { 1 } else { 15 }
}

fn clen_order(i: usize) -> (r: usize)
    requires
        i < 19,
    ensures
        r == spec_clen_order(i as int),
        r < 19,
{
    if i == 0 { 16 } else if i == 1 { 17 } else if i == 2 { 18 } else if i == 3 { 0 }
    else if i == 4 { 8 } else if i == 5 { 7 } else if i == 6 { 9 } else if i == 7 { 6 }
    else if i == 8 { 10 } else if i == 9 { 5 } else if i == 10 { 11 } else if i == 11 { 4 }
    else if i == 12 { 12 } else if i == 13 { 3 } else if i == 14 { 13 } else if i == 15 { 2 }
    else if i == 16 { 14 } else if i == 17 { 1 } else { 15 }
}

/// Every repeat token of a code-length table carries one of the two
/// parameter pairs that RFC 1951 defines.
pub open spec fn tree_tokens_bounded(m: Map<BitSequence, TreeCodeToken>) -> bool {
    forall|k: BitSequence|
        m.dom().contains(k) ==> match #[trigger] m[k] {
            TreeCodeToken::Length(l) => l <= 15,
            TreeCodeToken::CopyPrev => true,
            TreeCodeToken::RepeatZero { base, extra_bits } => (base == 3 && extra_bits == 3) || (
            base == 11 && extra_bits == 7),
        }
}

pub proof fn lemma_tree_table_bounded(ls: Seq<u8>, k: int)
    requires
        k <= 65536,
        forall|i: int|
            0 <= i < k && ls[i] > 0 ==> TreeCodeToken::spec_from_word(i as u16) is Some,
    ensures
        tree_tokens_bounded(spec_table::<TreeCodeToken>(ls, k)),
    decreases k,
{
    if k > 0 {
        lemma_tree_table_bounded(ls, k - 1);
    }
}

/// A successful decode returns the table's token for the consumed prefix.
pub proof fn lemma_spec_decode_in_table<T>(m: Map<BitSequence, T>, bits: Seq<bool>, k0: int)
    requires
        1 <= k0,
        spec_decode(m, bits, k0) is Some,
    ensures
        m.dom().contains(prefix_key(bits, spec_decode(m, bits, k0).unwrap().1)),
        m[prefix_key(bits, spec_decode(m, bits, k0).unwrap().1)] == spec_decode(
            m,
            bits,
            k0,
        ).unwrap().0,
        k0 <= spec_decode(m, bits, k0).unwrap().1 <= 16,
        spec_decode(m, bits, k0).unwrap().1 <= bits.len(),
    decreases 17 - k0,
{
    if !(k0 > 16 || k0 > bits.len()) && !m.dom().contains(prefix_key(bits, k0)) {
        lemma_spec_decode_in_table(m, bits, k0 + 1);
    }
}

/// Every length token of a literal/length table stays within the bounds of
/// RFC 1951's length table.
pub open spec fn litlen_tokens_bounded(m: Map<BitSequence, LitLenToken>) -> bool {
    forall|k: BitSequence|
        m.dom().contains(k) ==> match #[trigger] m[k] {
            LitLenToken::Length { base, extra_bits } => 3 <= base <= 258 && extra_bits <= 5,
            _ => true,
        }
}

pub proof fn lemma_litlen_table_bounded(ls: Seq<u8>, k: int)
    requires
        k <= 65536,
        forall|i: int| 0 <= i < k && ls[i] > 0 ==> LitLenToken::spec_from_word(i as u16) is Some,
    ensures
        litlen_tokens_bounded(spec_table::<LitLenToken>(ls, k)),
    decreases k,
{
    if k > 0 {
        lemma_litlen_table_bounded(ls, k - 1);
    }
}

/// Every distance token stays within the bounds of RFC 1951's distance
/// table: in particular its base distance is at least 1.
pub open spec fn distance_tokens_bounded(m: Map<BitSequence, DistanceToken>) -> bool {
    forall|k: BitSequence|
        m.dom().contains(k) ==> 1 <= (#[trigger] m[k]).base <= 24577 && m[k].extra_bits <= 13
}

pub proof fn lemma_distance_table_bounded(ls: Seq<u8>, k: int)
    requires
        k <= 65536,
        forall|i: int| 0 <= i < k && ls[i] > 0 ==> DistanceToken::spec_from_word(i as u16) is Some,
    ensures
        distance_tokens_bounded(spec_table::<DistanceToken>(ls, k)),
    decreases k,
{
    if k > 0 {
        lemma_distance_table_bounded(ls, k - 1);
    }
}

/// The code lengths that the code-length alphabet decodes from a bit stream,
/// starting from the lengths `acc`, until at least `num` lengths exist: each
/// token appends one literal length, three to six copies of the previous
/// length, or a run of zeros.  `None` when the stream ends first, no code
/// matches, or a repeat comes before any length.
pub open spec fn spec_find_sizes(
    m: Map<BitSequence, TreeCodeToken>,
    bits: Seq<bool>,
    acc: Seq<u8>,
    num: int,
) -> Option<(Seq<u8>, Seq<bool>)>
    decreases bits.len(),
{
    if acc.len() >= num {
        Some((acc, bits))
    } else if bits.len() == 0 {
        None
    } else {
        match spec_decode(m, bits, 1) {
            Option::None => None,
            Option::Some((t, k0)) => {
                // A decoded prefix holds at least one bit and never more
                // than the stream.
                let k = if k0 < 1 {
                    1int
                } else if k0 > bits.len() {
                    bits.len() as int
                } else {
                    k0
                };
                let rest = bits.skip(k);
                match t {
                    TreeCodeToken::Length(l) => spec_find_sizes(m, rest, acc.push(l), num),
                    TreeCodeToken::CopyPrev => if acc.len() == 0 || rest.len() < 2 {
                        None
                    } else {
                        let n = bits_val(rest.take(2)) + 3;
                        spec_find_sizes(
                            m,
                            rest.skip(2),
                            acc + Seq::new(n as nat, |i: int| acc.last()),
                            num,
                        )
                    },
                    TreeCodeToken::RepeatZero { base, extra_bits } => if rest.len()
                        < extra_bits {
                        None
                    } else {
                        let n = bits_val(rest.take(extra_bits as int)) + base;
                        spec_find_sizes(
                            m,
                            rest.skip(extra_bits as int),
                            acc + Seq::new(n as nat, |i: int| 0u8),
                            num,
                        )
                    },
                }
            },
        }
    }
}

/// Decodes per-symbol code lengths with the code-length alphabet until at
/// least `num_tokens` lengths have been produced: literal lengths, repeats of
/// the previous length, and runs of zeros (RFC 1951, section 3.2.7).
#[verifier::rlimit(60)]
pub fn find_sizes<'a>(
    bit_reader: &mut BitReader<'a>,
    num_tokens: usize,
    encoder_tree: &HuffmanCoding<TreeCodeToken>,
) -> (r: Result<Vec<u8>, Error>)
    requires
        old(bit_reader).wf(),
        encoder_tree.wf(),
        tree_tokens_bounded(encoder_tree.table()),
        num_tokens <= 65536,
    ensures
        final(bit_reader).wf(),
        final(bit_reader).stream.data@ == old(bit_reader).stream.data@,
        final(bit_reader).stream.pos >= old(bit_reader).stream.pos,
        final(bit_reader).bits().len() <= old(bit_reader).bits().len(),
        r is Ok ==> final(bit_reader).bits() == old(bit_reader).bits().skip(
            old(bit_reader).bits().len() - final(bit_reader).bits().len(),
        ),
        r is Ok <==> spec_find_sizes(
            encoder_tree.table(),
            old(bit_reader).bits(),
            Seq::empty(),
            num_tokens as int,
        ) is Some,
        match r {
            Ok(v) => spec_find_sizes(
                encoder_tree.table(),
                old(bit_reader).bits(),
                Seq::empty(),
                num_tokens as int,
            ) == Some((v@, final(bit_reader).bits())) && v@.len() >= num_tokens && v@.len()
                <= num_tokens + 137 && (forall|i: int|
                0 <= i < v@.len() ==> #[trigger] v@[i] <= 15),
            Err(_) => spec_find_sizes(
                encoder_tree.table(),
                old(bit_reader).bits(),
                Seq::empty(),
                num_tokens as int,
            ) is None,
        },
{
    let ghost m = encoder_tree.table();
    let ghost ob = old(bit_reader).bits();
    let ghost num = num_tokens as int;
    let mut sizes: Vec<u8> = Vec::new();
    proof {
        assert(sizes@ =~= Seq::<u8>::empty());
    }
    loop
        invariant
            bit_reader.wf(),
            bit_reader.stream.data@ == old(bit_reader).stream.data@,
            bit_reader.stream.pos >= old(bit_reader).stream.pos,
            bit_reader.bits().len() <= old(bit_reader).bits().len(),
            encoder_tree.wf(),
            m == encoder_tree.table(),
            ob == old(bit_reader).bits(),
            num == num_tokens as int,
            tree_tokens_bounded(encoder_tree.table()),
            num_tokens <= 65536,
            sizes@.len() <= num_tokens + 137,
            forall|i: int| 0 <= i < sizes@.len() ==> #[trigger] sizes@[i] <= 15,
            bit_reader.bits() == ob.skip(ob.len() - bit_reader.bits().len()),
            spec_find_sizes(m, ob, Seq::empty(), num) == spec_find_sizes(
                m,
                bit_reader.bits(),
                sizes@,
                num,
            ),
        ensures
            bit_reader.wf(),
            bit_reader.stream.data@ == old(bit_reader).stream.data@,
            bit_reader.stream.pos >= old(bit_reader).stream.pos,
            bit_reader.bits().len() <= old(bit_reader).bits().len(),
            sizes@.len() >= num_tokens,
            sizes@.len() <= num_tokens + 137,
            forall|i: int| 0 <= i < sizes@.len() ==> #[trigger] sizes@[i] <= 15,
            bit_reader.bits() == ob.skip(ob.len() - bit_reader.bits().len()),
            spec_find_sizes(m, ob, Seq::empty(), num) == Some(
                (sizes@, bit_reader.bits()),
            ),
        decreases num_tokens + 138 - sizes@.len(),
    {
        if sizes.len() >= num_tokens {
            break ;
        }
        let ghost mtab = encoder_tree.table();
        let ghost obits = bit_reader.bits();
        let ghost acc0 = sizes@;
        let token = match encoder_tree.read_symbol(bit_reader) {
            Ok(t) => t,
            Err(e) => {
                proof {
                    assert(spec_find_sizes(m, obits, acc0, num) is None);
                }
                return Err(e);
            },
        };
        proof {
            lemma_spec_decode_in_table(mtab, obits, 1);
        }
        let ghost kk = spec_decode(mtab, obits, 1).unwrap().1;
        let ghost rest = obits.skip(kk);
        proof {
            assert(bit_reader.bits() == rest);
        }
        match token {
            TreeCodeToken::Length(len) => {
                sizes.push(len);
                proof {
                    assert(sizes@ =~= acc0.push(len));
                    assert(spec_find_sizes(m, obits, acc0, num) == spec_find_sizes(
                        m,
                        rest,
                        acc0.push(len),
                        num,
                    ));
                    assert(bit_reader.bits() =~= ob.skip(ob.len() - bit_reader.bits().len()));
                }
            },
            TreeCodeToken::CopyPrev => {
                if sizes.len() == 0 {
                    proof {
                        assert(spec_find_sizes(m, obits, acc0, num) is None);
                    }
                    return Err(Error::RepeatWithoutPrevious);
                }
                let b2 = match bit_reader.read_bits(2) {
                    Ok(b) => b,
                    Err(e) => {
                        proof {
                            assert(rest.len() < 2);
                            assert(spec_find_sizes(m, obits, acc0, num) is None);
                        }
                        return Err(e);
                    },
                };
                proof {
                    assert((1u16 << 2u16) == 4) by (bit_vector);
                    lemma_bits_val_reconstruct(b2.bits, 2);
                    assert(b2@ == rest.take(2));
                }
                let num_copies = b2.bits() + 3;
                let last = sizes[sizes.len() - 1];
                let ghost fill = Seq::new(num_copies as nat, |i: int| acc0.last());
                let mut c: u16 = 0;
                let ghost len0 = sizes@.len();
                while c < num_copies
                    invariant
                        c <= num_copies,
                        3 <= num_copies <= 6,
                        sizes@.len() == len0 + c,
                        len0 == acc0.len() >= 1,
                        sizes@.len() <= num_tokens - 1 + c,
                        last == acc0.last(),
                        last <= 15,
                        fill == Seq::new(num_copies as nat, |i: int| acc0.last()),
                        sizes@ == acc0 + fill.take(c as int),
                        forall|i: int| 0 <= i < sizes@.len() ==> #[trigger] sizes@[i] <= 15,
                        num_tokens <= 65536,
                    decreases num_copies - c,
                {
                    sizes.push(last);
                    c = c + 1;
                    proof {
                        assert(sizes@ =~= acc0 + fill.take(c as int));
                    }
                }
                proof {
                    assert(sizes@ =~= acc0 + fill);
                    assert(spec_find_sizes(m, obits, acc0, num) == spec_find_sizes(
                        m,
                        rest.skip(2),
                        acc0 + fill,
                        num,
                    ));
                    assert(bit_reader.bits() =~= ob.skip(ob.len() - bit_reader.bits().len()));
                }
            },
            TreeCodeToken::RepeatZero { base, extra_bits } => {
                let be = match bit_reader.read_bits(extra_bits) {
                    Ok(b) => b,
                    Err(e) => {
                        proof {
                            assert(rest.len() < extra_bits);
                            assert(spec_find_sizes(m, obits, acc0, num) is None);
                        }
                        return Err(e);
                    },
                };
                proof {
                    assert((1u16 << 3u16) == 8 && (1u16 << 7u16) == 128) by (bit_vector);
                    lemma_bits_val_reconstruct(be.bits, extra_bits as nat);
                    assert(be@ == rest.take(extra_bits as int));
                }
                let num_copies = be.bits() + base;
                let ghost fill = Seq::new(num_copies as nat, |i: int| 0u8);
                let mut c: u16 = 0;
                let ghost len0 = sizes@.len();
                while c < num_copies
                    invariant
                        c <= num_copies,
                        3 <= num_copies <= 138,
                        sizes@.len() == len0 + c,
                        len0 == acc0.len(),
                        sizes@.len() <= num_tokens - 1 + c,
                        fill == Seq::new(num_copies as nat, |i: int| 0u8),
                        sizes@ == acc0 + fill.take(c as int),
                        forall|i: int| 0 <= i < sizes@.len() ==> #[trigger] sizes@[i] <= 15,
                        num_tokens <= 65536,
                    decreases num_copies - c,
                {
                    sizes.push(0);
                    c = c + 1;
                    proof {
                        assert(sizes@ =~= acc0 + fill.take(c as int));
                    }
                }
                proof {
                    assert(sizes@ =~= acc0 + fill);
                    assert(spec_find_sizes(m, obits, acc0, num) == spec_find_sizes(
                        m,
                        rest.skip(extra_bits as int),
                        acc0 + fill,
                        num,
                    ));
                    assert(bit_reader.bits() =~= ob.skip(ob.len() - bit_reader.bits().len()));
                }
            },
        }
    }
    Ok(sizes)
}

/// The 19-entry code-length table described by a dynamic block header after
/// its first `k` three-bit entries, stored in the scrambled order of
/// RFC 1951, section 3.2.7.
pub open spec fn spec_clen_table(ob: Seq<bool>, k: int) -> Seq<u8>
    decreases k,
{
    if k <= 0 {
        Seq::new(19, |i: int| 0u8)
    } else {
        spec_clen_table(ob, k - 1).update(
            spec_clen_order(k - 1),
            bits_val(ob.skip(14 + 3 * (k - 1)).take(3)) as u8,
        )
    }
}

/// The two decoding tables that a dynamic block header describes, and the
/// bit stream after it: the three counts, the code-length code built from
/// the scrambled three-bit entries, and through it the two length lists
/// (RFC 1951, section 3.2.7).
pub open spec fn spec_dynamic_tables(ob: Seq<bool>) -> Option<
    (Map<BitSequence, LitLenToken>, Map<BitSequence, DistanceToken>, Seq<bool>),
> {
    let hlit = bits_val(ob.take(5)) + 257;
    let hdist = bits_val(ob.skip(5).take(5)) + 1;
    let hclen = bits_val(ob.skip(10).take(4)) + 4;
    if ob.len() < 14 + 3 * hclen {
        None
    } else {
        let enc = spec_table::<TreeCodeToken>(spec_clen_table(ob, hclen as int), 19);
        match spec_find_sizes(enc, ob.skip(14 + 3 * (hclen as int)), Seq::empty(), hlit as int) {
            Option::None => None,
            Option::Some(p1) => match spec_find_sizes(enc, p1.1, Seq::empty(), hdist as int) {
                Option::None => None,
                Option::Some(p2) => if (forall|i: int|
                    0 <= i < p1.0.len() && p1.0[i] > 0 ==> LitLenToken::spec_from_word(
                        i as u16,
                    ) is Some) && (forall|i: int|
                    0 <= i < p2.0.len() && p2.0[i] > 0 ==> DistanceToken::spec_from_word(
                        i as u16,
                    ) is Some) {
                    Some(
                        (
                            spec_table::<LitLenToken>(p1.0, p1.0.len() as int),
                            spec_table::<DistanceToken>(p2.0, p2.0.len() as int),
                            p2.1,
                        ),
                    )
                } else {
                    // A length list names a symbol outside its alphabet.
                    None
                },
            },
        }
    }
}

/// A stream too short for the three counts and the scrambled code-length
/// entries cannot describe a dynamic block's tables.
proof fn lemma_spec_dynamic_tables_needs_header(ob: Seq<bool>)
    requires
        ob.len() < 14,
    ensures
        !(spec_dynamic_tables(ob) is Some),
{
    assert(bits_val(ob.skip(10).take(4)) + 4 >= 4);
}

/// Reads a dynamic block's table description and builds the literal/length
/// and distance decoders from it (RFC 1951, section 3.2.7): the three counts,
/// the code-length code, and through it the two length lists.
pub fn decode_litlen_distance_trees<'a>(
    bit_reader: &mut BitReader<'a>,
) -> (r: Result<(HuffmanCoding<LitLenToken>, HuffmanCoding<DistanceToken>), Error>)
    requires
        old(bit_reader).wf(),
    ensures
        final(bit_reader).wf(),
        final(bit_reader).stream.data@ == old(bit_reader).stream.data@,
        final(bit_reader).stream.pos >= old(bit_reader).stream.pos,
        final(bit_reader).bits().len() <= old(bit_reader).bits().len(),
        r is Ok ==> final(bit_reader).bits() == old(bit_reader).bits().skip(
            old(bit_reader).bits().len() - final(bit_reader).bits().len(),
        ),
        r is Ok <==> spec_dynamic_tables(old(bit_reader).bits()) is Some,
        match r {
            Ok(trees) => trees.0.wf() && trees.1.wf() && litlen_tokens_bounded(trees.0.table())
                && distance_tokens_bounded(trees.1.table()) && spec_dynamic_tables(
                old(bit_reader).bits(),
            ) == Some((trees.0.table(), trees.1.table(), final(bit_reader).bits())) && ({
                let ob = old(bit_reader).bits();
                let hlit = bits_val(ob.take(5)) + 257;
                let hdist = bits_val(ob.skip(5).take(5)) + 1;
                let hclen = bits_val(ob.skip(10).take(4)) + 4;
                let enc = spec_table::<TreeCodeToken>(spec_clen_table(ob, hclen as int), 19);
                &&& ob.len() >= 14 + 3 * hclen
                &&& match spec_find_sizes(enc, ob.skip(14 + 3 * (hclen as int)), Seq::empty(), hlit as int) {
                    Option::Some(p1) => {
                        &&& trees.0.table() == spec_table::<LitLenToken>(p1.0, p1.0.len() as int)
                        &&& match spec_find_sizes(enc, p1.1, Seq::empty(), hdist as int) {
                            Option::Some(p2) => trees.1.table() == spec_table::<DistanceToken>(
                                p2.0,
                                p2.0.len() as int,
                            ) && final(bit_reader).bits() == p2.1,
                            Option::None => false,
                        }
                    },
                    Option::None => false,
                }
            }),
            Err(_) => true,
        },
{
    proof {
        assert((1u16 << 5u16) == 32 && (1u16 << 4u16) == 16 && (1u16 << 3u16) == 8) by (bit_vector);
    }
    let ghost ob = old(bit_reader).bits();
    let hlit = match bit_reader.read_bits(5) {
        Ok(b) => {
            proof {
                lemma_bits_val_reconstruct(b.bits, 5);
            }
            b.bits() + 257
        },
        Err(e) => {
            proof {
                lemma_spec_dynamic_tables_needs_header(ob);
            }
            return Err(e);
        },
    };
    let hdist = match bit_reader.read_bits(5) {
        Ok(b) => {
            proof {
                lemma_bits_val_reconstruct(b.bits, 5);
                assert(b@ == ob.skip(5).take(5));
            }
            b.bits() + 1
        },
        Err(e) => {
            proof {
                lemma_spec_dynamic_tables_needs_header(ob);
            }
            return Err(e);
        },
    };
    let hclen = match bit_reader.read_bits(4) {
        Ok(b) => {
            proof {
                lemma_bits_val_reconstruct(b.bits, 4);
                assert(b@ == ob.skip(10).take(4));
                assert(bit_reader.bits() =~= ob.skip(14));
            }
            b.bits() + 4
        },
        Err(e) => {
            proof {
                lemma_spec_dynamic_tables_needs_header(ob);
            }
            return Err(e);
        },
    };
    proof {
        assert(hlit == bits_val(ob.take(5)) + 257);
        assert(hdist == bits_val(ob.skip(5).take(5)) + 1);
        assert(hclen == bits_val(ob.skip(10).take(4)) + 4);
    }
    let mut code_len: Vec<u8> = Vec::new();
    let mut i: usize = 0;
    while i < 19
        invariant
            code_len@.len() == i,
            i <= 19,
            forall|j: int| 0 <= j < i ==> #[trigger] code_len@[j] == 0,
        decreases 19 - i,
    {
        code_len.push(0);
        i = i + 1;
    }
    proof {
        assert(code_len@ =~= spec_clen_table(ob, 0));
    }
    let mut ind: usize = 0;
    while ind < hclen as usize
        invariant
            bit_reader.wf(),
            bit_reader.stream.data@ == old(bit_reader).stream.data@,
            bit_reader.stream.pos >= old(bit_reader).stream.pos,
            bit_reader.bits().len() <= old(bit_reader).bits().len(),
            ob == old(bit_reader).bits(),
            ind <= hclen,
            4 <= hclen <= 19,
            hclen == bits_val(ob.skip(10).take(4)) + 4,
            code_len@.len() == 19,
            forall|j: int| 0 <= j < 19 ==> #[trigger] code_len@[j] <= 15,
            code_len@ == spec_clen_table(ob, ind as int),
            14 + 3 * (ind as int) <= ob.len(),
            bit_reader.bits() == ob.skip(14 + 3 * (ind as int)),
        decreases hclen - ind,
    {
        let b = match bit_reader.read_bits(3) {
            Ok(b) => b,
            Err(e) => {
                proof {
                    assert(ob.len() < 14 + 3 * ((ind as int) + 1) <= 14 + 3 * (
                    bits_val(ob.skip(10).take(4)) + 4));
                    assert(!(spec_dynamic_tables(ob) is Some));
                }
                return Err(e);
            },
        };
        proof {
            assert((1u16 << 3u16) == 8) by (bit_vector);
            lemma_bits_val_reconstruct(b.bits, 3);
            assert(b@ == ob.skip(14 + 3 * (ind as int)).take(3));
        }
        let v: u8 = b.bits() as u8;
        let slot = clen_order(ind);
        code_len[slot] = v;
        ind = ind + 1;
        proof {
            assert(code_len@ =~= spec_clen_table(ob, ind as int));
            assert(bit_reader.bits() =~= ob.skip(14 + 3 * (ind as int)));
        }
    }
    let encoder_tree = match HuffmanCoding::<TreeCodeToken>::from_lengths(code_len.as_slice()) {
        Ok(t) => t,
        Err(_) => {
            // Every index of the 19-entry table lies in the code-length
            // alphabet, so building its decoder cannot fail.
            proof {
                assert forall|j: int|
                    0 <= j < code_len@.len() && code_len@[j] > 0 implies
                    TreeCodeToken::spec_from_word(j as u16) is Some by {}
            }
            return vstd::pervasive::unreached();
        },
    };
    proof {
        lemma_tree_table_bounded(code_len@, 19);
        assert(encoder_tree.table() == spec_table::<TreeCodeToken>(
            spec_clen_table(ob, hclen as int),
            19,
        ));
    }
    let ghost bits0 = bit_reader.bits();
    let litlen_sizes = match find_sizes(bit_reader, hlit as usize, &encoder_tree) {
        Ok(v) => v,
        Err(e) => {
            return Err(e);
        },
    };
    let ghost bits1 = bit_reader.bits();
    let distance_sizes = match find_sizes(bit_reader, hdist as usize, &encoder_tree) {
        Ok(v) => v,
        Err(e) => {
            return Err(e);
        },
    };
    let ghost bits2 = bit_reader.bits();
    let litlen_coder = match HuffmanCoding::<LitLenToken>::from_lengths(litlen_sizes.as_slice()) {
        Ok(t) => t,
        Err(e) => {
            return Err(e);
        },
    };
    let distance_coder = match HuffmanCoding::<DistanceToken>::from_lengths(
        distance_sizes.as_slice(),
    ) {
        Ok(t) => t,
        Err(e) => {
            return Err(e);
        },
    };
    proof {
        lemma_litlen_table_bounded(litlen_sizes@, litlen_sizes@.len() as int);
        lemma_distance_table_bounded(distance_sizes@, distance_sizes@.len() as int);
        let enc = spec_table::<TreeCodeToken>(spec_clen_table(ob, hclen as int), 19);
        assert(bits0 == ob.skip(14 + 3 * (hclen as int)));
        assert(spec_find_sizes(enc, bits0, Seq::empty(), hlit as int) == Some(
            (litlen_sizes@, bits1),
        ));
        assert(spec_find_sizes(enc, bits1, Seq::empty(), hdist as int) == Some(
            (distance_sizes@, bits2),
        ));
        assert(litlen_coder.table() == spec_table::<LitLenToken>(
            litlen_sizes@,
            litlen_sizes@.len() as int,
        ));
        assert(distance_coder.table() == spec_table::<DistanceToken>(
            distance_sizes@,
            distance_sizes@.len() as int,
        ));
        assert(spec_dynamic_tables(ob) == Some(
            (litlen_coder.table(), distance_coder.table(), bits2),
        ));
        assert(bits2 =~= ob.skip(ob.len() - bits2.len()));
    }
    Ok((litlen_coder, distance_coder))
}

} // verus!
