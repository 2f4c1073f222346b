//! A verified decompressor for the gzip container format (RFC 1952) and the
//! DEFLATE bitstream it embeds (RFC 1951), together with a collection of
//! small verified data structures and utilities.
use vstd::prelude::*;

mod bit_reader;
mod combinations;
mod conway;
mod deflate;
mod flat_map;
mod gzip;
mod huffman_coding;
mod lru_cache;
mod min_queue;
mod pstack;
mod prefix;
mod tracking_writer;
mod trust;

pub use lru_cache::LRUCache;
pub use trust::RoundOutcome;
pub use trust::AgentType;
pub use trust::Tactics;
pub use trust::Strategy;
pub use trust::Game;
pub use trust::Player;
pub use trust::CheatingAgent;
pub use trust::CooperatingAgent;
pub use trust::GrudgerAgent;
pub use trust::CopycatAgent;
pub use trust::DetectiveAgent;
pub use flat_map::FlatMap;
pub use pstack::Node;
pub use pstack::PRef;
pub use pstack::PStack;
pub use pstack::PStackIterator;
pub use min_queue::MinStack;
pub use min_queue::MinQueue;
pub use conway::Grid;
pub use conway::Cell;
pub use conway::GameOfLife;
pub use combinations::combinations;
pub use combinations::get_next;
pub use prefix::longest_common_prefix;
pub use prefix::find_longest_common_prefix;
pub use bit_reader::BitSequence;
pub use bit_reader::BitReader;
pub use bit_reader::ByteReader;
pub use deflate::BlockHeader;
pub use deflate::CompressionType;
pub use deflate::DeflateReader;
pub use gzip::CompressionMethod;
pub use gzip::GzipReader;
pub use gzip::MemberFlags;
pub use gzip::MemberFooter;
pub use gzip::MemberHeader;
pub use gzip::MemberReader;
pub use huffman_coding::HuffmanCoding;
pub use huffman_coding::HuffmanCodeWord;
pub use huffman_coding::decode_litlen_distance_trees;
pub use huffman_coding::find_sizes;
pub use huffman_coding::HuffmanSymbol;
pub use huffman_coding::TreeCodeToken;
pub use huffman_coding::LitLenToken;
pub use huffman_coding::DistanceToken;
pub use tracking_writer::TrackingWriter;

verus! {

/// Everything that can go wrong while decompressing: propagated end-of-input,
/// structural (format) violations, and integrity (checksum / size) violations.
#[derive(Clone, Copy, Debug, PartialEq, Eq, Structural)]
pub enum Error {
    /// The underlying stream ended before the requested bytes or bits could be read.
    UnexpectedEof,
    /// The two magic bytes at the start of a member were not `0x1f 0x8b`.
    BadMagic,
    /// The compression-method byte named a method other than DEFLATE.
    UnsupportedCompressionMethod,
    /// The optional header CRC16 did not match the header bytes.
    HeaderCrcMismatch,
    /// A block used the reserved compression type.
    UnsupportedBlockType,
    /// A stored block's one's-complement length check failed.
    NlenCheckFailed,
    /// No symbol of the current Huffman table matched the bits that were read.
    NoSymbolFound,
    /// A repeat token asked to copy the previous code length, but none had
    /// been produced yet.
    RepeatWithoutPrevious,
    /// A code word index outside the alphabet was handed to a token conversion.
    BadCodeWord,
    /// A back-reference pointed further back than the written history allows.
    BadBackreferenceDistance,
    /// The sink did not accept all bytes handed to it.
    WriteFailed,
    /// The member footer's size field did not match the decompressed length.
    LengthCheckFailed,
    /// The member footer's CRC32 did not match the decompressed bytes.
    CrcMismatch,
}

/// The code lengths of the fixed literal/length tree (RFC 1951,
/// section 3.2.6): eight bits for the literals up to 143, nine up to 255,
/// seven for the end-of-block and short lengths, eight for the rest.
pub open spec fn fixed_litlen_lengths() -> Seq<u8> {
    Seq::new(
        286,
        |i: int|
            if i < 144 {
                8u8
            } else if i < 256 {
                9u8
            } else if i < 280 {
                7u8
            } else {
                8u8
            },
    )
}

/// The code lengths of the fixed distance tree: five bits for every code.
pub open spec fn fixed_distance_lengths() -> Seq<u8> {
    Seq::new(30, |i: int| 5u8)
}

/// Builds the fixed literal/length and distance trees of RFC 1951,
/// section 3.2.6: lengths 8/9/7/8 for the four literal/length symbol ranges,
/// and five bits for every distance code.
fn fixed_trees() -> (r: Result<
    (huffman_coding::HuffmanCoding<LitLenToken>, huffman_coding::HuffmanCoding<DistanceToken>),
    Error,
>)
    ensures
        match r {
            Ok(trees) => trees.0.wf() && trees.1.wf() && huffman_coding::litlen_tokens_bounded(
                trees.0.table(),
            ) && huffman_coding::distance_tokens_bounded(trees.1.table()) && trees.0.table()
                == huffman_coding::spec_table::<LitLenToken>(fixed_litlen_lengths(), 286)
                && trees.1.table() == huffman_coding::spec_table::<DistanceToken>(
                fixed_distance_lengths(),
                30,
            ),
            Err(_) => false,
        },
{
    let mut litlen_lengths: Vec<u8> = Vec::new();
    let mut i: usize = 0;
    while i < 286
        invariant
            i <= 286,
            litlen_lengths@.len() == i,
            forall|j: int| 0 <= j < i ==> #[trigger] litlen_lengths@[j] <= 15,
            litlen_lengths@ == fixed_litlen_lengths().take(i as int),
        decreases 286 - i,
    {
        if i < 144 {
            litlen_lengths.push(8);
        } else if i < 256 {
            litlen_lengths.push(9);
        } else if i < 280 {
            litlen_lengths.push(7);
        } else {
            litlen_lengths.push(8);
        }
        i = i + 1;
        proof {
            assert(litlen_lengths@ =~= fixed_litlen_lengths().take(i as int));
        }
    }
    proof {
        assert(litlen_lengths@ =~= fixed_litlen_lengths());
    }
    let mut distance_lengths: Vec<u8> = Vec::new();
    let mut i: usize = 0;
    while i < 30
        invariant
            i <= 30,
            distance_lengths@.len() == i,
            forall|j: int| 0 <= j < i ==> #[trigger] distance_lengths@[j] <= 15,
            distance_lengths@ == fixed_distance_lengths().take(i as int),
        decreases 30 - i,
    {
        distance_lengths.push(5);
        i = i + 1;
        proof {
            assert(distance_lengths@ =~= fixed_distance_lengths().take(i as int));
        }
    }
    proof {
        assert(distance_lengths@ =~= fixed_distance_lengths());
    }
    let litlen = match huffman_coding::HuffmanCoding::<LitLenToken>::from_lengths(
        litlen_lengths.as_slice(),
    ) {
        Ok(t) => t,
        Err(e) => {
            proof {
                assert forall|j: int|
                    0 <= j < litlen_lengths@.len() && litlen_lengths@[j] > 0 implies
                    LitLenToken::spec_from_word(j as u16) is Some by {}
                assert(false);
            }
            return Err(e);
        },
    };
    let distance = match huffman_coding::HuffmanCoding::<DistanceToken>::from_lengths(
        distance_lengths.as_slice(),
    ) {
        Ok(t) => t,
        Err(e) => {
            proof {
                assert forall|j: int|
                    0 <= j < distance_lengths@.len() && distance_lengths@[j] > 0 implies
                    DistanceToken::spec_from_word(j as u16) is Some by {}
                assert(false);
            }
            return Err(e);
        },
    };
    proof {
        huffman_coding::lemma_litlen_table_bounded(litlen_lengths@, litlen_lengths@.len() as int);
        huffman_coding::lemma_distance_table_bounded(
            distance_lengths@,
            distance_lengths@.len() as int,
        );
    }
    Ok((litlen, distance))
}

/// Handles a stored block: realigns to a byte boundary, checks the stored
/// length against its one's complement, and copies the raw bytes through the
/// writer.
fn inflate_stored_block<'a>(
    bit_reader: &mut BitReader<'a>,
    writer: &mut TrackingWriter,
) -> (r: Result<(), Error>)
    requires
        old(bit_reader).wf(),
        old(writer).wf(),
    ensures
        final(bit_reader).wf(),
        final(bit_reader).stream.data@ == old(bit_reader).stream.data@,
        final(bit_reader).stream.pos >= old(bit_reader).stream.pos,
        final(bit_reader).bits().len() <= old(bit_reader).bits().len(),
        final(writer).wf(),
        final(writer).cap == old(writer).cap,
        final(writer).out@.len() >= old(writer).out@.len(),
        final(writer).out@.take(old(writer).out@.len() as int) == old(writer).out@,
        final(writer).out@.len() - final(writer).len == old(writer).out@.len() - old(writer).len,
        ({
            let s = old(bit_reader).stream.remaining();
            r is Ok ==> s.len() >= 4 && le_u16_of(s) + le_u16_of(s.skip(2)) == 65535
                && final(writer).out@ == old(writer).out@ + s.skip(4).take(le_u16_of(s))
                && final(writer).member_bytes() == old(writer).member_bytes() + s.skip(4).take(
                le_u16_of(s),
            ) && final(bit_reader).stream.pos == old(bit_reader).stream.pos + 4 + le_u16_of(s)
                && final(bit_reader).buf.len == 0
        }),
        ({
            let s = old(bit_reader).stream.remaining();
            (s.len() >= 4 && le_u16_of(s) + le_u16_of(s.skip(2)) == 65535 && s.len() >= 4
                + le_u16_of(s) && old(writer).out@.len() + le_u16_of(s) <= old(writer).cap)
                ==> r is Ok
        }),
{
    proof {
        bit_reader::lemma_bytes_bits_len(old(bit_reader).stream.remaining());
    }
    let ghost s = bit_reader.stream.remaining();
    let _ = bit_reader.borrow_reader_from_boundary();
    let mut stream = bit_reader.stream;
    let len = match stream.read_u16_le() {
        Ok(x) => x,
        Err(e) => {
            bit_reader.stream = stream;
            proof {
                bit_reader::lemma_bytes_bits_len(stream.remaining());
            }
            return Err(e);
        },
    };
    let nlen = match stream.read_u16_le() {
        Ok(x) => x,
        Err(e) => {
            bit_reader.stream = stream;
            proof {
                bit_reader::lemma_bytes_bits_len(stream.remaining());
            }
            return Err(e);
        },
    };
    if len != !nlen {
        bit_reader.stream = stream;
        proof {
            bit_reader::lemma_bytes_bits_len(stream.remaining());
            assert((len == !nlen) == (len + nlen == 65535)) by (bit_vector);
        }
        return Err(Error::NlenCheckFailed);
    }
    proof {
        assert((len == !nlen) == (len + nlen == 65535)) by (bit_vector);
        assert(s.skip(2)[0] == s[2] && s.skip(2)[1] == s[3]);
    }
    let data = match stream.read_exact(len as usize) {
        Ok(v) => v,
        Err(e) => {
            bit_reader.stream = stream;
            proof {
                bit_reader::lemma_bytes_bits_len(stream.remaining());
            }
            return Err(e);
        },
    };
    bit_reader.stream = stream;
    proof {
        assert(data@ =~= s.skip(4).take(len as int));
        bit_reader::lemma_bytes_bits_len(stream.remaining());
    }
    let written = match writer.write(data.as_slice()) {
        Ok(w) => w,
        Err(_) => vstd::pervasive::unreached(),
    };
    if written < data.len() {
        // Only a sink without room for all `len` bytes ends up here.
        proof {
            assert(!(old(writer).out@.len() + le_u16_of(s) <= old(writer).cap));
        }
        return Err(Error::WriteFailed);
    }
    proof {
        assert(data@.take(data@.len() as int) =~= data@);
        assert(writer.out@.take(old(writer).out@.len() as int) =~= old(writer).out@);
        assert(writer.member_bytes() =~= old(writer).member_bytes() + data@);
        assert(s.skip(4).take(le_u16_of(s)) =~= data@);
    }
    Ok(())
}

proof fn lemma_bits_value_bound(b: u16, l: u16, m: u16)
    by (bit_vector)
    requires
        l <= m,
        m < 16,
        l < 16 ==> b < (1u16 << l),
    ensures
        b < (1u16 << m),
        (1u16 << m) <= (1u16 << 15),
        (1u16 << 15) == 32768,
{
}

/// The value of the first two bytes of `s`, little endian.
pub open spec fn le_u16_of(s: Seq<u8>) -> int {
    bit_reader::le_u16(s)
}

/// The member bytes and remaining bit stream after one compressed block's
/// tokens are decoded against the given literal/length and distance tables:
/// a literal appends its byte, a length/distance pair replays `len` bytes
/// from `dist` bytes back, and the end-of-block token finishes.  `None` when
/// the stream ends, no code matches, or a back-reference reaches further
/// back than the member.
pub open spec fn spec_inflate(
    mlit: Map<bit_reader::BitSequence, LitLenToken>,
    mdist: Map<bit_reader::BitSequence, DistanceToken>,
    bits: Seq<bool>,
    member: Seq<u8>,
) -> Option<(Seq<u8>, Seq<bool>)>
    decreases bits.len(),
{
    if bits.len() == 0 {
        None
    } else {
        match huffman_coding::spec_decode(mlit, bits, 1) {
            Option::None => None,
            Option::Some((t, k0)) => {
                let k = if k0 < 1 {
                    1int
                } else if k0 > bits.len() {
                    bits.len() as int
                } else {
                    k0
                };
                let rest = bits.skip(k);
                match t {
                    LitLenToken::Literal(b) => spec_inflate(mlit, mdist, rest, member.push(b)),
                    LitLenToken::EndOfBlock => Some((member, rest)),
                    LitLenToken::Length { base, extra_bits } => if rest.len() < extra_bits {
                        None
                    } else {
                        let len = base + huffman_coding::bits_val(rest.take(extra_bits as int));
                        let rest2 = rest.skip(extra_bits as int);
                        if rest2.len() == 0 {
                            None
                        } else {
                            match huffman_coding::spec_decode(mdist, rest2, 1) {
                                Option::None => None,
                                Option::Some((dt, j0)) => {
                                    let j = if j0 < 1 {
                                        1int
                                    } else if j0 > rest2.len() {
                                        rest2.len() as int
                                    } else {
                                        j0
                                    };
                                    let rest3 = rest2.skip(j);
                                    if rest3.len() < dt.extra_bits {
                                        None
                                    } else {
                                        let dist = dt.base + huffman_coding::bits_val(
                                            rest3.take(dt.extra_bits as int),
                                        );
                                        let rest4 = rest3.skip(dt.extra_bits as int);
                                        if dist > member.len() || dist > 32768 {
                                            None
                                        } else {
                                            spec_inflate(
                                                mlit,
                                                mdist,
                                                rest4,
                                                member + tracking_writer::backref_seq(
                                                    member,
                                                    dist as int,
                                                    len as int,
                                                ),
                                            )
                                        }
                                    }
                                },
                            }
                        }
                    },
                }
            },
        }
    }
}

/// A decoded block only ever appends: the member never shrinks.
proof fn lemma_spec_inflate_grows(
    mlit: Map<bit_reader::BitSequence, LitLenToken>,
    mdist: Map<bit_reader::BitSequence, DistanceToken>,
    bits: Seq<bool>,
    member: Seq<u8>,
)
    requires
        spec_inflate(mlit, mdist, bits, member) is Some,
    ensures
        spec_inflate(mlit, mdist, bits, member).unwrap().0.len() >= member.len(),
    decreases bits.len(),
{
    if bits.len() > 0 {
        match huffman_coding::spec_decode(mlit, bits, 1) {
            Option::None => {},
            Option::Some((t, k0)) => {
                let k = if k0 < 1 {
                    1int
                } else if k0 > bits.len() {
                    bits.len() as int
                } else {
                    k0
                };
                let rest = bits.skip(k);
                match t {
                    LitLenToken::Literal(b) => {
                        lemma_spec_inflate_grows(mlit, mdist, rest, member.push(b));
                    },
                    LitLenToken::EndOfBlock => {},
                    LitLenToken::Length { base, extra_bits } => {
                        if rest.len() >= extra_bits {
                            let len = base + huffman_coding::bits_val(
                                rest.take(extra_bits as int),
                            );
                            let rest2 = rest.skip(extra_bits as int);
                            if rest2.len() > 0 {
                                match huffman_coding::spec_decode(mdist, rest2, 1) {
                                    Option::None => {},
                                    Option::Some((dt, j0)) => {
                                        let j = if j0 < 1 {
                                            1int
                                        } else if j0 > rest2.len() {
                                            rest2.len() as int
                                        } else {
                                            j0
                                        };
                                        let rest3 = rest2.skip(j);
                                        if rest3.len() >= dt.extra_bits {
                                            let dist = dt.base + huffman_coding::bits_val(
                                                rest3.take(dt.extra_bits as int),
                                            );
                                            let rest4 = rest3.skip(dt.extra_bits as int);
                                            if !(dist > member.len() || dist > 32768) {
                                                lemma_spec_inflate_grows(
                                                    mlit,
                                                    mdist,
                                                    rest4,
                                                    member + tracking_writer::backref_seq(
                                                        member,
                                                        dist as int,
                                                        len as int,
                                                    ),
                                                );
                                            }
                                        }
                                    },
                                }
                            }
                        }
                    },
                }
            },
        }
    }
}

/// Decodes one compressed block's tokens: literals are copied through,
/// length/distance pairs replay earlier output, and the end-of-block token
/// finishes the block.
#[verifier::rlimit(80)]
fn inflate_compressed_block<'a>(
    bit_reader: &mut BitReader<'a>,
    writer: &mut TrackingWriter,
    litlen: &huffman_coding::HuffmanCoding<LitLenToken>,
    distance: &huffman_coding::HuffmanCoding<DistanceToken>,
) -> (r: Result<(), Error>)
    requires
        old(bit_reader).wf(),
        old(writer).wf(),
        litlen.wf(),
        distance.wf(),
        huffman_coding::litlen_tokens_bounded(litlen.table()),
        huffman_coding::distance_tokens_bounded(distance.table()),
    ensures
        final(bit_reader).wf(),
        final(bit_reader).stream.data@ == old(bit_reader).stream.data@,
        final(bit_reader).stream.pos >= old(bit_reader).stream.pos,
        final(bit_reader).bits().len() <= old(bit_reader).bits().len(),
        final(writer).wf(),
        final(writer).cap == old(writer).cap,
        final(writer).out@.len() >= old(writer).out@.len(),
        final(writer).out@.take(old(writer).out@.len() as int) == old(writer).out@,
        final(writer).out@.len() - final(writer).len == old(writer).out@.len() - old(writer).len,
        r is Ok ==> final(bit_reader).bits() == old(bit_reader).bits().skip(
            old(bit_reader).bits().len() - final(bit_reader).bits().len(),
        ),
        r is Ok ==> spec_inflate(
            litlen.table(),
            distance.table(),
            old(bit_reader).bits(),
            old(writer).member_bytes(),
        ) == Some((final(writer).member_bytes(), final(bit_reader).bits())),
        ({
            let target = spec_inflate(
                litlen.table(),
                distance.table(),
                old(bit_reader).bits(),
                old(writer).member_bytes(),
            );
            (target is Some && old(writer).out@.len() + target.unwrap().0.len() - old(
                writer,
            ).member_bytes().len() <= old(writer).cap) ==> r is Ok
        }),
{
    let ghost ml = litlen.table();
    let ghost md = distance.table();
    let ghost ob0 = old(bit_reader).bits();
    let ghost member0 = old(writer).member_bytes();
    loop
        invariant
            bit_reader.wf(),
            bit_reader.stream.data@ == old(bit_reader).stream.data@,
            bit_reader.stream.pos >= old(bit_reader).stream.pos,
            bit_reader.bits().len() <= old(bit_reader).bits().len(),
            writer.wf(),
            writer.cap == old(writer).cap,
            writer.out@.len() >= old(writer).out@.len(),
            writer.out@.take(old(writer).out@.len() as int) == old(writer).out@,
            writer.out@.len() - writer.len == old(writer).out@.len() - old(writer).len,
            litlen.wf(),
            distance.wf(),
            ml == litlen.table(),
            md == distance.table(),
            ob0 == old(bit_reader).bits(),
            member0 == old(writer).member_bytes(),
            huffman_coding::litlen_tokens_bounded(litlen.table()),
            huffman_coding::distance_tokens_bounded(distance.table()),
            bit_reader.bits() == ob0.skip(ob0.len() - bit_reader.bits().len()),
            spec_inflate(ml, md, ob0, member0) == spec_inflate(
                ml,
                md,
                bit_reader.bits(),
                writer.member_bytes(),
            ),
        decreases bit_reader.bits().len(),
    {
        let ghost mtab = litlen.table();
        let ghost obits = bit_reader.bits();
        let ghost member_iter = writer.member_bytes();
        let token = match litlen.read_symbol(bit_reader) {
            Ok(t) => t,
            Err(e) => {
                proof {
                    assert(!(spec_inflate(ml, md, obits, member_iter) is Some));
                }
                return Err(e);
            },
        };
        proof {
            huffman_coding::lemma_spec_decode_in_table(mtab, obits, 1);
        }
        let ghost kk = huffman_coding::spec_decode(mtab, obits, 1).unwrap().1;
        let ghost rest = obits.skip(kk);
        proof {
            assert(bit_reader.bits() == rest);
        }
        match token {
            LitLenToken::Literal(val) => {
                let mut one: Vec<u8> = Vec::new();
                one.push(val);
                let written = match writer.write(one.as_slice()) {
                    Ok(w) => w,
                    Err(_) => vstd::pervasive::unreached(),
                };
                if written < 1 {
                    // Only a full sink ends up here: with room for the
                    // block's bytes the write accepts the literal.
                    proof {
                        let target = spec_inflate(ml, md, ob0, member0);
                        if target is Some && old(writer).out@.len() + target.unwrap().0.len()
                            - member0.len() <= old(writer).cap {
                            lemma_spec_inflate_grows(ml, md, rest, member_iter.push(val));
                            assert(false);
                        }
                    }
                    return Err(Error::WriteFailed);
                }
                proof {
                    assert(writer.out@.take(old(writer).out@.len() as int) =~= old(writer).out@);
                    assert(one@.take(1) =~= one@);
                    assert(writer.member_bytes() =~= member_iter.push(val));
                    assert(spec_inflate(ml, md, obits, member_iter) == spec_inflate(
                        ml,
                        md,
                        rest,
                        member_iter.push(val),
                    ));
                    assert(bit_reader.bits() =~= ob0.skip(ob0.len() - bit_reader.bits().len()));
                }
            },
            LitLenToken::EndOfBlock => {
                proof {
                    assert(spec_inflate(ml, md, obits, member_iter) == Some((member_iter, rest)));
                    assert(bit_reader.bits() =~= ob0.skip(ob0.len() - bit_reader.bits().len()));
                }
                return Ok(());
            },
            LitLenToken::Length { base, extra_bits } => {
                let ghost dtab = distance.table();
                let extra = match bit_reader.read_bits(extra_bits) {
                    Ok(b) => b,
                    Err(e) => {
                        proof {
                            assert(!(spec_inflate(ml, md, obits, member_iter) is Some));
                        }
                        return Err(e);
                    },
                };
                proof {
                    lemma_bits_value_bound(extra.bits, extra.len as u16, 5);
                    huffman_coding::lemma_bits_val_reconstruct(extra.bits, extra_bits as nat);
                    assert(extra@ == rest.take(extra_bits as int));
                }
                let len = base + extra.bits();
                let ghost rest2 = rest.skip(extra_bits as int);
                let ghost obits2 = bit_reader.bits();
                proof {
                    assert(obits2 == rest2);
                }
                let dist_token = match distance.read_symbol(bit_reader) {
                    Ok(t) => t,
                    Err(e) => {
                        proof {
                            assert(!(spec_inflate(ml, md, obits, member_iter) is Some));
                        }
                        return Err(e);
                    },
                };
                proof {
                    huffman_coding::lemma_spec_decode_in_table(dtab, obits2, 1);
                }
                let ghost jj = huffman_coding::spec_decode(dtab, obits2, 1).unwrap().1;
                let ghost rest3 = rest2.skip(jj);
                let dextra = match bit_reader.read_bits(dist_token.extra_bits) {
                    Ok(b) => b,
                    Err(e) => {
                        proof {
                            assert(!(spec_inflate(ml, md, obits, member_iter) is Some));
                        }
                        return Err(e);
                    },
                };
                proof {
                    lemma_bits_value_bound(dextra.bits, dextra.len as u16, 13);
                    huffman_coding::lemma_bits_val_reconstruct(
                        dextra.bits,
                        dist_token.extra_bits as nat,
                    );
                    assert(dextra@ == rest3.take(dist_token.extra_bits as int));
                }
                let dist = dist_token.base + dextra.bits();
                let ghost rest4 = rest3.skip(dist_token.extra_bits as int);
                proof {
                    assert(bit_reader.bits() == rest4);
                }
                let ghost wprev = *writer;
                match writer.write_previous(dist as usize, len as usize) {
                    Ok(()) => {},
                    Err(e) => {
                        proof {
                            if dist > member_iter.len() || dist > 32768 {
                                assert(!(spec_inflate(ml, md, obits, member_iter) is Some));
                            } else {
                                // The sink ran out of room for the copy.
                                let target = spec_inflate(ml, md, ob0, member0);
                                if target is Some && old(writer).out@.len()
                                    + target.unwrap().0.len() - member0.len() <= old(
                                    writer,
                                ).cap {
                                    lemma_spec_inflate_grows(
                                        ml,
                                        md,
                                        rest4,
                                        member_iter + tracking_writer::backref_seq(
                                            member_iter,
                                            dist as int,
                                            len as int,
                                        ),
                                    );
                                    assert(false);
                                }
                            }
                        }
                        return Err(e);
                    },
                }
                proof {
                    assert(writer.out@.take(old(writer).out@.len() as int) =~= old(writer).out@);
                    assert(!(dist > wprev.len || dist > 32768));
                    assert(member_iter.len() == wprev.len);
                    assert(writer.member_bytes() =~= member_iter + tracking_writer::backref_seq(
                        member_iter,
                        dist as int,
                        len as int,
                    ));
                    assert(spec_inflate(ml, md, obits, member_iter) == spec_inflate(
                        ml,
                        md,
                        rest4,
                        member_iter + tracking_writer::backref_seq(
                            member_iter,
                            dist as int,
                            len as int,
                        ),
                    ));
                    assert(bit_reader.bits() =~= ob0.skip(ob0.len() - bit_reader.bits().len()));
                }
            },
        }
    }
}

/// The member bytes and final bit cursor that the DEFLATE blocks starting
/// at bit `p` of `data` decode to, on top of the member bytes so far: each
/// block adds its bytes, and the block whose header carries the final flag
/// ends the member.  `None` on any malformed block.
pub open spec fn spec_member_body(data: Seq<u8>, p: int, member: Seq<u8>) -> Option<
    (Seq<u8>, int),
>
    decreases 8 * data.len() - p,
    when 0 <= p <= 8 * data.len()
{
    let bits = bit_reader::bytes_bits(data).skip(p);
    if bits.len() < 3 {
        None
    } else {
        let h = deflate::block_header_of(bits);
        let after = bits.skip(3);
        match h.compression_type {
            CompressionType::Uncompressed => {
                // The stream realigns to the next byte boundary.
                let q = (p + 3 + 7) / 8;
                let s = data.skip(q);
                if s.len() < 4 {
                    None
                } else if le_u16_of(s) + le_u16_of(s.skip(2)) != 65535 {
                    None
                } else if s.len() < 4 + le_u16_of(s) {
                    None
                } else {
                    let member2 = member + s.skip(4).take(le_u16_of(s));
                    let p2 = 8 * (q + 4 + le_u16_of(s));
                    if h.is_final {
                        Some((member2, p2))
                    } else if !(p < p2 <= 8 * data.len()) {
                        None
                    } else {
                        spec_member_body(data, p2, member2)
                    }
                }
            },
            CompressionType::FixedTree => {
                match spec_inflate(
                    huffman_coding::spec_table::<LitLenToken>(fixed_litlen_lengths(), 286),
                    huffman_coding::spec_table::<DistanceToken>(fixed_distance_lengths(), 30),
                    after,
                    member,
                ) {
                    Option::None => None,
                    Option::Some(pr) => {
                        let p2 = 8 * data.len() - pr.1.len();
                        if h.is_final {
                            Some((pr.0, p2))
                        } else if !(p < p2 <= 8 * data.len()) {
                            None
                        } else {
                            spec_member_body(data, p2, pr.0)
                        }
                    },
                }
            },
            CompressionType::DynamicTree => {
                match huffman_coding::spec_dynamic_tables(after) {
                    Option::None => None,
                    Option::Some(t) => match spec_inflate(t.0, t.1, t.2, member) {
                        Option::None => None,
                        Option::Some(pr) => {
                            let p2 = 8 * data.len() - pr.1.len();
                            if h.is_final {
                                Some((pr.0, p2))
                            } else if !(p < p2 <= 8 * data.len()) {
                                None
                            } else {
                                spec_member_body(data, p2, pr.0)
                            }
                        },
                    },
                }
            },
            CompressionType::Reserved => None,
        }
    }
}

/// A member's blocks only ever append: the member never shrinks.
proof fn lemma_spec_member_body_grows(data: Seq<u8>, p: int, member: Seq<u8>)
    requires
        0 <= p <= 8 * data.len(),
        spec_member_body(data, p, member) is Some,
    ensures
        spec_member_body(data, p, member).unwrap().0.len() >= member.len(),
    decreases 8 * data.len() - p,
{
    let bits = bit_reader::bytes_bits(data).skip(p);
    if bits.len() >= 3 {
        let h = deflate::block_header_of(bits);
        let after = bits.skip(3);
        match h.compression_type {
            CompressionType::Uncompressed => {
                let q = (p + 3 + 7) / 8;
                let s = data.skip(q);
                if s.len() >= 4 && le_u16_of(s) + le_u16_of(s.skip(2)) == 65535 && s.len() >= 4
                    + le_u16_of(s) {
                    let member2 = member + s.skip(4).take(le_u16_of(s));
                    let p2 = 8 * (q + 4 + le_u16_of(s));
                    if !h.is_final && p < p2 <= 8 * data.len() {
                        lemma_spec_member_body_grows(data, p2, member2);
                    }
                }
            },
            CompressionType::FixedTree => {
                let ml = huffman_coding::spec_table::<LitLenToken>(fixed_litlen_lengths(), 286);
                let md = huffman_coding::spec_table::<DistanceToken>(fixed_distance_lengths(), 30);
                if spec_inflate(ml, md, after, member) is Some {
                    let pr = spec_inflate(ml, md, after, member).unwrap();
                    lemma_spec_inflate_grows(ml, md, after, member);
                    let p2 = 8 * data.len() - pr.1.len();
                    if !h.is_final && p < p2 <= 8 * data.len() {
                        lemma_spec_member_body_grows(data, p2, pr.0);
                    }
                }
            },
            CompressionType::DynamicTree => {
                if huffman_coding::spec_dynamic_tables(after) is Some {
                    let t = huffman_coding::spec_dynamic_tables(after).unwrap();
                    if spec_inflate(t.0, t.1, t.2, member) is Some {
                        let pr = spec_inflate(t.0, t.1, t.2, member).unwrap();
                        lemma_spec_inflate_grows(t.0, t.1, t.2, member);
                        let p2 = 8 * data.len() - pr.1.len();
                        if !h.is_final && p < p2 <= 8 * data.len() {
                            lemma_spec_member_body_grows(data, p2, pr.0);
                        }
                    }
                }
            },
            CompressionType::Reserved => {},
        }
    }
}

/// Decodes one member's whole DEFLATE stream, block by block, through the
/// writer, until the block marked final ends the member.
#[verifier::rlimit(100)]
#[verifier::spinoff_prover]
fn inflate_member_body<'a>(
    deflate_reader: &mut DeflateReader<'a>,
    writer: &mut TrackingWriter,
) -> (r: Result<(), Error>)
    requires
        old(deflate_reader).wf(),
        old(deflate_reader).bit_reader.aligned(),
        old(writer).wf(),
    ensures
        final(deflate_reader).wf(),
        final(deflate_reader).bit_reader.stream.data@ == old(
            deflate_reader,
        ).bit_reader.stream.data@,
        final(deflate_reader).bit_reader.stream.pos >= old(deflate_reader).bit_reader.stream.pos,
        final(writer).wf(),
        final(writer).cap == old(writer).cap,
        final(writer).out@.len() >= old(writer).out@.len(),
        final(writer).out@.take(old(writer).out@.len() as int) == old(writer).out@,
        final(writer).out@.len() - final(writer).len == old(writer).out@.len() - old(writer).len,
        r is Ok ==> final(deflate_reader).bit_reader.aligned() && spec_member_body(
            old(deflate_reader).bit_reader.stream.data@,
            old(deflate_reader).bit_reader.cursor(),
            old(writer).member_bytes(),
        ) == Some(
            (final(writer).member_bytes(), final(deflate_reader).bit_reader.cursor()),
        ),
        ({
            let target = spec_member_body(
                old(deflate_reader).bit_reader.stream.data@,
                old(deflate_reader).bit_reader.cursor(),
                old(writer).member_bytes(),
            );
            (target is Some && old(writer).out@.len() + target.unwrap().0.len() - old(
                writer,
            ).member_bytes().len() <= old(writer).cap) ==> r is Ok
        }),
{
    let ghost dat = old(deflate_reader).bit_reader.stream.data@;
    let ghost allbits = bit_reader::bytes_bits(dat);
    let ghost c0 = old(deflate_reader).bit_reader.cursor();
    let ghost member0 = old(writer).member_bytes();
    proof {
        bit_reader::lemma_bytes_bits_len(dat);
    }
    loop
        invariant_except_break
            spec_member_body(dat, c0, member0) == spec_member_body(
                dat,
                deflate_reader.bit_reader.cursor(),
                writer.member_bytes(),
            ),
        invariant
            deflate_reader.wf(),
            dat == old(deflate_reader).bit_reader.stream.data@,
            member0 == old(writer).member_bytes(),
            c0 == old(deflate_reader).bit_reader.cursor(),
            deflate_reader.bit_reader.stream.data@ == dat,
            deflate_reader.bit_reader.stream.pos >= old(deflate_reader).bit_reader.stream.pos,
            deflate_reader.bit_reader.aligned(),
            allbits == bit_reader::bytes_bits(dat),
            allbits.len() == 8 * dat.len(),
            writer.wf(),
            writer.cap == old(writer).cap,
            writer.out@.len() >= old(writer).out@.len(),
            writer.out@.take(old(writer).out@.len() as int) == old(writer).out@,
            writer.out@.len() - writer.len == old(writer).out@.len() - old(writer).len,
            0 <= c0 <= 8 * dat.len(),
        ensures
            deflate_reader.wf(),
            deflate_reader.bit_reader.stream.data@ == dat,
            deflate_reader.bit_reader.stream.pos >= old(deflate_reader).bit_reader.stream.pos,
            deflate_reader.bit_reader.aligned(),
            writer.wf(),
            writer.cap == old(writer).cap,
            writer.out@.len() >= old(writer).out@.len(),
            writer.out@.take(old(writer).out@.len() as int) == old(writer).out@,
            writer.out@.len() - writer.len == old(writer).out@.len() - old(writer).len,
            spec_member_body(dat, c0, member0) == Some(
                (writer.member_bytes(), deflate_reader.bit_reader.cursor()),
            ),
        decreases deflate_reader.bit_reader.bits().len(),
    {
        let ghost c_iter = deflate_reader.bit_reader.cursor();
        let ghost m_iter = writer.member_bytes();
        let ghost bits_iter = deflate_reader.bit_reader.bits();
        let block_header = match deflate_reader.next_block() {
            None => vstd::pervasive::unreached(),
            Some(Err(e)) => {
                proof {
                    assert(!(spec_member_body(dat, c_iter, m_iter) is Some));
                }
                return Err(e);
            },
            Some(Ok(h)) => h,
        };
        proof {
            bit_reader::lemma_bytes_bits_len(deflate_reader.bit_reader.stream.remaining());
            assert(deflate_reader.bit_reader.bits() =~= allbits.skip(c_iter + 3));
            assert(deflate_reader.bit_reader.cursor() == c_iter + 3);
        }
        match block_header.compression_type {
            CompressionType::Uncompressed => {
                let ghost pos_call = deflate_reader.bit_reader.stream.pos;
                proof {
                    assert((c_iter + 3 + 7) / 8 == pos_call as int) by (nonlinear_arith)
                        requires
                            c_iter + 3 == 8 * (pos_call as int)
                                - deflate_reader.bit_reader.buf.len,
                            0 <= deflate_reader.bit_reader.buf.len <= 7,
                    ;
                }
                match inflate_stored_block(&mut deflate_reader.bit_reader, writer) {
                    Ok(()) => {},
                    Err(e) => {
                        proof {
                            let target = spec_member_body(dat, c0, member0);
                            if target is Some && old(writer).out@.len() + target.unwrap().0.len()
                                - member0.len() <= old(writer).cap {
                                let q = (c_iter + 3 + 7) / 8;
                                let sarm = dat.skip(q);
                                let member2 = m_iter + sarm.skip(4).take(le_u16_of(sarm));
                                let p2 = 8 * (q + 4 + le_u16_of(sarm));
                                assert(spec_member_body(dat, c_iter, m_iter) is Some);
                                if !block_header.is_final {
                                    lemma_spec_member_body_grows(dat, p2, member2);
                                }
                                assert(target.unwrap().0.len() >= member2.len());
                                assert(false);
                            }
                        }
                        return Err(e);
                    },
                }
                proof {
                    bit_reader::lemma_bytes_bits_len(deflate_reader.bit_reader.stream.remaining());
                    bit_reader::lemma_bytes_bits_skip(
                        dat,
                        deflate_reader.bit_reader.stream.pos as int,
                    );
                    assert(deflate_reader.bit_reader.aligned());
                    assert(writer.member_bytes() =~= m_iter + dat.skip(pos_call as int).skip(
                        4,
                    ).take(le_u16_of(dat.skip(pos_call as int))));
                }
            },
            CompressionType::FixedTree => {
                let (litlen, dist) = match fixed_trees() {
                    Ok(t) => t,
                    Err(_) => vstd::pervasive::unreached(),
                };
                match inflate_compressed_block(
                    &mut deflate_reader.bit_reader,
                    writer,
                    &litlen,
                    &dist,
                ) {
                    Ok(()) => {},
                    Err(e) => {
                        proof {
                            let target = spec_member_body(dat, c0, member0);
                            if target is Some && old(writer).out@.len() + target.unwrap().0.len()
                                - member0.len() <= old(writer).cap {
                                let after = allbits.skip(c_iter + 3);
                                let ml = huffman_coding::spec_table::<LitLenToken>(
                                    fixed_litlen_lengths(),
                                    286,
                                );
                                let md = huffman_coding::spec_table::<DistanceToken>(
                                    fixed_distance_lengths(),
                                    30,
                                );
                                assert(spec_member_body(dat, c_iter, m_iter) is Some);
                                assert(spec_inflate(ml, md, after, m_iter) is Some);
                                let pr = spec_inflate(ml, md, after, m_iter).unwrap();
                                lemma_spec_inflate_grows(ml, md, after, m_iter);
                                let p2 = 8 * dat.len() - pr.1.len();
                                if !block_header.is_final {
                                    lemma_spec_member_body_grows(dat, p2, pr.0);
                                }
                                assert(target.unwrap().0.len() >= pr.0.len());
                                assert(false);
                            }
                        }
                        return Err(e);
                    },
                }
                proof {
                    bit_reader::lemma_bytes_bits_len(deflate_reader.bit_reader.stream.remaining());
                    assert(deflate_reader.bit_reader.bits() =~= allbits.skip(
                        deflate_reader.bit_reader.cursor(),
                    ));
                }
            },
            CompressionType::DynamicTree => {
                let (litlen, dist) = match huffman_coding::decode_litlen_distance_trees(
                    &mut deflate_reader.bit_reader,
                ) {
                    Ok(t) => t,
                    Err(e) => {
                        proof {
                            assert(!(huffman_coding::spec_dynamic_tables(
                                allbits.skip(c_iter + 3),
                            ) is Some));
                            assert(!(spec_member_body(dat, c_iter, m_iter) is Some));
                        }
                        return Err(e);
                    },
                };
                proof {
                    bit_reader::lemma_bytes_bits_len(deflate_reader.bit_reader.stream.remaining());
                    assert(deflate_reader.bit_reader.bits() =~= allbits.skip(
                        deflate_reader.bit_reader.cursor(),
                    ));
                }
                let ghost call_bits = deflate_reader.bit_reader.bits();
                match inflate_compressed_block(
                    &mut deflate_reader.bit_reader,
                    writer,
                    &litlen,
                    &dist,
                ) {
                    Ok(()) => {},
                    Err(e) => {
                        proof {
                            let target = spec_member_body(dat, c0, member0);
                            if target is Some && old(writer).out@.len() + target.unwrap().0.len()
                                - member0.len() <= old(writer).cap {
                                let after = allbits.skip(c_iter + 3);
                                let t = huffman_coding::spec_dynamic_tables(after).unwrap();
                                assert(spec_member_body(dat, c_iter, m_iter) is Some);
                                assert(litlen.table() == t.0 && dist.table() == t.1
                                    && call_bits == t.2);
                                assert(spec_inflate(t.0, t.1, t.2, m_iter) is Some);
                                let pr = spec_inflate(t.0, t.1, t.2, m_iter).unwrap();
                                lemma_spec_inflate_grows(t.0, t.1, t.2, m_iter);
                                let p2 = 8 * dat.len() - pr.1.len();
                                if !block_header.is_final {
                                    lemma_spec_member_body_grows(dat, p2, pr.0);
                                }
                                assert(target.unwrap().0.len() >= pr.0.len());
                                assert(false);
                            }
                        }
                        return Err(e);
                    },
                }
                proof {
                    bit_reader::lemma_bytes_bits_len(deflate_reader.bit_reader.stream.remaining());
                    assert(deflate_reader.bit_reader.bits() =~= allbits.skip(
                        deflate_reader.bit_reader.cursor(),
                    ));
                }
            },
            CompressionType::Reserved => {
                proof {
                    assert(!(spec_member_body(dat, c_iter, m_iter) is Some));
                }
                return Err(Error::UnsupportedBlockType);
            },
        }
        if block_header.is_final {
            proof {
                assert(spec_member_body(dat, c_iter, m_iter) == Some(
                    (writer.member_bytes(), deflate_reader.bit_reader.cursor()),
                ));
            }
            break ;
        }
        proof {
            assert(spec_member_body(dat, c_iter, m_iter) == spec_member_body(
                dat,
                deflate_reader.bit_reader.cursor(),
                writer.member_bytes(),
            ));
        }
    }
    Ok(())
}

/// One member decoded from byte `q` of `data`: its header consumed (the
/// value of an optional header CRC16 is left to the implementation to
/// check), its blocks decoded, and its footer checked against the
/// decompressed bytes.  Yields the member's bytes and the byte position
/// after its footer.
/// One member read from byte `q` of `data`, except for its two footer
/// values: the header is well formed (magic, method, field lengths, and a
/// matching header CRC16 when announced), the blocks decode, and eight
/// footer bytes follow.  Yields the member's bytes and the footer position.
#[verifier::opaque]
pub open spec fn spec_member_frame(data: Seq<u8>, q: int) -> Option<(Seq<u8>, int)> {
    if data.len() - q < 10 {
        None
    } else if data[q] != 0x1f || data[q + 1] != 0x8b || data[q + 2] != 8 {
        None
    } else {
        let f = data[q + 3];
        let rem = data.skip(q + 10);
        if !gzip::header_rest_ok(f, rem) {
            None
        } else if !gzip::spec_header_crc_ok(data, q) {
            None
        } else {
            let body_q = q + 10 + gzip::header_rest_len(f, rem);
            if !(0 <= body_q <= data.len()) {
                None
            } else {
                match spec_member_body(data, 8 * body_q, Seq::empty()) {
                    Option::None => None,
                    Option::Some(br) => {
                        let fq = (br.1 + 7) / 8;
                        if data.len() - fq < 8 {
                            None
                        } else {
                            Some((br.0, fq))
                        }
                    },
                }
            }
        }
    }
}

/// One member read from byte `q` of `data`: its frame, with the footer's
/// size and CRC32 checked against the decoded bytes.  Yields the member's
/// bytes and the position just past the footer.
#[verifier::opaque]
pub open spec fn spec_member(data: Seq<u8>, q: int) -> Option<(Seq<u8>, int)> {
    match spec_member_frame(data, q) {
        Option::None => None,
        Option::Some(m) => {
            let fq = m.1;
            if le_u32_of(data.skip(fq + 4)) != m.0.len() % 0x100000000 {
                None
            } else if le_u32_of(data.skip(fq)) != tracking_writer::spec_crc32(m.0) {
                None
            } else {
                Some((m.0, fq + 8))
            }
        },
    }
}

/// The concatenated bytes of every member of `data` from byte `q` on, after
/// the bytes `acc`: a stream is a run of complete members, and an empty rest
/// ends it.
#[verifier::opaque]
pub open spec fn spec_members(data: Seq<u8>, q: int, acc: Seq<u8>) -> Option<Seq<u8>>
    decreases data.len() - q,
    when 0 <= q <= data.len()
{
    if data.len() - q == 0 {
        Some(acc)
    } else {
        match spec_member(data, q) {
            Option::None => None,
            Option::Some(m) => if !(q < m.1 <= data.len()) {
                None
            } else {
                spec_members(data, m.1, acc + m.0)
            },
        }
    }
}

/// A stream of members only ever appends to the accumulated output.
proof fn lemma_spec_members_grows(data: Seq<u8>, q: int, acc: Seq<u8>)
    requires
        0 <= q <= data.len(),
        spec_members(data, q, acc) is Some,
    ensures
        spec_members(data, q, acc).unwrap().len() >= acc.len(),
    decreases data.len() - q,
{
    reveal(spec_members);
    if data.len() - q != 0 {
        match spec_member(data, q) {
            Option::None => {},
            Option::Some(m) => {
                if q < m.1 <= data.len() {
                    lemma_spec_members_grows(data, m.1, acc + m.0);
                }
            },
        }
    }
}

/// Walks the stream while every member is intact and classifies the first
/// footer-value failure: a wrong size field, or a wrong CRC32, in the order
/// the checks are made.  `room` bounds the bytes a sink can still accept;
/// past it no verdict is given.
#[verifier::opaque]
pub open spec fn spec_footer_diag(data: Seq<u8>, q: int, room: int) -> Option<Error>
    decreases data.len() - q,
    when 0 <= q <= data.len()
{
    if data.len() - q == 0 {
        None
    } else {
        match spec_member_frame(data, q) {
            Option::None => None,
            Option::Some(m) => {
                let fq = m.1;
                if m.0.len() > room {
                    None
                } else if le_u32_of(data.skip(fq + 4)) != m.0.len() % 0x100000000 {
                    Some(Error::LengthCheckFailed)
                } else if le_u32_of(data.skip(fq)) != tracking_writer::spec_crc32(m.0) {
                    Some(Error::CrcMismatch)
                } else if !(q < fq + 8 <= data.len()) {
                    None
                } else {
                    spec_footer_diag(data, fq + 8, room - m.0.len())
                }
            },
        }
    }
}

/// The value of the first four bytes of `s`, little endian.
pub open spec fn le_u32_of(s: Seq<u8>) -> int {
    bit_reader::le_u32(s)
}

/// Completes one member: when its header shape, its decoded body and its
/// verified footer line up, the member-level reading steps from `p0` to just
/// past the footer.
proof fn lemma_member_complete(
    d: Seq<u8>,
    p0: int,
    acc: Seq<u8>,
    f: u8,
    body_pos: int,
    member_final: Seq<u8>,
    boundary_pos: int,
    fin_buf_len: int,
    acc2: Seq<u8>,
    room: int,
)
    requires
        0 <= p0,
        p0 + 10 <= d.len(),
        d[p0] == 0x1f && d[p0 + 1] == 0x8b && d[p0 + 2] == 8,
        f == d[p0 + 3],
        gzip::header_rest_ok(f, d.skip(p0 + 10)),
        gzip::spec_header_crc_ok(d, p0),
        body_pos == p0 + 10 + gzip::header_rest_len(f, d.skip(p0 + 10)),
        0 <= body_pos <= d.len(),
        spec_member_body(d, 8 * body_pos, Seq::empty()) == Some(
            (member_final, 8 * boundary_pos - fin_buf_len),
        ),
        0 <= fin_buf_len <= 7,
        p0 + 1 <= boundary_pos,
        d.len() - boundary_pos >= 8,
        le_u32_of(d.skip(boundary_pos)) == tracking_writer::spec_crc32(member_final),
        le_u32_of(d.skip(boundary_pos + 4)) == member_final.len() % 0x100000000,
        acc2 == acc + member_final,
        member_final.len() <= room,
    ensures
        spec_member_frame(d, p0) == Some((member_final, boundary_pos as int)),
        spec_member(d, p0) == Some((member_final, boundary_pos + 8)),
        spec_members(d, p0, acc) == spec_members(d, boundary_pos + 8, acc2),
        spec_footer_diag(d, p0, room) == spec_footer_diag(
            d,
            boundary_pos + 8,
            room - member_final.len(),
        ),
        p0 < boundary_pos + 8 <= d.len(),
{
    reveal(spec_member_frame);
    reveal(spec_member);
    reveal(spec_members);
    reveal(spec_footer_diag);
    assert(((8 * boundary_pos - fin_buf_len) + 7) / 8 == boundary_pos) by (nonlinear_arith)
        requires
            0 <= fin_buf_len <= 7,
            boundary_pos >= 1,
    ;
    assert(spec_member_frame(d, p0) == Some((member_final, boundary_pos as int)));
    assert(spec_member(d, p0) == Some((member_final, boundary_pos + 8)));
    assert(spec_members(d, p0, acc) == spec_members(d, boundary_pos + 8, acc2));
}

/// Decompresses every gzip member of `data` into `writer`, verifying each
/// member's footer length and CRC32.
#[verifier::rlimit(100)]
#[verifier::spinoff_prover]
fn decompress_members(data: &[u8], writer: &mut TrackingWriter) -> (r: Result<(), Error>)
    requires
        old(writer).wf(),
    ensures
        final(writer).wf(),
        final(writer).cap == old(writer).cap,
        final(writer).out@.len() >= old(writer).out@.len(),
        final(writer).out@.take(old(writer).out@.len() as int) == old(writer).out@,
        data@.len() == 0 ==> r == Ok::<(), Error>(()) && final(writer).out@ == old(writer).out@,
        0 < data@.len() < 10 ==> r == Err::<(), Error>(Error::UnexpectedEof),
        data@.len() >= 10 && (data@[0] != 0x1f || data@[1] != 0x8b) ==> r == Err::<(), Error>(
            Error::BadMagic,
        ),
        data@.len() >= 10 && data@[0] == 0x1f && data@[1] == 0x8b && data@[2] != 8 ==> r == Err::<
            (),
            Error,
        >(Error::UnsupportedCompressionMethod),
        r is Ok ==> spec_members(data@, 0, Seq::empty()) == Some(
            final(writer).out@.skip(old(writer).out@.len() as int),
        ),
        ({
            let s = spec_members(data@, 0, Seq::empty());
            (s is Some && old(writer).out@.len() + s.unwrap().len() <= old(writer).cap) ==> r
                is Ok
        }),
        spec_footer_diag(data@, 0, old(writer).cap - old(writer).out@.len()) matches Some(k)
            ==> r == Err::<(), Error>(k),
{
    let ghost outstart = old(writer).out@.len() as int;
    let ghost room0 = old(writer).cap - outstart;
    let mut gzip_reader = GzipReader::new(ByteReader::new(data));
    proof {
        assert(writer.out@.skip(outstart) =~= Seq::<u8>::empty());
    }
    loop
        invariant
            gzip_reader.wf(),
            gzip_reader.reader.data@ == data@,
            writer.wf(),
            writer.cap == old(writer).cap,
            writer.out@.len() >= old(writer).out@.len(),
            writer.out@.take(old(writer).out@.len() as int) == old(writer).out@,
            data@.len() == 0 ==> writer.out@ == old(writer).out@,
            0 < data@.len() < 10 ==> gzip_reader.reader.pos == 0,
            data@.len() >= 10 && (data@[0] != 0x1f || data@[1] != 0x8b || data@[2] != 8)
                ==> gzip_reader.reader.pos == 0,
            outstart == old(writer).out@.len(),
            room0 == old(writer).cap - outstart,
            spec_members(data@, 0, Seq::empty()) == spec_members(
                data@,
                gzip_reader.reader.pos as int,
                writer.out@.skip(outstart),
            ),
            spec_footer_diag(data@, 0, room0) == spec_footer_diag(
                data@,
                gzip_reader.reader.pos as int,
                old(writer).cap - writer.out@.len(),
            ),
        decreases data@.len() - gzip_reader.reader.pos,
    {
        writer.flush();
        let ghost pos0 = gzip_reader.reader.pos;
        let ghost acc0 = writer.out@.skip(outstart);
        let ghost room_cur = old(writer).cap - writer.out@.len();
        let header = match gzip_reader.get_header() {
            None => {
                proof {
                    reveal(spec_members);
                    reveal(spec_footer_diag);
                    assert(spec_members(data@, pos0 as int, acc0) == Some(acc0));
                    assert(spec_footer_diag(data@, pos0 as int, room_cur) is None);
                }
                return Ok(());
            },
            Some(Err(e)) => {
                proof {
                    reveal(spec_member_frame);
                    reveal(spec_member);
                    reveal(spec_members);
                    reveal(spec_footer_diag);
                    assert(!(spec_member_frame(data@, pos0 as int) is Some));
                    assert(!(spec_members(data@, pos0 as int, acc0) is Some));
                    assert(spec_footer_diag(data@, pos0 as int, room_cur) is None);
                }
                return Err(e);
            },
            Some(Ok(h)) => h,
        };
        proof {
            if pos0 == 0 {
                assert(header@[0] == data@[0] && header@[1] == data@[1] && header@[2] == data@[2]);
            }
        }
        let (member_header, mut member_reader) = match gzip_reader.parse_header(
            header.as_slice(),
        ) {
            Ok(p) => p,
            Err(e) => {
                proof {
                    reveal(spec_member_frame);
                    reveal(spec_member);
                    reveal(spec_members);
                    reveal(spec_footer_diag);
                    let d = data@;
                    let p0 = pos0 as int;
                    let h10 = header@;
                    let rem = d.skip(p0 + 10);
                    assert(h10[0] == d[p0] && h10[1] == d[p0 + 1] && h10[2] == d[p0 + 2] && h10[3]
                        == d[p0 + 3]);
                    if d[p0] == 0x1f && d[p0 + 1] == 0x8b && d[p0 + 2] == 8
                        && gzip::header_rest_ok(d[p0 + 3], rem) {
                        // Only the header CRC16 check can have failed; the
                        // recomputed serialization covers the wire bytes.
                        let f = d[p0 + 3];
                        let h = choose|h: MemberHeader|
                            gzip::header_fields_match(h10, rem, h) && bit_reader::le_u16(
                                rem.skip(
                                    gzip::extra_len(f, rem) + gzip::name_len(f, rem)
                                        + gzip::comment_len(f, rem),
                                ),
                            ) != (tracking_writer::spec_crc32(gzip::header_bytes(h)) & 0xffff);
                        assert(h10 =~= d.subrange(p0, p0 + 10));
                        gzip::lemma_header_bytes_from_wire(d, p0, h);
                        assert(!gzip::spec_header_crc_ok(d, p0));
                    }
                    assert(!(spec_member_frame(d, p0) is Some));
                    assert(!(spec_members(d, p0, acc0) is Some));
                    assert(spec_footer_diag(d, p0, room_cur) is None);
                }
                return Err(e);
            },
        };
        let before_len = writer.byte_count();
        let stream = *member_reader.inner_mut();
        let mut deflate_reader = DeflateReader::new(BitReader::new(stream));
        proof {
            bit_reader::lemma_bytes_bits_len(stream.remaining());
            bit_reader::lemma_bytes_bits_skip(data@, stream.pos as int);
            assert(deflate_reader.bit_reader.aligned());
            assert(writer.member_bytes() =~= Seq::<u8>::empty());
        }
        let ghost body_pos = stream.pos as int;
        match inflate_member_body(&mut deflate_reader, writer) {
            Ok(()) => {},
            Err(e) => {
                proof {
                    reveal(spec_member_frame);
                    reveal(spec_member);
                    reveal(spec_members);
                    reveal(spec_footer_diag);
                    let d = data@;
                    let p0 = pos0 as int;
                    let s = spec_members(d, 0, Seq::empty());
                    if s is Some && outstart + s.unwrap().len() <= old(writer).cap {
                        let m = spec_member(d, p0).unwrap();
                        lemma_spec_members_grows(d, m.1, acc0 + m.0);
                        assert(false);
                    }
                    if spec_footer_diag(d, 0, room0) is Some {
                        let mf = spec_member_frame(d, p0).unwrap();
                        assert(mf.0.len() <= room_cur);
                        assert(false);
                    }
                }
                return Err(e);
            },
        }
        let ghost fin_buf_len = deflate_reader.bit_reader.buf.len as int;
        let boundary = *deflate_reader.bit_reader.borrow_reader_from_boundary();
        let member_end = MemberReader { inner: boundary };
        proof {
            assert(((8 * (boundary.pos as int) - fin_buf_len) + 7) / 8 == boundary.pos as int)
                by (nonlinear_arith)
                requires
                    0 <= fin_buf_len <= 7,
                    boundary.pos >= 1,
            ;
        }
        let (footer, next_reader) = match member_end.read_footer() {
            Ok(p) => p,
            Err(e) => {
                proof {
                    reveal(spec_member_frame);
                    reveal(spec_member);
                    reveal(spec_members);
                    reveal(spec_footer_diag);
                    let d = data@;
                    let p0 = pos0 as int;
                    if spec_member_frame(d, p0) is Some {
                        assert(d.len() - boundary.pos >= 8);
                        assert(false);
                    }
                }
                return Err(e);
            },
        };
        let produced = writer.byte_count() - before_len;
        proof {
            assert((produced as u64 % 4294967296u64) as int == produced as int % 0x100000000);
            assert(data@.skip(boundary.pos as int).skip(4) =~= data@.skip(boundary.pos as int + 4));
        }
        if (produced as u64 % 4294967296u64) as u32 != footer.data_size {
            proof {
                reveal(spec_member_frame);
                reveal(spec_member);
                reveal(spec_members);
                reveal(spec_footer_diag);
                let d = data@;
                let p0 = pos0 as int;
                let member_final = writer.member_bytes();
                if spec_member_frame(d, p0) is Some {
                    let mf = spec_member_frame(d, p0).unwrap();
                    assert(mf.0 == member_final && mf.1 == boundary.pos as int);
                    assert(le_u32_of(d.skip(mf.1 + 4)) != mf.0.len() % 0x100000000);
                    assert(!(spec_member(d, p0) is Some));
                    assert(mf.0.len() <= room_cur);
                    assert(spec_footer_diag(d, p0, room_cur) == Some(Error::LengthCheckFailed));
                }
                assert(!(spec_members(d, p0, acc0) is Some));
            }
            return Err(Error::LengthCheckFailed);
        }
        if footer.data_crc32 != writer.crc32() {
            proof {
                reveal(spec_member_frame);
                reveal(spec_member);
                reveal(spec_members);
                reveal(spec_footer_diag);
                let d = data@;
                let p0 = pos0 as int;
                let member_final = writer.member_bytes();
                if spec_member_frame(d, p0) is Some {
                    let mf = spec_member_frame(d, p0).unwrap();
                    assert(mf.0 == member_final && mf.1 == boundary.pos as int);
                    assert(le_u32_of(d.skip(mf.1)) != tracking_writer::spec_crc32(mf.0));
                    assert(!(spec_member(d, p0) is Some));
                    assert(mf.0.len() <= room_cur);
                    assert(spec_footer_diag(d, p0, room_cur) == Some(Error::CrcMismatch));
                }
                assert(!(spec_members(d, p0, acc0) is Some));
            }
            return Err(Error::CrcMismatch);
        }
        proof {
            let d = data@;
            let p0 = pos0 as int;
            let f = d[p0 + 3];
            let rem = d.skip(p0 + 10);
            let member_final = writer.member_bytes();
            let fq = boundary.pos as int;
            assert(header@[0] == d[p0] && header@[1] == d[p0 + 1] && header@[2] == d[p0 + 2]
                && header@[3] == d[p0 + 3]);
            assert(le_u32_of(d.skip(fq)) == tracking_writer::spec_crc32(member_final));
            assert(le_u32_of(d.skip(fq + 4)) == member_final.len() % 0x100000000);
            assert(writer.out@.skip(outstart) =~= acc0 + member_final);
            assert(header@ =~= d.subrange(p0, p0 + 10));
            gzip::lemma_header_bytes_from_wire(d, p0, member_header);
            assert(gzip::spec_header_crc_ok(d, p0));
            lemma_member_complete(
                d,
                p0,
                acc0,
                f,
                p0 + 10 + gzip::header_rest_len(f, rem),
                member_final,
                fq,
                fin_buf_len,
                writer.out@.skip(outstart),
                room_cur,
            );
        }
        gzip_reader = next_reader;
    }
}

/// Decompresses a gzip stream: every member in turn, each checked against
/// its footer.  A stream whose members all parse and check succeeds, and the
/// decompressed bytes are appended to `output`; on an error the bytes
/// already produced stay there, and a footer whose size or CRC32 field alone
/// disagrees names that check in the error.
pub fn decompress(input: &[u8], output: &mut Vec<u8>) -> (r: Result<(), Error>)
    ensures
        final(output)@.len() >= old(output)@.len(),
        final(output)@.take(old(output)@.len() as int) == old(output)@,
        input@.len() == 0 ==> r == Ok::<(), Error>(()) && final(output)@ == old(output)@,
        0 < input@.len() < 10 ==> r == Err::<(), Error>(Error::UnexpectedEof),
        input@.len() >= 10 && (input@[0] != 0x1f || input@[1] != 0x8b) ==> r == Err::<(), Error>(
            Error::BadMagic,
        ),
        input@.len() >= 10 && input@[0] == 0x1f && input@[1] == 0x8b && input@[2] != 8 ==> r
            == Err::<(), Error>(Error::UnsupportedCompressionMethod),
        r is Ok ==> spec_members(input@, 0, Seq::empty()) == Some(
            final(output)@.skip(old(output)@.len() as int),
        ),
        ({
            let s = spec_members(input@, 0, Seq::empty());
            (s is Some && old(output)@.len() + s.unwrap().len() <= usize::MAX) ==> r == Ok::<
                (),
                Error,
            >(()) && final(output)@ == old(output)@ + s.unwrap()
        }),
        spec_footer_diag(input@, 0, usize::MAX as int) matches Some(k) ==> r == Err::<(), Error>(
            k,
        ),
{
    let mut writer = TrackingWriter::new(usize::MAX);
    let res = decompress_members(input, &mut writer);
    let ghost appended = writer.out@.skip(0);
    proof {
        assert(appended =~= writer.out@);
    }
    let mut produced = writer.into_bytes();
    output.append(&mut produced);
    proof {
        assert(output@.take(old(output)@.len() as int) =~= old(output)@);
        assert(output@.skip(old(output)@.len() as int) =~= appended);
        if input@.len() == 0 {
            assert(output@ =~= old(output)@);
        }
        let s = spec_members(input@, 0, Seq::empty());
        if s is Some && old(output)@.len() + s.unwrap().len() <= usize::MAX {
            assert(res is Ok);
            assert(res->Ok_0 == ());
            assert(res == Ok::<(), Error>(res->Ok_0));
            assert(s == Some(appended));
            assert(output@ =~= old(output)@ + s.unwrap());
        }
    }
    res
}

} // verus!
