//! DEFLATE block framing: each block starts with a final-block flag (1 bit)
//! and a compression type (2 bits), read least-significant-bit first.
use vstd::prelude::*;

use crate::Error;
use crate::bit_reader::BitReader;
use crate::bit_reader::bit_of;

verus! {

#[derive(Clone, Copy, Debug, PartialEq, Eq, Structural)]
pub struct BlockHeader {
    pub is_final: bool,
    pub compression_type: CompressionType,
}

#[derive(Clone, Copy, Debug, PartialEq, Eq, Structural)]
pub enum CompressionType {
    Uncompressed,
    FixedTree,
    DynamicTree,
    Reserved,
}

/// The compression type encoded by two bits, the first stream bit being the
/// low bit of the two-bit value.
pub open spec fn compression_type_of(b0: bool, b1: bool) -> CompressionType {
    if !b1 && !b0 {
        CompressionType::Uncompressed
    } else if !b1 && b0 {
        CompressionType::FixedTree
    } else if b1 && !b0 {
        CompressionType::DynamicTree
    } else {
        CompressionType::Reserved
    }
}

/// The block header encoded by the first three bits of `bits`.
pub open spec fn block_header_of(bits: Seq<bool>) -> BlockHeader {
    BlockHeader {
        is_final: bits[0],
        compression_type: compression_type_of(bits[1], bits[2]),
    }
}

proof fn lemma_low_two_bits(x: u16)
    by (bit_vector)
    requires
        x < 4,
    ensures
        x == (if bit_of(x, 0) { 1u16 } else { 0u16 }) + (if bit_of(x, 1) { 2u16 } else { 0u16 }),
{
}

proof fn lemma_low_one_bit(x: u16)
    by (bit_vector)
    requires
        x < 2,
    ensures
        (x != 0) == bit_of(x, 0),
{
}

/// Parses the per-block headers of a DEFLATE stream off a shared bit reader.
pub struct DeflateReader<'a> {
    pub bit_reader: BitReader<'a>,
}

impl<'a> DeflateReader<'a> {
    pub open spec fn wf(self) -> bool {
        self.bit_reader.wf()
    }

    pub fn new(bit_reader: BitReader<'a>) -> (r: Self)
        ensures
            r.bit_reader == bit_reader,
    {
        Self { bit_reader }
    }

    /// Reads the next block header: one final-block bit, then two
    /// compression-type bits.  Fails when the bit stream is exhausted first.
    pub fn next_block(&mut self) -> (r: Option<Result<BlockHeader, Error>>)
        requires
            old(self).wf(),
        ensures
            final(self).wf(),
            final(self).bit_reader.stream.data@ == old(self).bit_reader.stream.data@,
            final(self).bit_reader.stream.pos >= old(self).bit_reader.stream.pos,
            old(self).bit_reader.bits().len() >= 3 ==> r == Some(
                Ok::<BlockHeader, Error>(block_header_of(old(self).bit_reader.bits())))
                && final(self).bit_reader.bits() == old(self).bit_reader.bits().skip(3),
            old(self).bit_reader.bits().len() < 3 ==> r == Some(
                Err::<BlockHeader, Error>(Error::UnexpectedEof)),
    {
        let ghost prevbits = self.bit_reader.bits();
        let is_final: bool;
        match self.bit_reader.read_bits(1) {
            Ok(seq) => {
                proof {
                    assert((1u16 << 1u16) == 2) by (bit_vector);
                    lemma_low_one_bit(seq.bits);
                    assert(seq@ == prevbits.take(1));
                    assert(seq@[0] == prevbits[0]);
                    assert((seq.bits != 0) == prevbits[0]);
                }
                is_final = seq.bits() != 0;
            },
            Err(err) => {
                return Some(Err(err));
            },
        }
        let code = match self.bit_reader.read_bits(2) {
            Ok(code) => code,
            Err(err) => {
                return Some(Err(err));
            },
        };
        proof {
            assert((1u16 << 2u16) == 4) by (bit_vector);
            lemma_low_two_bits(code.bits);
            assert(code@[0] == prevbits[1]);
            assert(code@[1] == prevbits[2]);
            assert(self.bit_reader.bits() =~= prevbits.skip(3));
        }
        let compression_type = if code.bits() == 0 {
            CompressionType::Uncompressed
        } else if code.bits() == 1 {
            CompressionType::FixedTree
        } else if code.bits() == 2 {
            CompressionType::DynamicTree
        } else {
            CompressionType::Reserved
        };
        proof {
            assert(is_final == prevbits[0]);
            assert(code@[0] == bit_of(code.bits, 0));
            assert(code@[1] == bit_of(code.bits, 1));
            assert(compression_type == compression_type_of(prevbits[1], prevbits[2]));
        }
        Some(Ok(BlockHeader { is_final, compression_type }))
    }
}

} // verus!
