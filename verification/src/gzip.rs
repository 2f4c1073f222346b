//! gzip member framing (RFC 1952): the fixed ten-byte header, the optional
//! extra / name / comment / header-CRC fields, and the CRC32 + size footer.
use vstd::prelude::*;

use crate::Error;
use crate::bit_reader::ByteReader;
use crate::bit_reader::le_u16;
use crate::bit_reader::le_u32;
use crate::bit_reader::zstr_content;
use crate::bit_reader::zstr_len;
use crate::tracking_writer::spec_crc32;
use crate::tracking_writer::crc32_checksum;

verus! {

pub const ID1: u8 = 0x1f;

pub const ID2: u8 = 0x8b;

pub const CM_DEFLATE: u8 = 8;

/// The `n`-th bit of a flags byte.
pub open spec fn u8_bit(x: u8, n: u8) -> bool {
    (x >> n) & 1 == 1
}

proof fn lemma_u8_set_bit(x: u8, n: u8, v: bool, m: u8)
    by (bit_vector)
    requires
        n < 8,
        m < 8,
    ensures
        v ==> u8_bit(x | (1u8 << n), m) == (m == n || u8_bit(x, m)),
        !v ==> u8_bit(x & (!(1u8 << n)), m) == (m != n && u8_bit(x, m)),
{
}

proof fn lemma_u8_from_bits(x: u8)
    by (bit_vector)
    ensures
        (x as int) == (if u8_bit(x, 0) { 1int } else { 0int })
            + (if u8_bit(x, 1) { 2int } else { 0int })
            + (if u8_bit(x, 2) { 4int } else { 0int })
            + (if u8_bit(x, 3) { 8int } else { 0int })
            + (if u8_bit(x, 4) { 16int } else { 0int })
            + (if u8_bit(x, 5) { 32int } else { 0int })
            + (if u8_bit(x, 6) { 64int } else { 0int })
            + (if u8_bit(x, 7) { 128int } else { 0int }),
{
}

proof fn lemma_u8_zero_bits(m: u8)
    by (bit_vector)
    ensures
        !u8_bit(0, m),
{
}

/// A member's compression method byte: only DEFLATE is supported.
#[derive(Clone, Copy, Debug, PartialEq, Eq, Structural)]
pub enum CompressionMethod {
    Deflate,
    Unknown(u8),
}

/// The byte that encodes a compression method.
pub open spec fn spec_method_byte(m: CompressionMethod) -> u8 {
    match m {
        CompressionMethod::Deflate => CM_DEFLATE,
        CompressionMethod::Unknown(x) => x,
    }
}

fn method_byte(m: CompressionMethod) -> (r: u8)
    ensures
        r == spec_method_byte(m),
{
    match m {
        CompressionMethod::Deflate => CM_DEFLATE,
        CompressionMethod::Unknown(x) => x,
    }
}

/// The flag bits of a member header's fourth byte.
#[derive(Clone, Copy, Debug, PartialEq, Eq, Structural)]
pub struct MemberFlags(pub u8);

impl MemberFlags {
    fn bit(&self, n: u8) -> (r: bool)
        requires
            n < 8,
        ensures
            r == u8_bit(self.0, n),
    {
        proof {
            let x = self.0;
            assert(((x >> n) & 1 != 0) == u8_bit(x, n)) by (bit_vector);
        }
        (self.0 >> n) & 1 != 0
    }

    fn set_bit(&mut self, n: u8, value: bool)
        requires
            n < 8,
        ensures
            forall|m: u8| m < 8 ==> u8_bit(final(self).0, m) == (if m == n {
                value
            } else {
                u8_bit(old(self).0, m)
            }),
    {
        let ghost prev = self.0;
        if value {
            self.0 = self.0 | (1u8 << n);
        } else {
            self.0 = self.0 & (!(1u8 << n));
        }
        proof {
            assert forall|m: u8| m < 8 implies u8_bit(self.0, m) == (if m == n {
                value
            } else {
                u8_bit(prev, m)
            }) by {
                lemma_u8_set_bit(prev, n, value, m);
            }
        }
    }

    pub fn is_text(&self) -> (r: bool)
        ensures
            r == u8_bit(self.0, 0),
    {
        self.bit(0)
    }

    pub fn set_is_text(&mut self, value: bool)
        ensures
            forall|m: u8| m < 8 ==> u8_bit(final(self).0, m) == (if m == 0 {
                value
            } else {
                u8_bit(old(self).0, m)
            }),
    {
        self.set_bit(0, value)
    }

    pub fn has_crc(&self) -> (r: bool)
        ensures
            r == u8_bit(self.0, 1),
    {
        self.bit(1)
    }

    pub fn set_has_crc(&mut self, value: bool)
        ensures
            forall|m: u8| m < 8 ==> u8_bit(final(self).0, m) == (if m == 1 {
                value
            } else {
                u8_bit(old(self).0, m)
            }),
    {
        self.set_bit(1, value)
    }

    pub fn has_extra(&self) -> (r: bool)
        ensures
            r == u8_bit(self.0, 2),
    {
        self.bit(2)
    }

    pub fn set_has_extra(&mut self, value: bool)
        ensures
            forall|m: u8| m < 8 ==> u8_bit(final(self).0, m) == (if m == 2 {
                value
            } else {
                u8_bit(old(self).0, m)
            }),
    {
        self.set_bit(2, value)
    }

    pub fn has_name(&self) -> (r: bool)
        ensures
            r == u8_bit(self.0, 3),
    {
        self.bit(3)
    }

    pub fn set_has_name(&mut self, value: bool)
        ensures
            forall|m: u8| m < 8 ==> u8_bit(final(self).0, m) == (if m == 3 {
                value
            } else {
                u8_bit(old(self).0, m)
            }),
    {
        self.set_bit(3, value)
    }

    pub fn has_comment(&self) -> (r: bool)
        ensures
            r == u8_bit(self.0, 4),
    {
        self.bit(4)
    }

    pub fn set_has_comment(&mut self, value: bool)
        ensures
            forall|m: u8| m < 8 ==> u8_bit(final(self).0, m) == (if m == 4 {
                value
            } else {
                u8_bit(old(self).0, m)
            }),
    {
        self.set_bit(4, value)
    }
}

/// A parsed member header.  The name and comment are kept as the raw bytes
/// that preceded their zero terminator.
#[derive(Debug)]
pub struct MemberHeader {
    pub compression_method: CompressionMethod,
    pub modification_time: u32,
    pub extra: Option<Vec<u8>>,
    pub name: Option<Vec<u8>>,
    pub comment: Option<Vec<u8>>,
    pub extra_flags: u8,
    pub os: u8,
    pub has_crc: bool,
    pub is_text: bool,
}

/// The flags byte that a header's optional fields dictate.
pub open spec fn spec_flags(h: MemberHeader) -> u8 {
    ((if h.is_text { 1int } else { 0int })
        + (if h.has_crc { 2int } else { 0int })
        + (if h.extra is Some { 4int } else { 0int })
        + (if h.name is Some { 8int } else { 0int })
        + (if h.comment is Some { 16int } else { 0int })) as u8
}

/// The four bytes of `x`, least significant first.
pub open spec fn u32_le_bytes(x: u32) -> Seq<u8> {
    seq![
        (x % 256) as u8,
        ((x / 256) % 256) as u8,
        ((x / 65536) % 256) as u8,
        ((x / 16777216) % 256) as u8,
    ]
}

/// The two bytes of `x`, least significant first.
pub open spec fn u16_le_bytes(x: u16) -> Seq<u8> {
    seq![(x % 256) as u8, (x / 256) as u8]
}

/// The serialized bytes of a header, up to (not including) the optional
/// header CRC16: exactly the bytes that the CRC16 covers (RFC 1952).
pub open spec fn header_bytes(h: MemberHeader) -> Seq<u8> {
    seq![ID1, ID2, spec_method_byte(h.compression_method), spec_flags(h)]
        + u32_le_bytes(h.modification_time) + seq![h.extra_flags, h.os] + (match h.extra {
        Some(v) => u16_le_bytes(v@.len() as u16) + v@,
        None => Seq::<u8>::empty(),
    }) + (match h.name {
        Some(v) => v@ + seq![0u8],
        None => Seq::<u8>::empty(),
    }) + (match h.comment {
        Some(v) => v@ + seq![0u8],
        None => Seq::<u8>::empty(),
    })
}

impl MemberHeader {
    /// The CRC16 of the header: the low 16 bits of the CRC32 of its
    /// serialized bytes (RFC 1952).
    pub fn crc16(&self) -> (r: u16)
        requires
            match self.extra {
                Some(v) => v@.len() <= 65535,
                None => true,
            },
        ensures
            r == (spec_crc32(header_bytes(*self)) & 0xffff) as u16,
    {
        let mut bytes: Vec<u8> = Vec::new();
        bytes.push(ID1);
        bytes.push(ID2);
        bytes.push(method_byte(self.compression_method));
        bytes.push(self.flags().0);
        let m = self.modification_time;
        bytes.push((m % 256) as u8);
        bytes.push(((m / 256) % 256) as u8);
        bytes.push(((m / 65536) % 256) as u8);
        bytes.push(((m / 16777216) % 256) as u8);
        bytes.push(self.extra_flags);
        bytes.push(self.os);
        let ghost fixed = bytes@;
        match &self.extra {
            Some(v) => {
                let xl = v.len() as u16;
                bytes.push((xl % 256) as u8);
                bytes.push((xl / 256) as u8);
                bytes.extend_from_slice(v.as_slice());
            },
            None => {},
        }
        match &self.name {
            Some(v) => {
                bytes.extend_from_slice(v.as_slice());
                bytes.push(0);
            },
            None => {},
        }
        match &self.comment {
            Some(v) => {
                bytes.extend_from_slice(v.as_slice());
                bytes.push(0);
            },
            None => {},
        }
        proof {
            assert(bytes@ =~= header_bytes(*self));
        }
        let crc = crc32_checksum(bytes.as_slice());
        (crc & 0xffff) as u16
    }

    /// The flags byte describing which optional fields this header carries.
    pub fn flags(&self) -> (r: MemberFlags)
        ensures
            r.0 == spec_flags(*self),
    {
        let mut flags = MemberFlags(0);
        flags.set_is_text(self.is_text);
        flags.set_has_crc(self.has_crc);
        flags.set_has_extra(self.extra.is_some());
        flags.set_has_name(self.name.is_some());
        flags.set_has_comment(self.comment.is_some());
        proof {
            lemma_u8_from_bits(flags.0);
            assert forall|m: u8| m < 8 implies !u8_bit(0u8, m) by {
                lemma_u8_zero_bits(m);
            }
        }
        flags
    }
}

/// A member footer: the CRC32 and the length modulo 2^32 of the member's
/// decompressed bytes.
#[derive(Clone, Copy, Debug, PartialEq, Eq, Structural)]
pub struct MemberFooter {
    pub data_crc32: u32,
    pub data_size: u32,
}

/// How many bytes the optional extra field occupies, counting its two length
/// bytes.
pub open spec fn extra_len(f: u8, rem: Seq<u8>) -> int {
    if u8_bit(f, 2) {
        2 + le_u16(rem)
    } else {
        0
    }
}

/// How many bytes the optional zero-terminated name occupies.
pub open spec fn name_len(f: u8, rem: Seq<u8>) -> int {
    if u8_bit(f, 3) {
        zstr_len(rem.skip(extra_len(f, rem)))
    } else {
        0
    }
}

/// How many bytes the optional zero-terminated comment occupies.
pub open spec fn comment_len(f: u8, rem: Seq<u8>) -> int {
    if u8_bit(f, 4) {
        zstr_len(rem.skip(extra_len(f, rem) + name_len(f, rem)))
    } else {
        0
    }
}

/// Whether `rem` holds enough bytes for the optional fields that the flags
/// byte `f` announces.
pub open spec fn header_rest_ok(f: u8, rem: Seq<u8>) -> bool {
    &&& (u8_bit(f, 2) ==> rem.len() >= 2 + le_u16(rem))
    &&& (u8_bit(f, 1) ==> rem.len() >= extra_len(f, rem) + name_len(f, rem) + comment_len(f, rem)
        + 2)
}

/// The member header that the ten fixed bytes `h10` and the following bytes
/// `rem` describe, field by field.
pub open spec fn header_fields_match(h10: Seq<u8>, rem: Seq<u8>, h: MemberHeader) -> bool {
    let f = h10[3];
    &&& h.compression_method == CompressionMethod::Deflate
    &&& h.modification_time == le_u32(h10.skip(4))
    &&& h.extra_flags == h10[8]
    &&& h.os == h10[9]
    &&& h.is_text == u8_bit(f, 0)
    &&& h.has_crc == u8_bit(f, 1)
    &&& (match h.extra {
        Some(v) => u8_bit(f, 2) && v@ == rem.skip(2).take(le_u16(rem)),
        None => !u8_bit(f, 2),
    })
    &&& (match h.name {
        Some(v) => u8_bit(f, 3) && v@ == zstr_content(rem.skip(extra_len(f, rem))),
        None => !u8_bit(f, 3),
    })
    &&& (match h.comment {
        Some(v) => u8_bit(f, 4) && v@ == zstr_content(
            rem.skip(extra_len(f, rem) + name_len(f, rem)),
        ),
        None => !u8_bit(f, 4),
    })
}

/// The serialized bytes of a header as they stand on the wire from byte `q`
/// of `data`, with the reserved high bits of the flags byte cleared and the
/// name and comment carrying their zero terminators: the bytes an announced
/// header CRC16 covers.
pub open spec fn spec_header_wire_bytes(d: Seq<u8>, q: int) -> Seq<u8> {
    let f = d[q + 3];
    let rem = d.skip(q + 10);
    seq![d[q], d[q + 1], d[q + 2], f & 0x1f] + d.subrange(q + 4, q + 10) + (if u8_bit(f, 2) {
        d.subrange(q + 10, q + 12 + le_u16(rem))
    } else {
        Seq::<u8>::empty()
    }) + (if u8_bit(f, 3) {
        zstr_content(rem.skip(extra_len(f, rem))) + seq![0u8]
    } else {
        Seq::<u8>::empty()
    }) + (if u8_bit(f, 4) {
        zstr_content(rem.skip(extra_len(f, rem) + name_len(f, rem))) + seq![0u8]
    } else {
        Seq::<u8>::empty()
    })
}

/// When the flags announce a header CRC16, its stored value is the low
/// sixteen bits of the CRC32 over the serialized header.
pub open spec fn spec_header_crc_ok(d: Seq<u8>, q: int) -> bool {
    let f = d[q + 3];
    let rem = d.skip(q + 10);
    u8_bit(f, 1) ==> le_u16(
        rem.skip(extra_len(f, rem) + name_len(f, rem) + comment_len(f, rem)),
    ) == (spec_crc32(spec_header_wire_bytes(d, q)) & 0xffff)
}

proof fn lemma_flags_pack(f: u8)
    by (bit_vector)
    ensures
        ((if u8_bit(f, 0) { 1int } else { 0int }) + (if u8_bit(f, 1) { 2int } else { 0int })
            + (if u8_bit(f, 2) { 4int } else { 0int })
            + (if u8_bit(f, 3) { 8int } else { 0int })
            + (if u8_bit(f, 4) { 16int } else { 0int })) as u8 == (f & 0x1f),
{
}

proof fn lemma_le_u16_roundtrip(b0: u8, b1: u8)
    by (nonlinear_arith)
    ensures
        ((b0 + 256 * (b1 as int)) as u16) % 256 == b0,
        ((b0 + 256 * (b1 as int)) as u16) / 256 == b1,
{
}

proof fn lemma_le_u32_roundtrip(b0: u8, b1: u8, b2: u8, b3: u8)
    by (nonlinear_arith)
    ensures
        ({
            let v = (b0 + 256 * (b1 as int) + 65536 * (b2 as int) + 16777216 * (
            b3 as int)) as u32;
            v % 256 == b0 && (v / 256) % 256 == b1 && (v / 65536) % 256 == b2 && (v
                / 16777216) % 256 == b3
        }),
{
}

/// A header parsed from the wire serializes back to exactly the wire bytes:
/// the CRC16 the implementation recomputes from the fields covers the same
/// bytes as the one the encoder wrote.
pub proof fn lemma_header_bytes_from_wire(d: Seq<u8>, q: int, h: MemberHeader)
    requires
        0 <= q,
        q + 10 <= d.len(),
        d[q] == ID1,
        d[q + 1] == ID2,
        d[q + 2] == CM_DEFLATE,
        header_fields_match(d.subrange(q, q + 10), d.skip(q + 10), h),
        header_rest_ok(d[q + 3], d.skip(q + 10)),
    ensures
        header_bytes(h) == spec_header_wire_bytes(d, q),
{
    let h10 = d.subrange(q, q + 10);
    let f = d[q + 3];
    let rem = d.skip(q + 10);
    lemma_flags_pack(f);
    assert(spec_flags(h) == f & 0x1f);
    let mt = h.modification_time;
    assert(mt == le_u32(h10.skip(4)));
    assert(h10.skip(4)[0] == d[q + 4] && h10.skip(4)[1] == d[q + 5] && h10.skip(4)[2] == d[q + 6]
        && h10.skip(4)[3] == d[q + 7]);
    lemma_le_u32_roundtrip(d[q + 4], d[q + 5], d[q + 6], d[q + 7]);
    assert(u32_le_bytes(mt) =~= d.subrange(q + 4, q + 8));
    let extra_part = match h.extra {
        Some(v) => u16_le_bytes(v@.len() as u16) + v@,
        None => Seq::<u8>::empty(),
    };
    match h.extra {
        Some(v) => {
            assert(u8_bit(f, 2));
            let xlen = le_u16(rem);
            assert(v@ == rem.skip(2).take(xlen));
            assert(rem.len() >= 2 + xlen);
            assert(v@.len() == xlen);
            lemma_le_u16_roundtrip(rem[0], rem[1]);
            assert(u16_le_bytes(v@.len() as u16) =~= seq![rem[0], rem[1]]);
            assert(extra_part =~= d.subrange(q + 10, q + 12 + xlen));
        },
        None => {
            assert(!u8_bit(f, 2));
        },
    }
    assert(header_bytes(h) =~= spec_header_wire_bytes(d, q));
}

/// The bytes the optional fields and the optional header CRC16 occupy after
/// the fixed header.
pub open spec fn header_rest_len(f: u8, rem: Seq<u8>) -> int {
    extra_len(f, rem) + name_len(f, rem) + comment_len(f, rem) + if u8_bit(f, 1) {
        2int
    } else {
        0int
    }
}

/// Reads member headers and hands the stream on, member by member.
pub struct GzipReader<'a> {
    pub reader: ByteReader<'a>,
}

/// The stream of one member's body, after its header was parsed.
pub struct MemberReader<'a> {
    pub inner: ByteReader<'a>,
}

impl<'a> GzipReader<'a> {
    pub open spec fn wf(self) -> bool {
        self.reader.wf()
    }

    pub fn new(reader: ByteReader<'a>) -> (r: Self)
        ensures
            r.reader == reader,
    {
        Self { reader }
    }

    /// Probes for another member: `None` at a clean end of the stream, the
    /// ten fixed header bytes otherwise, or an error if fewer than ten bytes
    /// remain.
    pub fn get_header(&mut self) -> (r: Option<Result<Vec<u8>, Error>>)
        requires
            old(self).wf(),
        ensures
            final(self).wf(),
            final(self).reader.data@ == old(self).reader.data@,
            old(self).reader.remaining().len() == 0 ==> r is None && *final(self) == *old(self),
            0 < old(self).reader.remaining().len() < 10 ==> (match r {
                Some(x) => x == Err::<Vec<u8>, Error>(Error::UnexpectedEof),
                None => false,
            }) && *final(self) == *old(self),
            old(self).reader.remaining().len() >= 10 ==> match r {
                Some(x) => match x {
                    Ok(v) => v@ == old(self).reader.remaining().take(10) && final(self).reader.pos
                        == old(self).reader.pos + 10 && final(self).reader.remaining()
                        == old(self).reader.remaining().skip(10),
                    Err(_) => false,
                },
                None => false,
            },
    {
        if self.reader.remaining_len() == 0 {
            return None;
        }
        match self.reader.read_exact(10) {
            Ok(v) => Some(Ok(v)),
            Err(e) => Some(Err(e)),
        }
    }

    /// Parses a member header: checks the magic bytes and the compression
    /// method, reads the optional fields, and verifies the header CRC16 when
    /// present.  On success hands back the header and the body's stream.
    #[verifier::rlimit(100)]
    pub fn parse_header(self, header: &[u8]) -> (r: Result<(MemberHeader, MemberReader<'a>), Error>)
        requires
            self.wf(),
            header@.len() == 10,
        ensures
            ({
                let h10 = header@;
                let f = h10[3];
                let rem = self.reader.remaining();
                &&& (h10[0] != ID1 || h10[1] != ID2) ==> r == Err::<(MemberHeader, MemberReader<
                    'a,
                >), Error>(Error::BadMagic)
                &&& (h10[0] == ID1 && h10[1] == ID2 && h10[2] != CM_DEFLATE) ==> r == Err::<(
                    MemberHeader,
                    MemberReader<'a>,
                ), Error>(Error::UnsupportedCompressionMethod)
                &&& (h10[0] == ID1 && h10[1] == ID2 && h10[2] == CM_DEFLATE && !header_rest_ok(
                    f,
                    rem,
                )) ==> r == Err::<(MemberHeader, MemberReader<'a>), Error>(Error::UnexpectedEof)
                &&& (h10[0] == ID1 && h10[1] == ID2 && h10[2] == CM_DEFLATE && header_rest_ok(
                    f,
                    rem,
                )) ==> match r {
                    Ok(p) => {
                        &&& header_fields_match(h10, rem, p.0)
                        &&& p.1.inner.wf()
                        &&& p.1.inner.data@ == self.reader.data@
                        &&& p.1.inner.pos == self.reader.pos + header_rest_len(f, rem)
                        &&& (u8_bit(f, 1) ==> le_u16(
                            rem.skip(
                                extra_len(f, rem) + name_len(f, rem) + comment_len(f, rem),
                            ),
                        ) == (spec_crc32(header_bytes(p.0)) & 0xffff))
                    },
                    Err(e) => {
                        &&& e == Error::HeaderCrcMismatch
                        &&& u8_bit(f, 1)
                        &&& exists|h: MemberHeader|
                            header_fields_match(h10, rem, h) && le_u16(
                                rem.skip(
                                    extra_len(f, rem) + name_len(f, rem) + comment_len(f, rem),
                                ),
                            ) != (spec_crc32(header_bytes(h)) & 0xffff)
                    },
                }
            }),
    {
        let ghost rem = self.reader.remaining();
        let ghost f = header@[3];
        if header[0] != ID1 || header[1] != ID2 {
            return Err(Error::BadMagic);
        }
        if header[2] != CM_DEFLATE {
            return Err(Error::UnsupportedCompressionMethod);
        }
        let fl = MemberFlags(header[3]);
        let extra_flags = header[8];
        let os = header[9];
        let modification_time: u32 = (header[4] as u32) + 256 * (header[5] as u32) + 65536 * (
        header[6] as u32) + 16777216 * (header[7] as u32);
        proof {
            assert(header@.skip(4)[0] == header@[4]);
            assert(header@.skip(4)[1] == header@[5]);
            assert(header@.skip(4)[2] == header@[6]);
            assert(header@.skip(4)[3] == header@[7]);
        }
        let mut reader = self.reader;
        let mut extra: Option<Vec<u8>> = None;
        if fl.has_extra() {
            let len_extra_fields = match reader.read_u16_le() {
                Ok(x) => x,
                Err(_) => {
                    return Err(Error::UnexpectedEof);
                },
            };
            let data_extra = match reader.read_exact(len_extra_fields as usize) {
                Ok(v) => v,
                Err(_) => {
                    return Err(Error::UnexpectedEof);
                },
            };
            extra = Some(data_extra);
        }
        proof {
            assert(reader.pos == self.reader.pos + extra_len(f, rem));
            assert(reader.remaining() =~= rem.skip(extra_len(f, rem)));
        }
        let mut name: Option<Vec<u8>> = None;
        if fl.has_name() {
            name = Some(reader.read_until_zero());
        }
        proof {
            assert(reader.pos == self.reader.pos + extra_len(f, rem) + name_len(f, rem));
            assert(reader.remaining() =~= rem.skip(extra_len(f, rem) + name_len(f, rem)));
        }
        let mut comment: Option<Vec<u8>> = None;
        if fl.has_comment() {
            comment = Some(reader.read_until_zero());
        }
        proof {
            assert(reader.pos == self.reader.pos + extra_len(f, rem) + name_len(f, rem)
                + comment_len(f, rem));
            assert(reader.remaining() =~= rem.skip(
                extra_len(f, rem) + name_len(f, rem) + comment_len(f, rem),
            ));
        }
        let has_crc = fl.has_crc();
        let mut crc16: u16 = 0;
        if has_crc {
            crc16 = match reader.read_u16_le() {
                Ok(x) => x,
                Err(_) => {
                    return Err(Error::UnexpectedEof);
                },
            };
        }
        let res = MemberHeader {
            compression_method: CompressionMethod::Deflate,
            modification_time,
            extra,
            name,
            comment,
            extra_flags,
            os,
            has_crc,
            is_text: fl.is_text(),
        };
        proof {
            assert(header_fields_match(header@, rem, res));
        }
        if has_crc {
            let computed = res.crc16();
            proof {
                let y = spec_crc32(header_bytes(res));
                assert((y & 0xffff) < 65536) by (bit_vector);
            }
            if crc16 != computed {
                proof {
                    assert(header_fields_match(header@, rem, res) && le_u16(
                        rem.skip(extra_len(f, rem) + name_len(f, rem) + comment_len(f, rem)),
                    ) != (spec_crc32(header_bytes(res)) & 0xffff));
                }
                return Err(Error::HeaderCrcMismatch);
            }
        }
        Ok((res, MemberReader { inner: reader }))
    }
}

impl<'a> MemberReader<'a> {
    pub open spec fn wf(self) -> bool {
        self.inner.wf()
    }

    /// The member body's stream, for the DEFLATE layer to consume.
    pub fn inner_mut(&mut self) -> (r: &mut ByteReader<'a>)
        ensures
            *r == old(self).inner,
            final(self).inner == *final(r),
    {
        &mut self.inner
    }

    /// Reads the eight-byte footer: the member's CRC32 and its decompressed
    /// length modulo 2^32, both little endian.  Hands the stream back for the
    /// next member.
    pub fn read_footer(self) -> (r: Result<(MemberFooter, GzipReader<'a>), Error>)
        requires
            self.wf(),
        ensures
            self.inner.remaining().len() < 8 ==> r == Err::<(MemberFooter, GzipReader<'a>), Error>(
                Error::UnexpectedEof,
            ),
            self.inner.remaining().len() >= 8 ==> match r {
                Ok(p) => {
                    &&& p.0.data_crc32 == le_u32(self.inner.remaining())
                    &&& p.0.data_size == le_u32(self.inner.remaining().skip(4))
                    &&& p.1.reader.wf()
                    &&& p.1.reader.data@ == self.inner.data@
                    &&& p.1.reader.pos == self.inner.pos + 8
                    &&& p.1.reader.remaining() == self.inner.remaining().skip(8)
                },
                Err(_) => false,
            },
    {
        let mut inner = self.inner;
        let data_crc32 = match inner.read_u32_le() {
            Ok(x) => x,
            Err(e) => {
                return Err(e);
            },
        };
        let data_size = match inner.read_u32_le() {
            Ok(x) => x,
            Err(e) => {
                return Err(e);
            },
        };
        proof {
            assert(self.inner.remaining().skip(4).skip(4) =~= self.inner.remaining().skip(8));
            assert(self.inner.remaining().skip(4)[0] == self.inner.remaining()[4]);
        }
        Ok((MemberFooter { data_crc32, data_size }, GzipReader::new(inner)))
    }
}

} // verus!
