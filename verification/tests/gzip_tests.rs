use ripgzip::decompress;
use ripgzip::ByteReader;
use ripgzip::Error;
use ripgzip::GzipReader;

// A member using a fixed Huffman tree, holding "hello world\n".
const G_SMALL: &[u8] = &[
    31, 139, 8, 0, 0, 0, 0, 0, 0, 3, 203, 72, 205, 201, 201, 87, 40, 207, 47, 202, 73, 225, 2, 0,
    45, 59, 8, 175, 12, 0, 0, 0,
];

// A member with heavy repetition, exercising back-references.
const G_REP: &[u8] = &[
    31, 139, 8, 0, 0, 0, 0, 0, 0, 3, 43, 201, 72, 85, 40, 44, 205, 76, 206, 86, 72, 42, 202, 47,
    207, 83, 72, 203, 175, 80, 200, 42, 205, 45, 40, 86, 200, 47, 75, 45, 82, 40, 1, 74, 231, 36,
    86, 85, 42, 164, 228, 167, 235, 129, 121, 163, 138, 201, 82, 12, 0, 15, 134, 217, 183, 104, 1,
    0, 0,
];

// A member with a dynamic Huffman tree.
const G_DYN: &[u8] = &[
    31, 139, 8, 0, 0, 0, 0, 0, 0, 3, 237, 209, 217, 109, 196, 32, 0, 0, 209, 86, 92, 128, 133,
    204, 13, 162, 26, 179, 220, 54, 224, 27, 47, 213, 39, 101, 228, 35, 83, 193, 72, 239, 78, 221,
    88, 238, 95, 96, 104, 249, 184, 105, 176, 155, 19, 147, 145, 161, 2, 35, 65, 55, 245, 35, 226,
    57, 36, 30, 228, 37, 86, 15, 100, 126, 189, 176, 210, 168, 66, 248, 116, 35, 128, 222, 107,
    91, 55, 39, 47, 70, 30, 120, 142, 54, 208, 97, 121, 18, 25, 62, 86, 200, 251, 105, 35, 1, 200,
    186, 3, 91, 115, 73, 120, 126, 155, 70, 109, 81, 129, 152, 114, 198, 173, 119, 226, 22, 216,
    197, 17, 39, 113, 12, 237, 91, 147, 91, 83, 173, 51, 1, 235, 126, 206, 105, 224, 175, 146,
    119, 164, 202, 32, 209, 127, 243, 184, 155, 108, 11, 92, 194, 51, 26, 63, 203, 244, 251, 172,
    180, 45, 234, 155, 246, 54, 190, 56, 4, 130, 48, 190, 92, 242, 207, 142, 23, 166, 11, 123, 19,
    215, 236, 114, 59, 123, 151, 86, 57, 167, 79, 85, 121, 235, 53, 51, 210, 180, 62, 240, 158,
    199, 6, 219, 235, 170, 175, 56, 63, 5, 43, 53, 227, 230, 194, 55, 227, 117, 122, 92, 71, 221,
    45, 75, 212, 9, 160, 164, 70, 220, 146, 16, 81, 207, 158, 197, 41, 23, 189, 151, 147, 110,
    224, 222, 249, 16, 77, 67, 128, 13, 52, 242, 196, 168, 134, 235, 56, 167, 53, 97, 21, 132,
    185, 25, 19, 216, 11, 179, 229, 227, 227, 41, 20, 218, 194, 91, 209, 145, 230, 3, 82, 142,
    233, 198, 118, 145, 97, 28, 66, 135, 183, 221, 38, 91, 174, 144, 222, 180, 71, 116, 255, 123,
    252, 41, 143, 31, 49, 136, 57, 91, 32, 3, 0, 0,
];

const DYN_PLAIN_HALF: &str = "ujzde7gx.d5ncf0 epf80d9ho.d9.zdoc8is j7h9t8lg.9mxg8e9d;n470u2.2xtplpf9t64v1s,eh5 kvj4 ce89uvw,4.2efr3edt91sywb2wk;h4dnsipzz4fk1z8ri08r wyojfljooa4.lqsaj 7x;9ui5;d28zzzzg3zdmen1khv,dga9j7gx;ben;yjqw,x3hh4233tfjgvq3k6bn6xj7b6tfq6xkwo775vo;mpzom64wbbr3qm,w1wxfogo3mvn3;;a3wfhym3l0vfz2zfkkibj.2j;,3wj88ibag6i0mnbqns5p.uq7 idw2.6 5i7j65b1l,ajlj3;h8du6683g8dpmrcg518be1u;5,5mr15735p6q8m1i hz1uep0enthjxjqi2";

// A member of stored (uncompressed) blocks.
const G_STORED: &[u8] = &[
    31, 139, 8, 0, 0, 0, 0, 0, 0, 3, 1, 24, 0, 231, 255, 115, 116, 111, 114, 101, 100, 32, 98,
    108, 111, 99, 107, 32, 112, 97, 121, 108, 111, 97, 100, 32, 49, 50, 51, 213, 37, 246, 227, 24,
    0, 0, 0,
];

// A member whose header carries the extra, name, comment and CRC16 fields.
const G_HDR: &[u8] = &[
    31, 139, 8, 30, 57, 48, 0, 0, 2, 13, 2, 0, 97, 98, 115, 111, 109, 101, 110, 97, 109, 101, 0,
    97, 32, 99, 111, 109, 109, 101, 110, 116, 0, 56, 118, 203, 72, 77, 76, 73, 45, 82, 40, 73, 45,
    46, 1, 0, 159, 115, 121, 14, 11, 0, 0, 0,
];

fn run(input: &[u8]) -> Result<Vec<u8>, Error> {
    let mut out = Vec::new();
    decompress(input, &mut out).map(|_| out)
}

#[test]
fn decompress_fixed_tree_member() {
    assert_eq!(run(G_SMALL).unwrap(), b"hello world\n");
}

#[test]
fn decompress_backreferences() {
    let expected = b"the quick brown fox jumps over the lazy dog. ".repeat(8);
    assert_eq!(run(G_REP).unwrap(), expected);
}

#[test]
fn decompress_dynamic_tree_member() {
    let expected = DYN_PLAIN_HALF.repeat(2).into_bytes();
    assert_eq!(run(G_DYN).unwrap(), expected);
}

#[test]
fn decompress_stored_member() {
    assert_eq!(run(G_STORED).unwrap(), b"stored block payload 123");
}

#[test]
fn decompress_empty_input_is_ok() {
    assert_eq!(run(&[]).unwrap(), Vec::<u8>::new());
}

#[test]
fn decompress_concatenated_members() {
    // The concatenation of two valid streams decompresses to the
    // concatenation of their outputs.
    let mut input = Vec::new();
    input.extend_from_slice(G_SMALL);
    input.extend_from_slice(G_REP);
    let mut expected: Vec<u8> = b"hello world\n".to_vec();
    expected.extend_from_slice(&b"the quick brown fox jumps over the lazy dog. ".repeat(8));
    assert_eq!(run(&input).unwrap(), expected);

    let mut three = Vec::new();
    three.extend_from_slice(G_STORED);
    three.extend_from_slice(G_STORED);
    three.extend_from_slice(G_SMALL);
    let mut expected3: Vec<u8> = b"stored block payload 123".to_vec();
    expected3.extend_from_slice(b"stored block payload 123");
    expected3.extend_from_slice(b"hello world\n");
    assert_eq!(run(&three).unwrap(), expected3);
}

#[test]
fn decompress_fails_on_every_truncation() {
    // Cutting a valid stream at any byte boundary before its end must fail;
    // it may never pass for a silently shortened output.
    for g in [G_SMALL, G_REP, G_DYN, G_STORED, G_HDR] {
        for cut in 1..g.len() {
            assert!(run(&g[..cut]).is_err(), "truncation at {} passed", cut);
        }
    }
}

#[test]
fn decompress_detects_corrupt_footer_crc() {
    // Flipping any byte of the footer's CRC32 field must give a checksum
    // mismatch: the decompressed bytes themselves are unaffected.
    for i in 0..4 {
        let mut g = G_SMALL.to_vec();
        let pos = g.len() - 8 + i;
        g[pos] ^= 0xff;
        assert_eq!(run(&g).unwrap_err(), Error::CrcMismatch);
    }
}

#[test]
fn decompress_detects_corrupt_footer_size() {
    let mut g = G_SMALL.to_vec();
    let pos = g.len() - 4;
    g[pos] ^= 0xff;
    assert_eq!(run(&g).unwrap_err(), Error::LengthCheckFailed);
}

#[test]
fn decompress_rejects_bad_magic_and_method() {
    let mut g = G_SMALL.to_vec();
    g[0] = 0x1e;
    assert_eq!(run(&g).unwrap_err(), Error::BadMagic);

    let mut g = G_SMALL.to_vec();
    g[2] = 7;
    assert_eq!(run(&g).unwrap_err(), Error::UnsupportedCompressionMethod);
}

#[test]
fn decompress_rejects_reserved_block_type() {
    let mut g: Vec<u8> = vec![31, 139, 8, 0, 0, 0, 0, 0, 0, 3];
    g.push(0b0000_0111);
    g.extend_from_slice(&[0; 8]);
    assert_eq!(run(&g).unwrap_err(), Error::UnsupportedBlockType);
}

#[test]
fn decompress_member_with_all_header_fields() {
    assert_eq!(run(G_HDR).unwrap(), b"header test");
}

#[test]
fn decompress_detects_corrupt_header_crc16() {
    let mut g = G_HDR.to_vec();
    // The CRC16 field sits right after the zero-terminated comment.
    g[33] ^= 0xff;
    assert_eq!(run(&g).unwrap_err(), Error::HeaderCrcMismatch);
}

#[test]
fn parse_header_reports_the_fields() {
    let mut reader = GzipReader::new(ByteReader::new(G_HDR));
    let header = reader.get_header().unwrap().unwrap();
    let (member_header, _member_reader) = reader.parse_header(header.as_slice()).unwrap();
    assert_eq!(member_header.modification_time, 12345);
    assert_eq!(member_header.extra_flags, 2);
    assert_eq!(member_header.os, 13);
    assert_eq!(member_header.extra, Some(b"ab".to_vec()));
    assert_eq!(member_header.name, Some(b"somename".to_vec()));
    assert_eq!(member_header.comment, Some(b"a comment".to_vec()));
    assert!(member_header.has_crc);
    assert!(!member_header.is_text);
    assert_eq!(member_header.crc16(), 30264);
}

#[test]
fn member_flags_round_trip() {
    let mut flags = ripgzip::MemberFlags(0);
    assert!(!flags.has_name());
    flags.set_has_name(true);
    flags.set_has_crc(true);
    assert!(flags.has_name());
    assert!(flags.has_crc());
    assert!(!flags.has_extra());
    assert!(!flags.has_comment());
    assert!(!flags.is_text());
    assert_eq!(flags.0, 0b0000_1010);
    flags.set_has_name(false);
    assert!(!flags.has_name());
    assert_eq!(flags.0, 0b0000_0010);
}

// A member whose DEFLATE stream holds several blocks: a flush in the middle
// forces an empty stored block between two compressed ones.
const G_MULTI: &[u8] = &[
    31, 139, 8, 0, 0, 0, 0, 0, 0, 3, 74, 203, 44, 42, 46, 81, 72, 202, 201, 79, 206, 86, 200, 79,
    83, 72, 73, 44, 73, 212, 81, 0, 0, 0, 0, 255, 255, 43, 78, 77, 206, 207, 75, 81, 72, 202, 201,
    79, 206, 86, 200, 79, 83, 72, 73, 44, 73, 4, 0, 221, 208, 253, 200, 41, 0, 0, 0,
];

#[test]
fn decompress_member_of_several_blocks() {
    assert_eq!(run(G_MULTI).unwrap(), b"first block of data, second block of data");
}
