use ripgzip::BitReader;
use ripgzip::BitSequence;
use ripgzip::ByteReader;
use ripgzip::DistanceToken;
use ripgzip::Error;
use ripgzip::HuffmanCodeWord;
use ripgzip::HuffmanSymbol;
use ripgzip::LitLenToken;
use ripgzip::TreeCodeToken;

#[test]
fn from_lengths() {
    let code = ripgzip::HuffmanCoding::<TreeCodeToken>::from_lengths(&[2, 3, 4, 3, 3, 4, 2])
        .unwrap();

    assert_eq!(
        code.decode_symbol(BitSequence::new(0b00, 2)),
        Some(TreeCodeToken::Length(0)),
    );
    assert_eq!(
        code.decode_symbol(BitSequence::new(0b100, 3)),
        Some(TreeCodeToken::Length(1)),
    );
    assert_eq!(
        code.decode_symbol(BitSequence::new(0b1110, 4)),
        Some(TreeCodeToken::Length(2)),
    );
    assert_eq!(
        code.decode_symbol(BitSequence::new(0b101, 3)),
        Some(TreeCodeToken::Length(3)),
    );
    assert_eq!(
        code.decode_symbol(BitSequence::new(0b110, 3)),
        Some(TreeCodeToken::Length(4)),
    );
    assert_eq!(
        code.decode_symbol(BitSequence::new(0b1111, 4)),
        Some(TreeCodeToken::Length(5)),
    );
    assert_eq!(
        code.decode_symbol(BitSequence::new(0b01, 2)),
        Some(TreeCodeToken::Length(6)),
    );

    assert_eq!(code.decode_symbol(BitSequence::new(0b0, 1)), None);
    assert_eq!(code.decode_symbol(BitSequence::new(0b10, 2)), None);
    assert_eq!(code.decode_symbol(BitSequence::new(0b111, 3)), None);
}

#[test]
fn read_symbol() {
    let code = ripgzip::HuffmanCoding::<TreeCodeToken>::from_lengths(&[2, 3, 4, 3, 3, 4, 2])
        .unwrap();
    let data: &[u8] = &[0b10111001, 0b11001010, 0b11101101];
    let mut reader = BitReader::new(ByteReader::new(data));

    assert_eq!(code.read_symbol(&mut reader).unwrap(), TreeCodeToken::Length(1));
    assert_eq!(code.read_symbol(&mut reader).unwrap(), TreeCodeToken::Length(2));
    assert_eq!(code.read_symbol(&mut reader).unwrap(), TreeCodeToken::Length(3));
    assert_eq!(code.read_symbol(&mut reader).unwrap(), TreeCodeToken::Length(6));
    assert_eq!(code.read_symbol(&mut reader).unwrap(), TreeCodeToken::Length(0));
    assert_eq!(code.read_symbol(&mut reader).unwrap(), TreeCodeToken::Length(2));
    assert_eq!(code.read_symbol(&mut reader).unwrap(), TreeCodeToken::Length(4));
    assert!(code.read_symbol(&mut reader).is_err());
}

#[test]
fn tree_code_tokens_follow_the_table() {
    assert_eq!(
        TreeCodeToken::token_try_from(HuffmanCodeWord(15)).unwrap(),
        TreeCodeToken::Length(15)
    );
    assert_eq!(
        TreeCodeToken::token_try_from(HuffmanCodeWord(16)).unwrap(),
        TreeCodeToken::CopyPrev
    );
    assert_eq!(
        TreeCodeToken::token_try_from(HuffmanCodeWord(17)).unwrap(),
        TreeCodeToken::RepeatZero { base: 3, extra_bits: 3 }
    );
    assert_eq!(
        TreeCodeToken::token_try_from(HuffmanCodeWord(18)).unwrap(),
        TreeCodeToken::RepeatZero { base: 11, extra_bits: 7 }
    );
    assert_eq!(
        TreeCodeToken::token_try_from(HuffmanCodeWord(19)).unwrap_err(),
        Error::BadCodeWord
    );
}

#[test]
fn litlen_tokens_follow_the_table() {
    assert_eq!(
        LitLenToken::token_try_from(HuffmanCodeWord(65)).unwrap(),
        LitLenToken::Literal(65)
    );
    assert_eq!(
        LitLenToken::token_try_from(HuffmanCodeWord(256)).unwrap(),
        LitLenToken::EndOfBlock
    );
    assert_eq!(
        LitLenToken::token_try_from(HuffmanCodeWord(257)).unwrap(),
        LitLenToken::Length { base: 3, extra_bits: 0 }
    );
    assert_eq!(
        LitLenToken::token_try_from(HuffmanCodeWord(266)).unwrap(),
        LitLenToken::Length { base: 13, extra_bits: 1 }
    );
    assert_eq!(
        LitLenToken::token_try_from(HuffmanCodeWord(284)).unwrap(),
        LitLenToken::Length { base: 227, extra_bits: 5 }
    );
    assert_eq!(
        LitLenToken::token_try_from(HuffmanCodeWord(285)).unwrap(),
        LitLenToken::Length { base: 258, extra_bits: 0 }
    );
    assert_eq!(LitLenToken::token_try_from(HuffmanCodeWord(286)).unwrap_err(), Error::BadCodeWord);
}

#[test]
fn distance_tokens_follow_the_table() {
    assert_eq!(
        DistanceToken::token_try_from(HuffmanCodeWord(0)).unwrap(),
        DistanceToken { base: 1, extra_bits: 0 }
    );
    assert_eq!(
        DistanceToken::token_try_from(HuffmanCodeWord(7)).unwrap(),
        DistanceToken { base: 13, extra_bits: 2 }
    );
    assert_eq!(
        DistanceToken::token_try_from(HuffmanCodeWord(29)).unwrap(),
        DistanceToken { base: 24577, extra_bits: 13 }
    );
    assert_eq!(
        DistanceToken::token_try_from(HuffmanCodeWord(30)).unwrap_err(),
        Error::BadCodeWord
    );
}
