use smalltext::decoder::Decoder;
use smalltext::encoder::Encoder;
use smalltext::CodecError;

fn compress(input: Vec<u8>) -> Result<Vec<u8>, CodecError> {
    Encoder::new(input).compress()
}

fn decompress(data: Vec<u8>) -> Result<Vec<u8>, CodecError> {
    Decoder::new(data).decompress()
}

#[test]
fn empty_input_rejected() {
    assert_eq!(compress(vec![]), Err(CodecError::EmptyInputError));
}

#[test]
fn single_byte_round_trip() {
    let input = vec![0x5a];
    let out = compress(input.clone()).unwrap();
    assert_eq!(decompress(out), Ok(input));
}

#[test]
fn single_byte_exact_stream() {
    // One entry: symbol 0x5a with the one-bit code "1"; body is that bit
    // followed by seven zero padding bits.
    let out = compress(vec![0x5a]).unwrap();
    let expected = vec![
        0xf0, 0xf1, 0xf2, 0, 0, 0, 1, 0x5a, 1, 1, 1, 0x80,
    ];
    assert_eq!(out, expected);
}

#[test]
fn degenerate_repeat_round_trip() {
    // 1000 copies of one byte value: the degenerate single-leaf tree, with
    // the explicit non-empty code "1".
    let input = vec![0x41u8; 1000];
    let out = compress(input.clone()).unwrap();
    assert!(out.len() < input.len());
    assert_eq!(decompress(out), Ok(input));
}

#[test]
fn deterministic_output() {
    let input: Vec<u8> = (0..200u32).map(|i| (i * 7 % 256) as u8).collect();
    let a = compress(input.clone()).unwrap();
    let b = compress(input).unwrap();
    assert_eq!(a, b);
}

#[test]
fn two_symbol_exact_stream() {
    // Frequencies: 'a' twice, 'b' once. The two lowest-frequency entries
    // are 'b' (left, code 0) and 'a' (right, code 1); entries serialize in
    // leaf order. Body: bits 1 1 0 and five zero padding bits.
    let out = compress(vec![97, 97, 98]).unwrap();
    let expected = vec![
        0xf0, 0xf1, 0xf2, 0, 0, 0, 2, 98, 1, 1, 0, 97, 1, 1, 1, 0xc0,
    ];
    assert_eq!(out, expected);
}

#[test]
fn padding_collision_extends_output() {
    // The zero padding is not marked in the stream, so when some code is a
    // run of zeros no longer than the padding, decoding walks into the
    // padding: here 'b' has code 0 and five padding zeros decode as five
    // spurious 'b's.
    let out = compress(vec![97, 97, 98]).unwrap();
    assert_eq!(decompress(out), Ok(vec![97, 97, 98, 98, 98, 98, 98, 98]));
}

#[test]
fn three_symbol_round_trip() {
    // Codes: 'b' -> 0, 'c' -> 10, 'a' -> 11; 8 body bits, so no padding
    // and the round trip is exact.
    let input = vec![97, 97, 98, 98, 99];
    let out = compress(input.clone()).unwrap();
    assert_eq!(decompress(out), Ok(input));
}

#[test]
fn all_byte_values_round_trip() {
    // All 256 byte values once: a complete tree of depth 8, so every code
    // is a full byte (the no-partial-leading-byte arm of the format) and
    // the body is byte-aligned.
    let input: Vec<u8> = (0..=255u8).collect();
    let out = compress(input.clone()).unwrap();
    assert_eq!(decompress(out), Ok(input));
}

#[test]
fn skewed_input_compresses_smaller() {
    let mut input = vec![97u8; 900];
    input.extend(vec![98u8; 100]);
    let out = compress(input.clone()).unwrap();
    assert!(out.len() < input.len());
    assert_eq!(decompress(out), Ok(input));
}

#[test]
fn bad_magic_rejected() {
    let data = vec![0x00u8, 0xf1, 0xf2, 0, 0, 0, 1, 97, 1, 1, 1, 0x80];
    assert_eq!(decompress(data), Err(CodecError::FormatError));
}

#[test]
fn short_stream_rejected() {
    assert_eq!(decompress(vec![0xf0, 0xf1]), Err(CodecError::FormatError));
}

#[test]
fn truncated_header_rejected() {
    // Magic and a declared entry count of one, but no entry bytes.
    let data = vec![0xf0u8, 0xf1, 0xf2, 0, 0, 0, 1];
    assert_eq!(decompress(data), Err(CodecError::FormatError));
}

#[test]
fn oversized_partial_bit_count_rejected() {
    // An entry declaring nine significant bits in the partial leading byte
    // cannot come from the serializer.
    let data = vec![0xf0u8, 0xf1, 0xf2, 0, 0, 0, 1, 0x41, 9, 1, 0, 0x80];
    assert_eq!(decompress(data), Err(CodecError::FormatError));
}

#[test]
fn zero_code_bytes_rejected() {
    // An entry declaring zero code bytes would carry an empty code.
    let data = vec![0xf0u8, 0xf1, 0xf2, 0, 0, 0, 1, 0x41, 1, 0, 0x80];
    assert_eq!(decompress(data), Err(CodecError::FormatError));
}

#[test]
fn leftover_bits_rejected() {
    // Table: symbol 0x41 with code "1". A body byte of eight zero bits
    // never completes a code, and eight leftover bits are more than the
    // packer's padding can be.
    let data = vec![0xf0u8, 0xf1, 0xf2, 0, 0, 0, 1, 0x41, 1, 1, 1, 0x00];
    assert_eq!(decompress(data), Err(CodecError::FormatError));
}

#[test]
fn multi_byte_code_decodes() {
    // Two entries: symbol 0x41 with code "1", and symbol 0x42 with the
    // nine-bit code 000000000 (one partial bit, then one full byte). The
    // body decodes those nine zeros, then a one, then six padding zeros.
    let data = vec![
        0xf0u8, 0xf1, 0xf2, 0, 0, 0, 2, 0x41, 1, 1, 1, 0x42, 1, 2, 0, 0, 0x00, 0x40,
    ];
    assert_eq!(decompress(data), Ok(vec![0x42, 0x41]));
}
