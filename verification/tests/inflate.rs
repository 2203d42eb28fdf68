//! The DEFLATE decompressor on reference vectors and broken streams.
use slipcheck::bits::Bits;
use slipcheck::huffman::Huffman;
use slipcheck::inflate::{inflate, InflateError};

/// Wrap a payload in a single stored (uncompressed) deflate block.
fn stored_block(payload: &[u8]) -> Vec<u8> {
    let len = payload.len() as u16;
    let mut v = vec![0x01]; // BFINAL=1, BTYPE=00
    v.extend_from_slice(&len.to_le_bytes());
    v.extend_from_slice(&(!len).to_le_bytes());
    v.extend_from_slice(payload);
    v
}

// `zlib.compressobj(9, DEFLATED, -15)` over b"hello slipcheck":
// a single fixed-Huffman block.
const FIXED_VECTOR: [u8; 17] = [
    203, 72, 205, 201, 201, 87, 40, 206, 201, 44, 72, 206, 72, 77, 206, 6, 0,
];

#[test]
fn stored_block_round_trips() {
    let (out, consumed) = inflate(&stored_block(b"raw bytes"), 1 << 16).unwrap();
    assert_eq!(out, b"raw bytes");
    assert_eq!(consumed, 5 + 9);
}

#[test]
fn fixed_huffman_reference_vector() {
    let (out, consumed) = inflate(&FIXED_VECTOR, 1 << 16).unwrap();
    assert_eq!(out, b"hello slipcheck");
    assert_eq!(consumed, FIXED_VECTOR.len());
}

#[test]
fn dynamic_huffman_reference_vector() {
    // 4096 bytes of `32 + (((i*7) ^ (i>>3)) % 64)` compressed by zlib
    // at level 9 — chosen because zlib emits a dynamic-Huffman block.
    let expected: Vec<u8> = (0u32..4096)
        .map(|i| 32 + (((i * 7) ^ (i >> 3)) % 64) as u8)
        .collect();
    let (out, consumed) = inflate(&DYNAMIC_VECTOR, 1 << 16).unwrap();
    assert_eq!(out, expected);
    assert_eq!(consumed, DYNAMIC_VECTOR.len());
    // Sanity: the vector really is a dynamic block (BTYPE=2).
    assert_eq!((DYNAMIC_VECTOR[0] >> 1) & 3, 2);
}

#[test]
fn multiple_blocks_concatenate() {
    // Two stored blocks: first with BFINAL=0, second with BFINAL=1.
    let mut v = vec![0x00, 3, 0, 252, 255];
    v.extend_from_slice(b"abc");
    v.extend_from_slice(&stored_block(b"def"));
    let (out, _) = inflate(&v, 64).unwrap();
    assert_eq!(out, b"abcdef");
}

#[test]
fn output_limit_is_enforced_mid_stream() {
    let err = inflate(&stored_block(&[b'x'; 100]), 10).unwrap_err();
    assert_eq!(err, InflateError::OutputLimit);
    // Back-reference expansion is capped too, not just literals.
    let err = inflate(&FIXED_VECTOR, 4).unwrap_err();
    assert_eq!(err, InflateError::OutputLimit);
}

#[test]
fn truncated_stream_reports_eof_not_panic() {
    for cut in 1..FIXED_VECTOR.len() - 1 {
        let err = inflate(&FIXED_VECTOR[..cut], 1 << 16).unwrap_err();
        assert_eq!(err, InflateError::UnexpectedEof, "cut at {cut}");
    }
}

#[test]
fn corrupt_stored_length_is_rejected() {
    let mut v = stored_block(b"abc");
    v[3] ^= 0xFF; // break the NLEN complement
    assert_eq!(
        inflate(&v, 64).unwrap_err(),
        InflateError::InvalidStoredLength
    );
}

#[test]
fn reserved_block_type_is_rejected() {
    // BFINAL=1, BTYPE=11 (reserved).
    assert_eq!(
        inflate(&[0x07], 64).unwrap_err(),
        InflateError::InvalidBlockType
    );
}

#[test]
fn distance_before_output_start_is_rejected() {
    // Hand-built fixed block: length symbol with a distance pointing
    // before any output exists. Fuzz-ish: flip bits in the reference
    // vector and require a typed error or valid output, never a panic.
    for i in 0..FIXED_VECTOR.len() {
        for bit in 0..8 {
            let mut v = FIXED_VECTOR;
            v[i] ^= 1 << bit;
            let _ = inflate(&v, 1 << 12); // must not panic or hang
        }
    }
}

const DYNAMIC_VECTOR: [u8; 376] = [
    237, 209, 199, 161, 130, 80, 0, 5, 209, 86, 200, 162, 2, 34, 70, 178, 128, 10, 6, 64, 114,
    134, 254, 187, 248, 183, 143, 255, 214, 115, 118, 67, 173, 148, 147, 21, 188, 179, 110, 94,
    73, 39, 35, 136, 242, 106, 92, 41, 251, 107, 240, 249, 86, 243, 74, 220, 27, 119, 180, 22,
    198, 70, 203, 96, 206, 104, 111, 152, 29, 90, 0, 35, 238, 4, 251, 248, 241, 187, 172, 222,
    113, 182, 246, 185, 245, 83, 185, 19, 116, 245, 19, 220, 167, 122, 71, 233, 218, 23, 237,
    7, 115, 66, 235, 96, 28, 52, 31, 102, 133, 246, 129, 81, 47, 14, 47, 21, 189, 247, 74, 46,
    22, 191, 41, 90, 255, 241, 189, 56, 180, 88, 12, 227, 35, 185, 92, 233, 77, 137, 22, 193,
    200, 104, 30, 140, 128, 214, 195, 184, 104, 5, 204, 213, 61, 203, 220, 144, 191, 188, 167,
    123, 148, 153, 225, 247, 142, 239, 238, 121, 77, 13, 69, 25, 63, 93, 117, 205, 140, 104,
    55, 24, 30, 237, 5, 163, 160, 229, 48, 23, 180, 1, 230, 22, 38, 213, 200, 110, 246, 186,
    19, 126, 171, 158, 21, 181, 147, 21, 38, 89, 203, 110, 165, 147, 19, 70, 89, 207, 161, 93,
    97, 38, 180, 61, 76, 141, 182, 129, 73, 209, 88, 152, 40, 125, 78, 229, 150, 209, 247, 231,
    244, 62, 229, 91, 202, 176, 143, 233, 179, 251, 109, 89, 206, 62, 167, 183, 46, 151, 208,
    84, 152, 10, 77, 135, 153, 209, 24, 152, 16, 109, 11, 243, 107, 230, 199, 247, 96, 208,
    107, 165, 25, 31, 239, 195, 149, 225, 165, 102, 246, 162, 131, 105, 241, 74, 211, 122, 239,
    35, 154, 8, 19, 163, 209, 48, 79, 52, 3, 102, 65, 59, 192, 180, 75, 29, 223, 77, 109, 77,
    11, 75, 25, 251, 166, 186, 145, 185, 165, 126, 221, 204, 195, 81, 22, 150, 223, 203, 183,
    208, 40, 152, 7, 218, 26, 38, 65, 211, 96, 26, 52, 19, 134, 34, 255, 201, 127, 242, 159,
    252, 39, 255, 201, 127, 242, 159, 252, 39, 255, 201, 127, 242, 159, 252, 39, 255, 255, 197,
    255, 63,
];

/// Stored blocks of at most 65535 bytes each.
fn stored_blocks(payload: &[u8]) -> Vec<u8> {
    let mut out = Vec::new();
    let mut rest = payload;
    while rest.len() > 0xFFFF {
        out.push(0);
        out.extend_from_slice(&[0xFF, 0xFF, 0, 0]);
        out.extend_from_slice(&rest[..0xFFFF]);
        rest = &rest[0xFFFF..];
    }
    out.extend_from_slice(&stored_block(rest));
    out
}

#[test]
fn large_payloads_round_trip_through_several_stored_blocks() {
    let payload: Vec<u8> = (0..200_000u32).map(|i| (i * 31 % 251) as u8).collect();
    let stream = stored_blocks(&payload);
    let (out, consumed) = inflate(&stream, payload.len()).unwrap();
    assert_eq!(out, payload);
    assert_eq!(consumed, stream.len());
    assert_eq!(
        inflate(&stream, payload.len() - 1).unwrap_err(),
        InflateError::OutputLimit
    );
}

#[test]
fn bytes_behind_the_stream_are_ignored() {
    let mut longer = FIXED_VECTOR.to_vec();
    longer.extend_from_slice(&[0xAA; 20]);
    assert_eq!(
        inflate(&longer, 100).unwrap(),
        inflate(&FIXED_VECTOR, 100).unwrap()
    );
}

#[test]
fn every_cut_of_a_dynamic_stream_is_eof() {
    for cut in 0..DYNAMIC_VECTOR.len() {
        assert_eq!(
            inflate(&DYNAMIC_VECTOR[..cut], 1 << 16).unwrap_err(),
            InflateError::UnexpectedEof
        );
    }
}

#[test]
fn the_limit_is_exact() {
    assert!(inflate(&FIXED_VECTOR, 15).is_ok());
    assert_eq!(
        inflate(&FIXED_VECTOR, 14).unwrap_err(),
        InflateError::OutputLimit
    );
    assert!(inflate(&DYNAMIC_VECTOR, 4096).is_ok());
    assert_eq!(
        inflate(&DYNAMIC_VECTOR, 4095).unwrap_err(),
        InflateError::OutputLimit
    );
}

#[test]
fn too_many_codes_in_a_dynamic_header_are_rejected() {
    assert_eq!(
        inflate(&[0xFD, 0xFF, 0xFF], 64).unwrap_err(),
        InflateError::InvalidCodeLengths
    );
}

#[test]
fn unassigned_length_symbol_is_rejected() {
    // A final fixed block that starts with the code of symbol 286.
    assert_eq!(
        inflate(&[0x1B, 0x03], 64).unwrap_err(),
        InflateError::InvalidSymbol
    );
}

#[test]
fn distance_into_nothing_is_rejected() {
    // A final fixed block: length 3, distance 1, with no output yet.
    assert_eq!(
        inflate(&[0x03, 0x02], 64).unwrap_err(),
        InflateError::InvalidDistance
    );
}

#[test]
fn overlapping_copy_repeats_the_last_byte() {
    // Fixed block: literal 'a' (8 bits 10010001), length 3 distance 1, end.
    // Bits: 1 1 0, 1 0 0 1 0 0 0 1, 0 0 0 0 0 0 1, 0 0 0 0 0, 0 0 0 0 0 0 0.
    let data = [0b0100_1011, 0b0000_0100, 0b0000_0010, 0b0000_0000];
    let (out, _) = inflate(&data, 64).unwrap();
    assert_eq!(out, b"aaaa");
}

#[test]
fn inflate_errors_are_described() {
    assert_eq!(
        InflateError::UnexpectedEof.message(),
        "unexpected end of compressed data"
    );
    assert_eq!(
        InflateError::InvalidBlockType.message(),
        "reserved deflate block type"
    );
    assert_eq!(
        InflateError::InvalidStoredLength.message(),
        "stored block length check failed"
    );
    assert_eq!(
        InflateError::InvalidCodeLengths.message(),
        "invalid huffman code lengths"
    );
    assert_eq!(InflateError::InvalidSymbol.message(), "invalid huffman symbol");
    assert_eq!(
        InflateError::InvalidDistance.message(),
        "back-reference before start of output"
    );
    assert_eq!(
        InflateError::OutputLimit.message(),
        "output exceeds the configured unpack limit"
    );
}

#[test]
fn a_higher_limit_changes_nothing() {
    for limit in [15, 16, 1 << 20] {
        assert_eq!(
            inflate(&FIXED_VECTOR, limit).unwrap(),
            (b"hello slipcheck".to_vec(), FIXED_VECTOR.len())
        );
    }
    let reserved = [0x07u8];
    for limit in [0, 1, 1 << 20] {
        assert_eq!(
            inflate(&reserved, limit).unwrap_err(),
            InflateError::InvalidBlockType
        );
    }
}

#[test]
fn code_words_are_handed_out_by_length_then_symbol() {
    // Symbol 1 has the word 0, symbol 0 the word 10, symbols 2 and 3 the
    // words 110 and 111.
    let table = Huffman::construct(&[2, 1, 3, 3]).ok().unwrap();
    let data = [0xDA, 0x01];
    let mut bits = Bits::new(&data);
    let symbols: Vec<u16> = (0..4).map(|_| table.decode(&mut bits).unwrap()).collect();
    assert_eq!(symbols, vec![1, 0, 2, 3]);
}

#[test]
fn over_subscribed_lengths_are_rejected_and_no_others() {
    let rejected = Some(InflateError::InvalidCodeLengths);
    assert_eq!(Huffman::construct(&[1, 1, 1]).err(), rejected);
    assert_eq!(Huffman::construct(&[1, 1, 15]).err(), rejected);
    assert_eq!(Huffman::construct(&[1, 2, 2, 0]).err(), None);

    // Incomplete and empty sets are accepted; the gap shows on decoding.
    let incomplete = Huffman::construct(&[0, 2]).ok().unwrap();
    let zeros = [0u8; 3];
    assert_eq!(incomplete.decode(&mut Bits::new(&zeros)), Ok(1));
    let ones = [0xFFu8; 3];
    assert_eq!(
        incomplete.decode(&mut Bits::new(&ones)),
        Err(InflateError::InvalidSymbol)
    );
    let empty = Huffman::construct(&[0, 0, 0]).ok().unwrap();
    assert_eq!(
        empty.decode(&mut Bits::new(&zeros)),
        Err(InflateError::InvalidSymbol)
    );
}
