use ff7_extract::lzss::decompress_lzss;
use ff7_extract::parse::ParseError;

/// A stream with the given size hint, then the raw token bytes.
fn stream(hint: u32, body: &[u8]) -> Vec<u8> {
    let mut d = hint.to_le_bytes().to_vec();
    d.extend_from_slice(body);
    d
}

fn decode(hint: u32, body: &[u8]) -> Vec<u8> {
    decompress_lzss(&stream(hint, body)).unwrap_or_else(|e| panic!("decode failed: {}", e.message()))
}

#[test]
fn all_literal_group_is_copied_verbatim() {
    let body = [0xFF, 1, 2, 3, 4, 5, 6, 7, 8];
    assert_eq!(decode(8, &body), vec![1, 2, 3, 4, 5, 6, 7, 8]);
}

#[test]
fn size_hint_value_never_matters() {
    let body = [0xFF, 1, 2, 3, 4, 5, 6, 7, 8];
    let expected = vec![1, 2, 3, 4, 5, 6, 7, 8];
    for hint in [0, 1, 8, 0xFFFF_FFFF] {
        assert_eq!(decode(hint, &body), expected);
    }
}

#[test]
fn empty_stream_decodes_to_nothing() {
    assert_eq!(decode(0, &[]), Vec::<u8>::new());
}

#[test]
fn stream_shorter_than_size_hint_field_fails() {
    for d in [&[][..], &[0u8][..], &[0u8, 0, 0][..]] {
        match decompress_lzss(d) {
            Err(e) => assert_eq!(e, ParseError::EndOfData),
            Ok(_) => panic!("short stream decoded"),
        }
    }
}

#[test]
fn stream_ending_at_token_boundary_stops_cleanly() {
    // control byte promises eight literals but none follow: a clean end
    assert_eq!(decode(0, &[0xFF]), Vec::<u8>::new());
    // two literals consumed, six bits unused
    assert_eq!(decode(0, &[0xFF, 7, 9]), vec![7, 9]);
}

#[test]
fn stream_ending_inside_a_reference_fails() {
    // bit 0 selects a back-reference, which needs two bytes; one follows
    match decompress_lzss(&stream(0, &[0x00, 0xAB])) {
        Err(e) => assert_eq!(e, ParseError::EndOfData),
        Ok(_) => panic!("stream cut inside a token decoded"),
    }
}

#[test]
fn reference_into_untouched_history_reads_zeros() {
    // one reference at offset 0, which no write has reached: three zeros
    assert_eq!(decode(0, &[0x00, 0x00, 0x00]), vec![0, 0, 0]);
}

#[test]
fn raw_length_nibble_zero_copies_three_bytes() {
    // literal 0x41 lands at the initial cursor 0xFEE; the reference
    // reads offset 0xFEE (lo 0xEE, high nibble 0xF) with nibble 0, and
    // with the cursor one past the offset it replays the literal
    let out = decode(0, &[0x01, 0x41, 0xEE, 0xF0]);
    assert_eq!(out, vec![0x41; 4]);
    assert_eq!(out.len() - 1, 3);
}

#[test]
fn raw_length_nibble_fifteen_copies_eighteen_bytes() {
    let out = decode(0, &[0x01, 0x41, 0xEE, 0xFF]);
    assert_eq!(out, vec![0x41; 19]);
    assert_eq!(out.len() - 1, 18);
}

#[test]
fn self_referential_span_replays_its_own_output() {
    // literals X Y at 0xFEE/0xFEF, then a reference at 0xFEE of length
    // four: the copy overtakes the cursor and repeats itself
    let out = decode(0, &[0x03, b'X', b'Y', 0xEE, 0xF1]);
    assert_eq!(out, vec![b'X', b'Y', b'X', b'Y', b'X', b'Y']);
}

#[test]
fn reference_span_crossing_wraparound_boundary() {
    // twenty literals walk the cursor from 0xFEE across 0xFFF to 0x002;
    // the reference at 0xFFE spans the boundary: 17, 18 sit below it,
    // 19, 20 above
    let mut body = vec![0xFF];
    body.extend_from_slice(&[1, 2, 3, 4, 5, 6, 7, 8]);
    body.push(0xFF);
    body.extend_from_slice(&[9, 10, 11, 12, 13, 14, 15, 16]);
    body.push(0x0F); // four literals, then a reference
    body.extend_from_slice(&[17, 18, 19, 20]);
    body.extend_from_slice(&[0xFE, 0xF1]); // offset 0xFFE, length 4
    let out = decode(0, &body);
    let mut expected: Vec<u8> = (1..=20).collect();
    expected.extend_from_slice(&[17, 18, 19, 20]);
    assert_eq!(out, expected);
}

#[test]
fn decode_is_deterministic() {
    let body = [0x03, b'X', b'Y', 0xEE, 0xF1];
    assert_eq!(decode(5, &body), decode(5, &body));
}
