use ff7_extract::lgp::{Anomaly, LGPFile};
use ff7_extract::parse::ParseError;

/// Pads `name` with trailing nulls to the 20-byte field width.
fn pad20(name: &[u8]) -> Vec<u8> {
    assert!(name.len() <= 20);
    let mut v = name.to_vec();
    v.resize(20, 0);
    v
}

/// One archive with one member: creator, count, a table-of-contents
/// record, the member block at the given offset gap, a terminator.
fn archive_one(
    creator: &[u8; 12],
    toc_name: &[u8],
    check: u8,
    conflict: u16,
    member_name: &[u8],
    payload: &[u8],
    terminator: &[u8],
) -> Vec<u8> {
    let mut d = Vec::new();
    d.extend_from_slice(creator);
    d.extend_from_slice(&1u32.to_le_bytes());
    d.extend_from_slice(&pad20(toc_name));
    d.extend_from_slice(&43u32.to_le_bytes());
    d.push(check);
    d.extend_from_slice(&conflict.to_le_bytes());
    assert_eq!(d.len(), 43);
    d.extend_from_slice(&pad20(member_name));
    d.extend_from_slice(&(payload.len() as u32).to_le_bytes());
    d.extend_from_slice(payload);
    d.extend_from_slice(terminator);
    d
}

fn example_archive() -> Vec<u8> {
    archive_one(
        b"SQUARESOFT\0\0",
        b"FOO.TXT",
        0x0E,
        0,
        b"FOO.TXT",
        &[0x41, 0x42, 0x43],
        b"FINAL FANTASY7",
    )
}

#[test]
fn parses_example_archive() {
    let d = example_archive();
    let f = LGPFile::from_bytes(&d).unwrap_or_else(|e| panic!("parse failed: {}", e.message()));
    assert_eq!(f.creator, "SQUARESOFT");
    assert_eq!(f.terminator, "FINAL FANTASY7");
    assert_eq!(f.files.len(), 1);
    assert_eq!(f.files[0].name, "FOO.TXT");
    assert_eq!(f.files[0].data, vec![0x41, 0x42, 0x43]);
    assert_eq!(f.anomalies, vec![]);
}

#[test]
fn reparse_is_deterministic() {
    let d = example_archive();
    let a = LGPFile::from_bytes(&d).unwrap_or_else(|_| panic!("parse failed"));
    let b = LGPFile::from_bytes(&d).unwrap_or_else(|_| panic!("parse failed"));
    assert_eq!(a.creator, b.creator);
    assert_eq!(a.terminator, b.terminator);
    assert_eq!(a.files.len(), b.files.len());
    for (x, y) in a.files.iter().zip(b.files.iter()) {
        assert_eq!(x.name, y.name);
        assert_eq!(x.data, y.data);
    }
    assert_eq!(a.anomalies, b.anomalies);
}

#[test]
fn truncation_before_end_of_data_fails() {
    let d = example_archive();
    // member data ends at 43 + 20 + 4 + 3 = 70
    for cut in 0..70 {
        match LGPFile::from_bytes(&d[..cut]) {
            Err(e) => assert_eq!(e, ParseError::EndOfData, "cut at {cut}"),
            Ok(_) => panic!("truncated archive (cut {cut}) parsed"),
        }
    }
}

#[test]
fn truncation_inside_terminator_still_parses() {
    let d = example_archive();
    // from byte 70 on only the terminator tag is cut short
    for cut in 70..=d.len() {
        let f = LGPFile::from_bytes(&d[..cut])
            .unwrap_or_else(|_| panic!("cut at {cut} failed"));
        assert_eq!(f.files.len(), 1);
        assert_eq!(f.terminator, "FINAL FANTASY7"[..cut - 70].to_string());
    }
}

#[test]
fn duplicate_toc_name_fails() {
    // two records, both naming BAR.X, pointing at the same member block
    let mut d = Vec::new();
    d.extend_from_slice(b"SQUARESOFT\0\0");
    d.extend_from_slice(&2u32.to_le_bytes());
    for _ in 0..2 {
        d.extend_from_slice(&pad20(b"BAR.X"));
        d.extend_from_slice(&70u32.to_le_bytes());
        d.push(0x0B);
        d.extend_from_slice(&0u16.to_le_bytes());
    }
    assert_eq!(d.len(), 70);
    d.extend_from_slice(&pad20(b"BAR.X"));
    d.extend_from_slice(&1u32.to_le_bytes());
    d.push(0xAA);
    d.extend_from_slice(b"FINAL FANTASY7");
    match LGPFile::from_bytes(&d) {
        Err(e) => assert_eq!(e, ParseError::DuplicateName),
        Ok(_) => panic!("archive with repeated name parsed"),
    }
}

#[test]
fn nonzero_conflict_marker_fails() {
    let d = archive_one(
        b"SQUARESOFT\0\0",
        b"FOO.TXT",
        0x0E,
        7,
        b"FOO.TXT",
        &[1],
        b"FINAL FANTASY7",
    );
    match LGPFile::from_bytes(&d) {
        Err(e) => assert_eq!(e, ParseError::DuplicateName),
        Ok(_) => panic!("archive with conflict marker parsed"),
    }
}

#[test]
fn invalid_creator_text_fails() {
    let mut d = example_archive();
    d[3] = 0xFF; // a lone 0xFF is never valid UTF-8
    match LGPFile::from_bytes(&d) {
        Err(e) => assert_eq!(e, ParseError::InvalidText),
        Ok(_) => panic!("archive with invalid creator text parsed"),
    }
}

#[test]
fn invalid_toc_name_text_fails() {
    let mut d = example_archive();
    d[18] = 0xC0; // inside the record's name field; 0xC0 never starts a scalar
    match LGPFile::from_bytes(&d) {
        Err(e) => assert_eq!(e, ParseError::InvalidText),
        Ok(_) => panic!("archive with invalid record name parsed"),
    }
}

#[test]
fn empty_and_header_short_buffers_fail() {
    for d in [&[][..], &[0u8; 5][..], &example_archive()[..12], &example_archive()[..15]] {
        match LGPFile::from_bytes(d) {
            Err(e) => assert_eq!(e, ParseError::EndOfData),
            Ok(_) => panic!("short buffer parsed"),
        }
    }
}

#[test]
fn unusual_creator_is_an_anomaly_only() {
    let d = archive_one(
        b"SOMEONEELSE\0",
        b"FOO.TXT",
        0x0B,
        0,
        b"FOO.TXT",
        &[9],
        b"FINAL FANTASY7",
    );
    let f = LGPFile::from_bytes(&d).unwrap_or_else(|_| panic!("parse failed"));
    assert_eq!(f.creator, "SOMEONEELSE");
    assert_eq!(f.anomalies, vec![Anomaly::UnusualCreator]);
}

#[test]
fn unusual_check_marker_is_an_anomaly_only() {
    let d = archive_one(
        b"FICEDULA-LGP",
        b"FOO.TXT",
        0x07,
        0,
        b"FOO.TXT",
        &[9],
        b"LGP PATCH FILE",
    );
    let f = LGPFile::from_bytes(&d).unwrap_or_else(|_| panic!("parse failed"));
    assert_eq!(f.anomalies, vec![Anomaly::UnusualCheck { entry: 0, check: 0x07 }]);
}

#[test]
fn name_mismatch_is_an_anomaly_only() {
    let d = archive_one(
        b"SQUARESOFT\0\0",
        b"FOO.TXT",
        0x0E,
        0,
        b"BAR.TXT",
        &[9],
        b"FINAL FANTASY7",
    );
    let f = LGPFile::from_bytes(&d).unwrap_or_else(|_| panic!("parse failed"));
    // the table of contents supplies the member's key
    assert_eq!(f.files[0].name, "FOO.TXT");
    assert_eq!(f.anomalies, vec![Anomaly::NameMismatch { entry: 0 }]);
}

#[test]
fn unusual_terminator_is_an_anomaly_only() {
    let d = archive_one(
        b"SQUARESOFT\0\0",
        b"FOO.TXT",
        0x0E,
        0,
        b"FOO.TXT",
        &[9],
        b"SOMETHING ELSE",
    );
    let f = LGPFile::from_bytes(&d).unwrap_or_else(|_| panic!("parse failed"));
    assert_eq!(f.terminator, "SOMETHING ELSE");
    assert_eq!(f.anomalies, vec![Anomaly::UnusualTerminator]);
}

#[test]
fn empty_archive_has_no_members() {
    let mut d = Vec::new();
    d.extend_from_slice(b"SQUARESOFT\0\0");
    d.extend_from_slice(&0u32.to_le_bytes());
    d.extend_from_slice(b"FINAL FANTASY7");
    let f = LGPFile::from_bytes(&d).unwrap_or_else(|_| panic!("parse failed"));
    assert_eq!(f.files.len(), 0);
    assert_eq!(f.terminator, "FINAL FANTASY7");
    assert_eq!(f.anomalies, vec![]);
}

#[test]
fn members_out_of_toc_order_keep_toc_order_and_terminator() {
    // record 0 points at the block laid out second, record 1 at the first
    let mut d = Vec::new();
    d.extend_from_slice(b"SQUARESOFT\0\0");
    d.extend_from_slice(&2u32.to_le_bytes());
    // blocks: first at 70 (len 2, ends 96), second at 96 (len 1, ends 121)
    d.extend_from_slice(&pad20(b"B.X"));
    d.extend_from_slice(&96u32.to_le_bytes());
    d.push(0x0E);
    d.extend_from_slice(&0u16.to_le_bytes());
    d.extend_from_slice(&pad20(b"A.X"));
    d.extend_from_slice(&70u32.to_le_bytes());
    d.push(0x0E);
    d.extend_from_slice(&0u16.to_le_bytes());
    assert_eq!(d.len(), 70);
    d.extend_from_slice(&pad20(b"A.X"));
    d.extend_from_slice(&2u32.to_le_bytes());
    d.extend_from_slice(&[1, 2]);
    assert_eq!(d.len(), 96);
    d.extend_from_slice(&pad20(b"B.X"));
    d.extend_from_slice(&1u32.to_le_bytes());
    d.push(3);
    assert_eq!(d.len(), 121);
    d.extend_from_slice(b"FINAL FANTASY7");
    let f = LGPFile::from_bytes(&d).unwrap_or_else(|_| panic!("parse failed"));
    assert_eq!(f.files.len(), 2);
    assert_eq!(f.files[0].name, "B.X");
    assert_eq!(f.files[0].data, vec![3]);
    assert_eq!(f.files[1].name, "A.X");
    assert_eq!(f.files[1].data, vec![1, 2]);
    assert_eq!(f.terminator, "FINAL FANTASY7");
    assert_eq!(f.anomalies, vec![]);
}

#[test]
fn right_aligned_names_are_trimmed() {
    let d = archive_one(
        b"\0\0SQUARESOFT",
        b"\0\0\0FOO.TXT",
        0x0E,
        0,
        b"\0\0\0FOO.TXT",
        &[9],
        b"FINAL FANTASY7",
    );
    let f = LGPFile::from_bytes(&d).unwrap_or_else(|_| panic!("parse failed"));
    assert_eq!(f.creator, "SQUARESOFT");
    assert_eq!(f.files[0].name, "FOO.TXT");
    assert_eq!(f.anomalies, vec![]);
}

#[test]
fn parse_error_messages() {
    assert_eq!(ParseError::EndOfData.message(), "ran out of data while parsing");
    assert_eq!(ParseError::InvalidText.message(), "expected a valid UTF-8 string");
    assert_eq!(
        ParseError::DuplicateName.message(),
        "encountered multiple files with the same name"
    );
    assert_eq!(
        ParseError::UnknownFormat.message(),
        "encountered a file of an unknown format"
    );
}
