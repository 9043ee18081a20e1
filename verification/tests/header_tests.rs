use red5sorcery::header::{build_header, pad_to_100, parse_and_validate_header};
use red5sorcery::text::{decimal_bytes, parse_usize};

fn field(s: &str, pad: u8) -> Vec<u8> {
    let mut v = s.as_bytes().to_vec();
    while v.len() < 100 {
        v.push(pad);
    }
    v
}

fn zero_field(s: &str) -> Vec<u8> {
    let mut v = vec![b'0'; 100 - s.len()];
    v.extend_from_slice(s.as_bytes());
    v
}

fn header_of(ts: &[u8], note: &[u8], name: &[u8], size: &[u8]) -> Vec<u8> {
    [ts, note, name, size].concat()
}

#[test]
fn pad_to_100_right_pads_with_spaces() {
    let r = pad_to_100("abc", true);
    assert_eq!(r.len(), 100);
    assert_eq!(&r[..3], b"abc");
    assert!(r[3..].iter().all(|&b| b == b' '));
}

#[test]
fn pad_to_100_left_pads_with_zeros() {
    let r = pad_to_100("123", false);
    assert_eq!(r.len(), 100);
    assert!(r[..97].iter().all(|&b| b == b'0'));
    assert_eq!(&r[97..], b"123");
}

#[test]
fn pad_to_100_truncates_long_input() {
    let long = "x".repeat(150);
    assert_eq!(pad_to_100(&long, true), vec![b'x'; 100]);
    assert_eq!(pad_to_100(&long, false), vec![b'x'; 100]);
}

#[test]
fn decimal_bytes_writes_numbers() {
    assert_eq!(decimal_bytes(0), b"0".to_vec());
    assert_eq!(decimal_bytes(7), b"7".to_vec());
    assert_eq!(decimal_bytes(1234567890), b"1234567890".to_vec());
    assert_eq!(decimal_bytes(u64::MAX), u64::MAX.to_string().into_bytes());
}

#[test]
fn parse_usize_accepts_what_from_str_accepts() {
    assert_eq!(parse_usize(b"123", 0), Some(123));
    assert_eq!(parse_usize(b"+42", 0), Some(42));
    assert_eq!(parse_usize(b"x+42", 1), Some(42));
    assert_eq!(parse_usize(b"+", 0), None);
    assert_eq!(parse_usize(b"", 0), None);
    assert_eq!(parse_usize(b"-1", 0), None);
    assert_eq!(parse_usize(b"12a", 0), None);
    assert_eq!(parse_usize(b"99999999999999999999999", 0), None);
    assert_eq!(parse_usize(usize::MAX.to_string().as_bytes(), 0), Some(usize::MAX));
}

#[test]
fn build_header_lays_out_four_fields() {
    let h = build_header("2025-05-31T19:27:45.123Z", "  hello  ", "secret.zip", &[0u8; 1234]);
    assert_eq!(h.len(), 400);
    assert_eq!(h[0..100], field("20250531192745", b' ')[..]);
    assert_eq!(h[100..200], field("hello", b' ')[..]);
    assert_eq!(h[200..300], field("secret.zip", b' ')[..]);
    assert_eq!(h[300..400], zero_field("1234")[..]);
}

#[test]
fn build_header_uses_default_note_for_blank_note() {
    let h = build_header("2025-01-02T03:04:05.000Z", " \t ", "a.zip", b"QQ==");
    assert_eq!(h[100..200], field("No author notes were provided.", b' ')[..]);
    assert_eq!(h[300..400], zero_field("4")[..]);
}

#[test]
fn header_roundtrip() {
    let h = build_header("2024-12-24T23:59:58.999Z", "Merry", "gift.zip", &[b'A'; 77]);
    let f = parse_and_validate_header(&h).ok().unwrap();
    assert_eq!(f.timestamp, "20241224235958");
    assert_eq!(f.author_note, "Merry");
    assert_eq!(f.filename, "gift.zip");
    assert_eq!(f.payload_size, 77);
}

#[test]
fn header_roundtrip_keeps_unicode_note() {
    let h = build_header("2024-12-24T23:59:58.999Z", " été ☃ ", "x.zip", &[b'A'; 5]);
    let f = parse_and_validate_header(&h).ok().unwrap();
    assert_eq!(f.author_note, "été ☃");
}

fn err_of(h: &[u8]) -> String {
    match parse_and_validate_header(h) {
        Ok(_) => panic!("expected an error"),
        Err(e) => e,
    }
}

#[test]
fn header_errors() {
    let ts = field("20250531192745", b' ');
    let note = field("n", b' ');
    let name = field("f.zip", b' ');
    let size = zero_field("12");
    assert_eq!(err_of(&[0u8; 399]), "Header must be exactly 400 bytes.");
    let mut bad_ts = ts.clone();
    bad_ts[0] = 0xFF;
    assert_eq!(err_of(&header_of(&bad_ts, &note, &name, &size)), "Invalid UTF-8 in timestamp field");
    let mut bad_ts = ts.clone();
    bad_ts[3] = b'x';
    assert_eq!(
        err_of(&header_of(&bad_ts, &note, &name, &size)),
        "Invalid timestamp format: expected 14 digits followed by 86 spaces."
    );
    let mut bad_note = note.clone();
    bad_note[5] = 0xC3;
    assert_eq!(err_of(&header_of(&ts, &bad_note, &name, &size)), "Invalid UTF-8 in author note");
    let mut bad_name = name.clone();
    bad_name[50] = 0x80;
    assert_eq!(err_of(&header_of(&ts, &note, &bad_name, &size)), "Invalid UTF-8 in filename");
    assert_eq!(err_of(&header_of(&ts, &note, &field("", b' '), &size)), "Filename cannot be empty.");
    let mut bad_size = size.clone();
    bad_size[0] = 0xFE;
    assert_eq!(err_of(&header_of(&ts, &note, &name, &bad_size)), "Invalid UTF-8 in payload size");
    assert_eq!(err_of(&header_of(&ts, &note, &name, &[b'0'; 100])), "Payload size is invalid or zero.");
    assert_eq!(
        err_of(&header_of(&ts, &note, &name, &zero_field("12 "))),
        "Payload size is not a valid number."
    );
    assert_eq!(
        err_of(&header_of(&ts, &note, &name, &zero_field("+0"))),
        "Payload size must be greater than zero."
    );
}

#[test]
fn header_accepts_plus_sign_in_size() {
    let h = header_of(
        &field("20250531192745", b' '),
        &field("n", b' '),
        &field("f.zip", b' '),
        &zero_field("+15"),
    );
    assert_eq!(parse_and_validate_header(&h).ok().unwrap().payload_size, 15);
}

#[test]
fn header_trims_note_and_filename() {
    let h = header_of(
        &field("20250531192745", b' '),
        &field("  spaced note", b' '),
        &field("\tname.zip", b' '),
        &zero_field("3"),
    );
    let f = parse_and_validate_header(&h).ok().unwrap();
    assert_eq!(f.author_note, "spaced note");
    assert_eq!(f.filename, "name.zip");
}

#[test]
fn header_roundtrip_trims_untrimmed_file_name() {
    let h = build_header("2024-01-02T03:04:05.678Z", "", " \tmy archive.zip  ", &[b'A'; 12]);
    assert_eq!(&h[200..218], b" \tmy archive.zip  ");
    let f = parse_and_validate_header(&h).ok().unwrap();
    assert_eq!(f.timestamp, "20240102030405");
    assert_eq!(f.author_note, "No author notes were provided.");
    assert_eq!(f.filename, "my archive.zip");
    assert_eq!(f.payload_size, 12);
}
