use red5sorcery::debug::{
    bitstream_debug_file_name, bitstream_debug_text, header_debug_text, header_first8_debug_text,
    hex_preview, raw_timestamp_check_text, seed_log_text, shuffle_debug_text,
};

#[test]
fn seed_log_has_title_rule_and_seed() {
    assert_eq!(
        seed_log_text("40x30_R1G2B3A4"),
        "Red5Sorcery Seed\n=================\n40x30_R1G2B3A4\n"
    );
}

#[test]
fn hex_preview_is_upper_case_and_spaced() {
    assert_eq!(hex_preview(&[0x00, 0x0f, 0xa5, 0xff]), "00 0F A5 FF");
    assert_eq!(hex_preview(&[]), "");
    assert_eq!(hex_preview(&[7]), "07");
}

#[test]
fn header_debug_shows_hex_and_lossy_text() {
    let t = header_debug_text(b"Hi\xff");
    assert_eq!(
        t,
        "Red5Sorcery Header Debug\n==========================\nBytes (Hex):\n48 69 FF\n\nAs Text:\nHi\u{FFFD}\n"
    );
}

#[test]
fn shuffle_debug_reports_count_and_minimum() {
    assert_eq!(
        shuffle_debug_text(1234, "uncloak"),
        "Red5Sorcery Shuffle Debug\n===========================\nContext: uncloak\nShuffled Indices Count: 1234\nMinimum Required for Header: 800\n"
    );
    assert!(shuffle_debug_text(0, "x").contains("Shuffled Indices Count: 0\n"));
}

#[test]
fn first8_debug_in_three_forms() {
    let bytes: Vec<u8> = vec![50, 48, 50, 53, 0, 255, 1, 128, 99, 99];
    let t = header_first8_debug_text(&bytes);
    assert_eq!(
        t,
        "Red5Sorcery Header First 8 Bytes\n==================================\n\
Hex: 32 30 32 35 00 FF 01 80\n\
Dec: 50 48 50 53 0 255 1 128\n\
Bin:\n00110010\n00110000\n00110010\n00110101\n00000000\n11111111\n00000001\n10000000\n"
    );
}

#[test]
fn raw_timestamp_check_shows_the_first_hundred_bytes() {
    let mut header = vec![0u8; 120];
    header[..4].copy_from_slice(b"20 5");
    header[100] = b'Z';
    let t = raw_timestamp_check_text(&header);
    let mut expected = String::from(
        "Timestamp Field (First 100 bytes)\n===============================\nUTF-8 Preview: 20 5",
    );
    expected.push_str(&"\u{0}".repeat(96));
    expected.push_str("\nVisible ASCII: 20 5");
    expected.push_str(&".".repeat(96));
    expected.push_str("\nHex: 32 30 20 35");
    expected.push_str(&" 00".repeat(96));
    expected.push('\n');
    assert_eq!(t, expected);
}

#[test]
fn bitstream_debug_lists_bits_lsb_first() {
    let t = bitstream_debug_text("Header", &[0x41, 0x20, 0x06]);
    assert_eq!(
        t,
        "Red5Sorcery Bitstream Debug: Header\n==============================\n\
Bytes (Hex): 41 20 06\n\
ASCII Preview: A..\n\
Bits (LSB First):\n1 0 0 0 0 0 1 0\n0 0 0 0 0 1 0 0\n0 1 1 0 0 0 0 0\n"
    );
}

#[test]
fn bitstream_debug_of_nothing() {
    assert_eq!(
        bitstream_debug_text("Empty", &[]),
        "Red5Sorcery Bitstream Debug: Empty\n==============================\nBytes (Hex): \nASCII Preview: \nBits (LSB First):\n\n"
    );
}

#[test]
fn bitstream_debug_file_is_named_by_label() {
    assert_eq!(bitstream_debug_file_name("Payload"), "Red5Sorcery_Payload_Bits.txt");
}
