use dxf_sheets::{
    decode_content, encode_content, rewrite_content, sheet_label, sheet_labels, MAX_CODEC_LEN,
};

#[test]
fn ascii_bytes_decode_to_themselves() {
    let decoded = decode_content(b"Title XX/XX End").expect("short input");
    assert_eq!(decoded.text, "Title XX/XX End");
    assert!(!decoded.had_errors);
}

#[test]
fn high_bytes_decode_by_the_nordic_table() {
    let decoded = decode_content(&[0xA1, 0xC5, 0xE6, 0xF8, 0xFF, 0xBD]).expect("short input");
    assert_eq!(decoded.text, "\u{0104}\u{00C5}\u{00E6}\u{00F8}\u{0138}\u{2015}");
    assert!(!decoded.had_errors);
}

#[test]
fn every_single_byte_decodes_without_error() {
    let all: Vec<u8> = (0x00..=0xFFu8).collect();
    let decoded = decode_content(&all).expect("short input");
    assert_eq!(decoded.text.chars().count(), 0x100);
    assert!(!decoded.had_errors);
    assert_eq!(encode_content(&decoded.text), Some(all));
}

#[test]
fn the_empty_content_decodes_to_the_empty_text() {
    let decoded = decode_content(&[]).expect("short input");
    assert_eq!(decoded.text, "");
    assert!(!decoded.had_errors);
}

#[test]
fn a_utf8_mark_switches_the_decoding() {
    let decoded = decode_content(&[0xEF, 0xBB, 0xBF, 0xC3, 0x85]).expect("short input");
    assert_eq!(decoded.text, "\u{00C5}");
    assert!(!decoded.had_errors);
}

#[test]
fn malformed_bytes_are_replaced_and_reported() {
    let decoded = decode_content(&[0xEF, 0xBB, 0xBF, b'a', 0xFF, b'b']).expect("short input");
    assert_eq!(decoded.text, "a\u{FFFD}b");
    assert!(decoded.had_errors);
}

#[test]
fn text_encodes_by_the_nordic_table() {
    assert_eq!(
        encode_content("\u{0104}\u{00C5}\u{00E6}\u{00F8}\u{0138}"),
        Some(vec![0xA1, 0xC5, 0xE6, 0xF8, 0xFF])
    );
    assert_eq!(encode_content("plain"), Some(b"plain".to_vec()));
    assert_eq!(encode_content(""), Some(Vec::new()));
}

#[test]
fn a_character_outside_the_table_becomes_a_numeric_reference() {
    assert_eq!(encode_content("5 \u{20AC}"), Some(b"5 &#8364;".to_vec()));
    assert_eq!(encode_content("\u{FFFD}"), Some(b"&#65533;".to_vec()));
}

#[test]
fn the_limit_leaves_room_for_any_real_file() {
    assert_eq!(MAX_CODEC_LEN, usize::MAX / 64);
    assert!(MAX_CODEC_LEN > 1 << 25);
}

#[test]
fn two_files_one_with_a_placeholder() {
    let labels = sheet_labels(2);
    let a1 = rewrite_content(b"Title XX/XX End", &labels[0]).expect("short input");
    assert_eq!(a1.bytes, b"Title 1/2 End".to_vec());
    assert!(!a1.had_errors);
    let b2 = rewrite_content(b"0\r\nSECTION\r\n2\r\nHEADER\r\n", &labels[1]).expect("short input");
    assert_eq!(b2.bytes, b"0\nSECTION\n2\nHEADER\n".to_vec());
    assert!(!b2.had_errors);
}

#[test]
fn a_file_without_placeholder_and_with_line_feeds_is_unchanged() {
    let content = b"0\nSECTION\n2\nENTITIES\n0\nENDSEC".to_vec();
    let rewritten = rewrite_content(&content, &sheet_label(2, 2)).expect("short input");
    assert_eq!(rewritten.bytes, content);
}

#[test]
fn nordic_letters_survive_the_rewrite() {
    let content = [b'B', b'l', 0xE5, b' ', b'X', b'X', b'/', b'X', b'X', b' ', 0xD8, 0xA1];
    let rewritten = rewrite_content(&content, "7/10").expect("short input");
    assert_eq!(
        rewritten.bytes,
        vec![b'B', b'l', 0xE5, b' ', b'7', b'/', b'1', b'0', b' ', 0xD8, 0xA1]
    );
    assert!(!rewritten.had_errors);
}

#[test]
fn malformed_content_is_still_rewritten() {
    let content = [0xEF, 0xBB, 0xBF, b'X', b'X', b'/', b'X', b'X', b' ', 0xFF];
    let rewritten = rewrite_content(&content, "1/1").expect("short input");
    assert!(rewritten.had_errors);
    assert_eq!(rewritten.bytes, b"1/1 &#65533;".to_vec());
}

#[test]
fn the_empty_file_stays_empty() {
    let rewritten = rewrite_content(&[], "1/1").expect("short input");
    assert!(rewritten.bytes.is_empty());
    assert!(!rewritten.had_errors);
}

#[test]
fn rewriting_twice_keeps_the_first_label() {
    let first = rewrite_content(b"Sheet XX/XX\r\nScale 1:50\r\n", &sheet_label(1, 2))
        .expect("short input");
    assert_eq!(first.bytes, b"Sheet 1/2\nScale 1:50\n".to_vec());
    let second = rewrite_content(&first.bytes, &sheet_label(1, 2)).expect("short input");
    assert_eq!(second.bytes, first.bytes);
}

#[test]
fn a_file_that_ends_with_a_line_feed_keeps_it() {
    let rewritten = rewrite_content(b"l1\nl2\n", &sheet_label(2, 2)).expect("short input");
    assert_eq!(rewritten.bytes, b"l1\nl2\n".to_vec());
    let labelled = rewrite_content(b"Title XX/XX End\n", &sheet_label(1, 2)).expect("short input");
    assert_eq!(labelled.bytes, b"Title 1/2 End\n".to_vec());
}

#[test]
fn a_second_run_leaves_the_files_as_the_first_wrote_them() {
    let labels = sheet_labels(2);
    let contents: [&[u8]; 2] = [b"Title XX/XX End\r\nXX/XX\r\n", b"a\n\n"];
    for (content, label) in contents.iter().zip(labels.iter()) {
        let first = rewrite_content(content, label).expect("short input");
        let second = rewrite_content(&first.bytes, label).expect("short input");
        assert_eq!(second.bytes, first.bytes);
    }
    assert_eq!(
        rewrite_content(contents[1], &labels[1]).expect("short input").bytes,
        b"a\n\n".to_vec()
    );
}
