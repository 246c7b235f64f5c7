use npaf::reader::{read_lines, Bom};

fn lines(bytes: &[u8]) -> Vec<String> {
    read_lines(bytes).1
}

#[test]
fn lines_end_with_a_line_feed() {
    assert_eq!(lines(b"0 HEAD\n1 SOUR x\n"), vec!["0 HEAD", "1 SOUR x"]);
}

#[test]
fn a_carriage_return_before_the_line_feed_is_dropped() {
    assert_eq!(lines(b"0 HEAD\r\n1 SOUR x\r\n"), vec!["0 HEAD", "1 SOUR x"]);
}

#[test]
fn only_one_carriage_return_is_dropped() {
    assert_eq!(lines(b"a\r\r\nb"), vec!["a\r", "b"]);
}

#[test]
fn the_last_line_needs_no_line_feed() {
    assert_eq!(lines(b"0 HEAD\n0 TRLR"), vec!["0 HEAD", "0 TRLR"]);
}

#[test]
fn a_carriage_return_at_the_very_end_is_kept() {
    assert_eq!(lines(b"0 HEAD\n0 TRLR\r"), vec!["0 HEAD", "0 TRLR\r"]);
}

#[test]
fn empty_lines_are_lines() {
    assert_eq!(lines(b"a\n\nb\n"), vec!["a", "", "b"]);
    assert_eq!(lines(b"\n"), vec![""]);
    assert_eq!(lines(b"\r\n"), vec![""]);
}

#[test]
fn no_bytes_are_no_lines() {
    assert!(lines(b"").is_empty());
    assert_eq!(read_lines(b"").0, Bom::Null);
}

#[test]
fn a_line_that_is_not_utf8_is_left_out() {
    assert_eq!(lines(b"a\n\xff\xfe\xfd\nb\n"), vec!["a", "b"]);
    assert_eq!(lines(b"a\n\xc3"), vec!["a"]);
}

#[test]
fn text_beyond_ascii_is_decoded() {
    assert_eq!(lines("1 NAME Zo\u{eb}\n1 NOTE \u{65e5}\u{672c}\n".as_bytes()), vec!["1 NAME Zo\u{eb}", "1 NOTE \u{65e5}\u{672c}"]);
}

#[test]
fn the_mark_of_utf8_is_taken_off() {
    let (bom, lines) = read_lines(b"\xef\xbb\xbf0 HEAD\n0 TRLR\n");
    assert_eq!(bom, Bom::Utf8);
    assert_eq!(lines, vec!["0 HEAD", "0 TRLR"]);
    let (bom, lines) = read_lines(b"\xef\xbb\xbf");
    assert_eq!(bom, Bom::Utf8);
    assert!(lines.is_empty());
}

#[test]
fn no_mark_is_detected_in_plain_text() {
    assert_eq!(read_lines(b"0 HEAD\n").0, Bom::Null);
    assert_eq!(read_lines(b"\xef\xbb").0, Bom::Null);
    assert_eq!(read_lines(b"\xff").0, Bom::Null);
}

#[test]
fn the_marks_are_told_apart() {
    assert_eq!(read_lines(b"\xfe\xff\x00\x30").0, Bom::Utf16Be);
    assert_eq!(read_lines(b"\xff\xfe\x30\x00").0, Bom::Utf16Le);
    assert_eq!(read_lines(b"\xff\xfe").0, Bom::Utf16Le);
    assert_eq!(read_lines(b"\xff\xfe\x00\x00").0, Bom::Utf32Le);
    assert_eq!(read_lines(b"\x00\x00\xfe\xff").0, Bom::Utf32Be);
    assert_eq!(read_lines(b"\x0e\xfe\xff").0, Bom::Scsu);
    assert_eq!(read_lines(b"\x84\x31\x95\x33").0, Bom::Gb18030);
    assert_eq!(read_lines(b"\xdd\x73\x66\x73").0, Bom::UtfEbcdic);
    assert_eq!(read_lines(b"\xf7\x64\x4c").0, Bom::Utf1);
    assert_eq!(read_lines(b"\xfb\xee\x28").0, Bom::Bocu1);
}

#[test]
fn the_mark_of_utf7_has_one_of_four_last_bytes() {
    assert_eq!(read_lines(b"\x2b\x2f\x76\x38").0, Bom::Utf7);
    assert_eq!(read_lines(b"\x2b\x2f\x76\x39").0, Bom::Utf7);
    assert_eq!(read_lines(b"\x2b\x2f\x76\x2b").0, Bom::Utf7);
    assert_eq!(read_lines(b"\x2b\x2f\x76\x2f").0, Bom::Utf7);
    assert_eq!(read_lines(b"\x2b\x2f\x76\x30").0, Bom::Null);
    assert_eq!(read_lines(b"\x2b\x2f\x76").0, Bom::Null);
}

#[test]
fn another_mark_is_left_in_place() {
    let (bom, lines) = read_lines(b"\xf7\x64\x4c\nabc\n");
    assert_eq!(bom, Bom::Utf1);
    assert_eq!(lines, vec!["abc"]);
}
