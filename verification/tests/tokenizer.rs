use npaf::gedex::{data_line, ref_line, GedEx};
use npaf::line::GedLine;
use npaf::number::{parse_level, parse_number, to_decimal};

fn text(s: &str) -> Option<String> {
    Some(s.to_string())
}

fn data(level: i32, tag: &str, content: Option<&str>) -> Option<GedLine> {
    Some(GedLine::Data(level, tag.to_string(), content.map(|c| c.to_string())))
}

fn reference(level: i32, rtype: &str, id: u64, content: Option<&str>) -> Option<GedLine> {
    Some(GedLine::Ref(level, rtype.to_string(), id, content.map(|c| c.to_string())))
}

#[test]
fn data_line_with_content() {
    assert_eq!(GedEx::parse_line("1 NAME John /Smith/"), data(1, "NAME", Some("John /Smith/")));
}

#[test]
fn data_line_without_content() {
    assert_eq!(GedEx::parse_line("0 HEAD"), data(0, "HEAD", None));
    assert_eq!(GedEx::parse_line("0 TRLR"), data(0, "TRLR", None));
}

#[test]
fn data_line_with_custom_tag() {
    assert_eq!(GedEx::parse_line("1 _UID 42"), data(1, "_UID", Some("42")));
}

#[test]
fn data_line_with_two_digit_level() {
    assert_eq!(GedEx::parse_line("12 NOTE deep"), data(12, "NOTE", Some("deep")));
    assert_eq!(GedEx::parse_line("99 NOTE"), data(99, "NOTE", None));
}

#[test]
fn a_line_without_a_space_after_the_level_is_unrecognized() {
    assert_eq!(GedEx::parse_line("0HEAD"), None);
    assert_eq!(GedEx::parse_line("1NAME John"), None);
    assert_eq!(GedEx::parse_line("0@I1@ INDI"), None);
}

#[test]
fn several_spaces_may_follow_the_level_and_the_tag() {
    assert_eq!(GedEx::parse_line("0   HEAD"), data(0, "HEAD", None));
    assert_eq!(GedEx::parse_line("1  NAME   John"), data(1, "NAME", Some("John")));
    assert_eq!(GedEx::parse_line("0  @I1@  INDI"), reference(0, "I", 1, Some("INDI")));
    assert_eq!(GedEx::parse_line("1 NAMEJohn"), data(1, "NAMEJ", Some("ohn")));
}

#[test]
fn content_keeps_inner_and_trailing_spaces() {
    assert_eq!(GedEx::parse_line("2 DATE 1 JAN 1900 "), data(2, "DATE", Some("1 JAN 1900 ")));
}

#[test]
fn letters_after_five_are_content() {
    assert_eq!(GedEx::parse_line("1 ABCDEFG"), data(1, "ABCDE", Some("FG")));
}

#[test]
fn a_level_of_three_digits_is_unrecognized() {
    assert_eq!(GedEx::parse_line("123 NOTE x"), None);
}

#[test]
fn a_short_or_small_tag_is_unrecognized() {
    assert_eq!(GedEx::parse_line("1 AB"), None);
    assert_eq!(GedEx::parse_line("1 name John"), None);
}

#[test]
fn a_line_without_level_is_unrecognized() {
    assert_eq!(GedEx::parse_line("NAME John"), None);
    assert_eq!(GedEx::parse_line(""), None);
    assert_eq!(GedEx::parse_line("   "), None);
}

#[test]
fn a_line_with_a_terminator_is_unrecognized() {
    assert_eq!(GedEx::parse_line("0 HEAD\n"), None);
    assert_eq!(GedEx::parse_line("1 NAME John\r"), None);
}

#[test]
fn reference_line_with_content() {
    assert_eq!(GedEx::parse_line("0 @I12@ INDI"), reference(0, "I", 12, Some("INDI")));
    assert_eq!(GedEx::parse_line("0 @FAM7@ FAM"), reference(0, "FAM", 7, Some("FAM")));
}

#[test]
fn reference_line_without_content() {
    assert_eq!(GedEx::parse_line("0 @F3@"), reference(0, "F", 3, None));
}

#[test]
fn reference_line_at_a_deeper_level() {
    assert_eq!(GedEx::parse_line("2 @N1@ NOTE"), reference(2, "N", 1, Some("NOTE")));
}

#[test]
fn reference_with_the_largest_number() {
    assert_eq!(
        GedEx::parse_line("0 @I18446744073709551615@ INDI"),
        reference(0, "I", u64::MAX, Some("INDI"))
    );
}

#[test]
fn reference_with_a_number_beyond_64_bits_is_unrecognized() {
    assert_eq!(GedEx::parse_line("0 @I18446744073709551616@ INDI"), None);
}

#[test]
fn reference_with_digits_beyond_ascii_is_unrecognized() {
    assert_eq!(GedEx::parse_line("0 @I\u{0663}@ INDI"), None);
}

#[test]
fn reference_without_type_or_number_is_unrecognized() {
    assert_eq!(GedEx::parse_line("0 @12@ INDI"), None);
    assert_eq!(GedEx::parse_line("0 @I@ INDI"), None);
    assert_eq!(GedEx::parse_line("0 @I1 INDI"), None);
}

#[test]
fn the_data_grammar_is_tried_first() {
    // a content that looks like a reference stays the content of a data line
    assert_eq!(GedEx::parse_line("1 FAMC @F1@"), data(1, "FAMC", Some("@F1@")));
}

#[test]
fn numbers_are_read_in_base_ten() {
    assert_eq!(parse_number("0"), Some(0));
    assert_eq!(parse_number("007"), Some(7));
    assert_eq!(parse_number("1234567890"), Some(1234567890));
    assert_eq!(parse_number("18446744073709551615"), Some(u64::MAX));
    assert_eq!(parse_number("18446744073709551616"), None);
    assert_eq!(parse_number("000000000000000000000000000001"), Some(1));
    assert_eq!(parse_number(""), None);
    assert_eq!(parse_number("12a"), None);
    assert_eq!(parse_number("+5"), None);
    assert_eq!(parse_number("-5"), None);
    assert_eq!(parse_number("\u{0663}"), None);
}

#[test]
fn levels_fit_in_31_bits() {
    assert_eq!(parse_level("0"), Some(0));
    assert_eq!(parse_level("99"), Some(99));
    assert_eq!(parse_level("2147483647"), Some(i32::MAX));
    assert_eq!(parse_level("2147483648"), None);
    assert_eq!(parse_level("x"), None);
}

#[test]
fn groups_of_the_data_grammar_give_a_data_line() {
    let groups = vec![text("1 NAME John"), text("1"), text("NAME"), text("John")];
    assert_eq!(data_line(groups), data(1, "NAME", Some("John")));
    let groups = vec![text("0 HEAD"), text("0"), text("HEAD"), None];
    assert_eq!(data_line(groups), data(0, "HEAD", None));
}

#[test]
fn groups_that_do_not_fit_the_data_grammar_give_nothing() {
    assert_eq!(data_line(vec![]), None);
    assert_eq!(data_line(vec![text("x"), text("1"), text("NAME")]), None);
    assert_eq!(data_line(vec![text("x"), None, text("NAME"), None]), None);
    assert_eq!(data_line(vec![text("x"), text("1"), None, None]), None);
    assert_eq!(data_line(vec![text("x"), text("one"), text("NAME"), None]), None);
    assert_eq!(data_line(vec![text("x"), text("1"), text("NAME"), None, None]), None);
}

#[test]
fn groups_of_the_reference_grammar_give_a_reference_line() {
    let groups = vec![text("0 @I5@ INDI"), text("0"), text("I"), text("5"), text("INDI")];
    assert_eq!(ref_line(groups), reference(0, "I", 5, Some("INDI")));
    let groups = vec![text("0 @I5@"), text("0"), text("I"), text("5"), None];
    assert_eq!(ref_line(groups), reference(0, "I", 5, None));
}

#[test]
fn groups_that_do_not_fit_the_reference_grammar_give_nothing() {
    assert_eq!(ref_line(vec![]), None);
    assert_eq!(ref_line(vec![text("x"), text("0"), text("I"), text("5")]), None);
    assert_eq!(ref_line(vec![text("x"), None, text("I"), text("5"), None]), None);
    assert_eq!(ref_line(vec![text("x"), text("0"), None, text("5"), None]), None);
    assert_eq!(ref_line(vec![text("x"), text("0"), text("I"), None, None]), None);
    assert_eq!(ref_line(vec![text("x"), text("0"), text("I"), text("five"), None]), None);
    assert_eq!(
        ref_line(vec![text("x"), text("0"), text("I"), text("18446744073709551616"), None]),
        None
    );
}

#[test]
fn the_level_of_a_line() {
    assert_eq!(GedLine::Data(3, "NOTE".to_string(), None).level(), 3);
    assert_eq!(GedLine::Ref(0, "I".to_string(), 9, None).level(), 0);
    assert_eq!(GedLine::Data(-1, "NOTE".to_string(), None).level(), -1);
}

#[test]
fn the_patterns_of_the_two_grammars() {
    assert!(GedEx::regex_line().contains("(?P<Level>[0-9]{1,2}) +(?P<Tag>_?[A-Z]{3,5})"));
    assert!(GedEx::regex_ref().contains("@(?P<Type>[A-Z]+)(?P<Number>\\d+)@"));
}

#[test]
fn unparsed_lines_are_counted() {
    let lines: Vec<String> = vec![
        "0 HEAD".to_string(),
        "this is no line".to_string(),
        "0 @I1@ INDI".to_string(),
        "".to_string(),
        "1 NAME John".to_string(),
        "1 name john".to_string(),
    ];
    assert_eq!(GedEx::count_unparsed(&lines), 3);
    assert_eq!(GedEx::count_unparsed(&Vec::new()), 0);
    assert_eq!(GedEx::count_unparsed(&vec!["0 HEAD".to_string()]), 0);
}

#[test]
fn numbers_are_written_in_base_ten() {
    assert_eq!(to_decimal(0), "0");
    assert_eq!(to_decimal(7), "7");
    assert_eq!(to_decimal(10), "10");
    assert_eq!(to_decimal(1234567890), "1234567890");
    assert_eq!(to_decimal(u64::MAX), "18446744073709551615");
    assert_eq!(parse_number(&to_decimal(907)), Some(907));
}
