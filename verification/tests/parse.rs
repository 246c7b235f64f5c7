use npaf::error::ParseError;
use npaf::gedex::GedEx;
use npaf::parser::{GedParser, Parser};
use npaf::reader::{read_lines, Bom};
use npaf::state::State;
use npaf::record::Record;
use npaf::registry::{Link, Role};
use npaf::tag::Tag;

fn lines_of(text: &str) -> Vec<String> {
    read_lines(text.as_bytes()).1
}

fn parse(text: &str) -> Result<Vec<Record>, ParseError> {
    GedEx::new(lines_of(text)).parse()
}

fn message(result: Result<Vec<Record>, ParseError>) -> String {
    match result {
        Err(ParseError::Runtime(text)) => text,
        _ => panic!("a structural failure was expected"),
    }
}

/// Writes a unit and what is nested in it as lines, from the given level.
fn write_unit(unit: &Tag, level: usize, out: &mut String) {
    out.push_str(&level.to_string());
    out.push(' ');
    match unit.id {
        Some(_) => out.push_str(&format!("@{}@", unit.name)),
        None => out.push_str(&unit.name),
    }
    if let Some(content) = &unit.content {
        out.push(' ');
        out.push_str(content);
    }
    out.push('\n');
    for nested in &unit.nested {
        write_unit(nested, level + 1, out);
    }
}

/// Writes records as a document: a header, then one block for each record.
fn write_document(records: &[Record]) -> String {
    let mut out = String::from("0 HEAD\n");
    for record in records {
        out.push_str(&format!("0 @{}{}@\n", record.rtype, record.id));
        for unit in &record.tags {
            write_unit(unit, 1, &mut out);
        }
    }
    out
}

const FAMILY: &str = "0 HEAD\n0 @I1@ INDI\n1 NAME John\n0 @I2@ INDI\n1 NAME Mary\n1 FAMC @F1@\n";

#[test]
fn two_individuals_become_two_records() {
    let records = parse(FAMILY).unwrap();
    assert_eq!(records.len(), 2);
    assert_eq!(records[0].id, 1);
    assert_eq!(records[0].rtype, "I");
    assert_eq!(records[0].name, "John");
    assert_eq!(records[0].tags, vec![Tag::new("NAME", Some("John"))]);
    assert_eq!(records[1].id, 2);
    assert_eq!(records[1].name, "Mary");
    assert_eq!(records[1].tags, vec![Tag::new("NAME", Some("Mary")), Tag::new("FAMC", Some("@F1@"))]);
}

#[test]
fn two_individuals_fill_the_registry() {
    let mut parser = GedParser::default();
    let registry = parser.parse(&FAMILY.as_bytes().to_vec()).unwrap();
    assert_eq!(registry.len(), 2);
    assert_eq!(registry[&1].name, "John");
    assert_eq!(registry[&1].tags, vec![Tag::new("NAME", Some("John"))]);
    assert_eq!(registry[&2].name, "Mary");
    assert_eq!(registry[&2].tags[1], Tag::new("FAMC", Some("@F1@")));
    assert!(parser.dangling().is_empty());
}

#[test]
fn a_jump_of_two_levels_fails() {
    assert_eq!(message(parse("0 HEAD\n2 FOO\n")), "not recognized document");
    let mut parser = GedParser::default();
    assert!(matches!(parser.parse(&b"0 HEAD\n2 FOO\n".to_vec()), Err(ParseError::Runtime(_))));
}

#[test]
fn a_jump_after_valid_content_fails() {
    let text = "0 HEAD\n0 @I1@ INDI\n1 NAME John\n2 GIVN John\n0 @I2@ INDI\n2 NOTE x\n0 @I3@ INDI\n";
    assert_eq!(message(parse(text)), "not recognized document");
}

#[test]
fn a_header_alone_gives_no_record() {
    assert!(parse("0 HEAD\n").unwrap().is_empty());
    let mut parser = GedParser::default();
    assert!(parser.parse(&b"0 HEAD\n".to_vec()).unwrap().is_empty());
    assert!(parser.parse(&b"\xef\xbb\xbf0 HEAD".to_vec()).unwrap().is_empty());
}

#[test]
fn a_header_with_nested_units_gives_no_record() {
    assert!(parse("0 HEAD\n1 GEDC\n2 VERS 5.5\n1 CHAR UTF-8\n0 TRLR\n").unwrap().is_empty());
}

#[test]
fn a_missing_header_fails() {
    assert_eq!(message(parse("0 @I1@ INDI\n1 NAME John\n")), "not recognized document");
    assert_eq!(message(parse("1 HEAD\n")), "not recognized document");
    assert_eq!(message(parse("0 HEAD x\n0 @I1@ INDI\n")), "not recognized document");
}

#[test]
fn an_empty_document_fails() {
    assert_eq!(message(parse("")), "not recognized document");
    assert_eq!(message(parse("nothing here\n\n")), "not recognized document");
}

#[test]
fn there_is_one_record_for_each_reference_line_at_level_0() {
    let text = "0 HEAD\n1 SOUR x\n0 @I1@ INDI\n1 @N1@ NOTE\n0 @F2@ FAM\n0 @S3@ SOUR\n1 TITL t\n0 TRLR\n";
    let records = parse(text).unwrap();
    assert_eq!(records.len(), 3);
    assert_eq!(records.iter().map(|r| r.id).collect::<Vec<u64>>(), vec![1, 2, 3]);
    assert_eq!(records.iter().map(|r| r.rtype.as_str()).collect::<Vec<&str>>(), vec!["I", "F", "S"]);
    let mut parser = GedParser::default();
    assert_eq!(parser.parse(&text.as_bytes().to_vec()).unwrap().len(), 3);
}

#[test]
fn unparsed_lines_are_left_out_of_the_records() {
    let clean = "0 HEAD\n0 @I1@ INDI\n1 NAME John\n2 GIVN John\n1 SEX M\n";
    let noisy = "0 HEAD\nnoise\n0 @I1@ INDI\n\n1 NAME John\n?? what\n2 GIVN John\n1 sex m\n1 SEX M\n";
    assert_eq!(GedEx::count_unparsed(&lines_of(clean)), 0);
    assert_eq!(GedEx::count_unparsed(&lines_of(noisy)), 4);
    assert_eq!(parse(noisy).unwrap(), parse(clean).unwrap());
}

#[test]
fn the_levels_give_the_nesting() {
    let text = "0 HEAD\n0 @I1@ INDI\n1 NAME John /Smith/\n2 GIVN John\n2 SURN Smith\n1 BIRT\n2 DATE 1 JAN 1900\n3 NOTE about\n2 PLAC Paris\n1 SEX M\n";
    let records = parse(text).unwrap();
    assert_eq!(records.len(), 1);
    let name = Tag::new("NAME", Some("John /Smith/"))
        .nest(Tag::new("GIVN", Some("John")))
        .nest(Tag::new("SURN", Some("Smith")));
    let birth = Tag::new("BIRT", None)
        .nest(Tag::new("DATE", Some("1 JAN 1900")).nest(Tag::new("NOTE", Some("about"))))
        .nest(Tag::new("PLAC", Some("Paris")));
    assert_eq!(records[0].tags, vec![name, birth, Tag::new("SEX", Some("M"))]);
    assert_eq!(records[0].name, "John /Smith/");
}

#[test]
fn writing_the_records_out_and_parsing_again_gives_the_same_records() {
    let text = "0 HEAD\n1 SOUR x\n0 @I1@ INDI\n1 NAME John\n2 GIVN John\n3 NOTE n\n1 BIRT\n2 DATE 1900\n0 @F2@ FAM\n1 @N7@ NOTE\n2 CONT more\n1 CHIL @I1@\n";
    let first = parse(text).unwrap();
    let again = parse(&write_document(&first)).unwrap();
    assert_eq!(first.len(), 2);
    assert_eq!(first.iter().map(|r| &r.tags).collect::<Vec<_>>(), again.iter().map(|r| &r.tags).collect::<Vec<_>>());
    assert_eq!(first.iter().map(|r| r.id).collect::<Vec<_>>(), again.iter().map(|r| r.id).collect::<Vec<_>>());
    assert_eq!(first[1].tags[0].id, Some(7));
    assert_eq!(first[1].tags[0].name, "N7");
    assert_eq!(first[1].tags[0].nested, vec![Tag::new("CONT", Some("more"))]);
}

#[test]
fn relatives_are_resolved_in_the_registry() {
    let text = "0 HEAD\n0 @I3@ INDI\n1 NAME Child\n1 FATH @I1@\n1 MOTH @I2@\n0 @I1@ INDI\n1 NAME Father\n0 @I2@ INDI\n1 NAME Mother\n1 FATH @I9@\n0 TRLR\n";
    let mut parser = GedParser::default();
    let registry = parser.parse(&text.as_bytes().to_vec()).unwrap();
    assert_eq!(registry.len(), 3);
    assert_eq!(registry[&3].father, Some(1));
    assert_eq!(registry[&3].mother, Some(2));
    assert_eq!(registry[&1].children, vec![3]);
    assert_eq!(registry[&2].children, vec![3]);
    assert_eq!(registry[&2].father, None);
    assert_eq!(parser.dangling(), &vec![Link { from: 2, role: Role::Father, to: 9 }]);
}

#[test]
fn a_failed_parse_leaves_no_dangling_references() {
    let mut parser = GedParser::default();
    parser.parse(&b"0 HEAD\n0 @I1@ INDI\n1 FATH @I5@\n".to_vec()).unwrap();
    assert_eq!(parser.dangling().len(), 1);
    assert!(parser.parse(&b"no document\n".to_vec()).is_err());
    assert!(parser.dangling().is_empty());
}

#[test]
fn two_blocks_with_one_identifier_are_refused() {
    assert_eq!(message(parse("0 HEAD\n0 @I1@ INDI\n0 @F1@ FAM\n")), "duplicate identifier");
    let mut parser = GedParser::default();
    match parser.parse(&b"0 HEAD\n0 @I1@ INDI\n0 @F1@ FAM\n".to_vec()) {
        Err(ParseError::Runtime(message)) => assert_eq!(message, "duplicate identifier"),
        _ => panic!("a structural failure was expected"),
    }
}

#[test]
fn lines_with_carriage_returns_parse_alike() {
    let unix = parse("0 HEAD\n0 @I1@ INDI\n1 NAME John\n").unwrap();
    let dos = parse("0 HEAD\r\n0 @I1@ INDI\r\n1 NAME John\r\n").unwrap();
    assert_eq!(unix, dos);
}

#[test]
fn reading_stops_at_a_missing_header() {
    let document = GedEx::new(lines_of("junk\n\n0 @I1@ INDI\n1 NAME John\n0 @I2@ INDI\nmore junk\n"));
    let end = document.scan();
    assert!(matches!(end.state, State::Invalid));
    assert_eq!(end.read, 3);
    assert_eq!(end.skipped, 2);
}

#[test]
fn reading_stops_at_a_level_jump() {
    let document = GedEx::new(lines_of("0 HEAD\n0 @I1@ INDI\n3 NOTE x\n1 NAME John\n0 @I2@ INDI\n"));
    let end = document.scan();
    assert!(matches!(end.state, State::Invalid));
    assert_eq!(end.read, 3);
    assert_eq!(end.skipped, 0);
}

#[test]
fn a_valid_document_is_read_to_its_end() {
    let end = GedEx::new(lines_of(FAMILY)).scan();
    assert!(end.state.successful());
    assert!(!GedEx::new(lines_of("0 HEAD\n")).scan().state.successful());
    assert_eq!(end.read, 6);
    assert_eq!(end.skipped, 0);
    let end = GedEx::new(Vec::new()).scan();
    assert!(matches!(end.state, State::Initial));
    assert_eq!(end.read, 0);
    assert_eq!(end.skipped, 0);
}

#[test]
fn a_parser_counts_the_unrecognized_lines() {
    let mut parser = GedParser::default();
    assert_eq!(parser.unparsed(), 0);
    parser.parse(&b"0 HEAD\nnoise\n0 @I1@ INDI\n\n1 name x\n1 NAME John\n".to_vec()).unwrap();
    assert_eq!(parser.unparsed(), 3);
    assert!(parser.parse(&b"noise\n0 @I1@ INDI\n".to_vec()).is_err());
    assert_eq!(parser.unparsed(), 0);
}

#[test]
fn a_parser_reads_the_lines_of_its_source() {
    let (bom, lines) = GedParser::read_lines(b"\xef\xbb\xbf0 HEAD\r\n0 TRLR\r\n");
    assert_eq!(bom, Bom::Utf8);
    assert_eq!(lines, vec!["0 HEAD", "0 TRLR"]);
}
