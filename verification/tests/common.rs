use npaf::common::Error;
use npaf::error::ParseError;
use npaf::parser::{Buildable, Builder, GedParser, GedParserBuilder, Parser};
use npaf::gedex::GedEx;
use npaf::line::GedLine;
use npaf::reader::Bom;
use npaf::record::Record;
use npaf::state::State;
use npaf::tag::Tag;

#[test]
fn errors_describe_themselves() {
    assert_eq!(Error::NotImplemented.what(), "NotImplemented: method or function not implemented.");
    assert_eq!(Error::Unauthorized.what(), "Unauthorized: did not pass authentication.");
    assert_eq!(Error::NotFound.what(), "NotFound: could not found requested data.");
    assert_eq!(
        Error::ServiceNotBound("storage").what(),
        "ServiceNotBound: Could not perform operation because 'storage' is not bound."
    );
    assert_eq!(Error::BuilderError("no window").what(), "BuilderError: no window");
    assert_eq!(Error::AlreadySubmitted.what(), "Unknown: error type not described");
    assert_eq!(Error::InitializationError.what(), "Unknown: error type not described");
}

#[test]
fn a_failure_of_the_byte_source_becomes_a_parse_error() {
    let failure = std::io::Error::new(std::io::ErrorKind::UnexpectedEof, "truncated");
    match ParseError::from(failure) {
        ParseError::IO(inner) => assert_eq!(inner.kind(), std::io::ErrorKind::UnexpectedEof),
        _ => panic!("the failure of the byte source was expected"),
    }
}

#[test]
fn a_builder_builds_a_parser() {
    let builder: GedParserBuilder = GedParser::builder();
    let mut parser = builder.build();
    assert!(parser.dangling().is_empty());
    assert!(parser.parse(&b"0 HEAD\n".to_vec()).unwrap().is_empty());
    let mut parser = GedParserBuilder::default().build();
    assert!(parser.parse(&b"0 HEAD\n".to_vec()).is_ok());
}

#[test]
fn another_mark_than_that_of_utf8_is_an_encoding_failure() {
    let mut parser = GedParser::default();
    let result = parser.parse(&b"\xff\xfe0\x00 \x00H\x00".to_vec());
    assert!(matches!(result, Err(ParseError::Encoding(Bom::Utf16Le))));
    let result = parser.parse(&b"\x00\x00\xfe\xff".to_vec());
    assert!(matches!(result, Err(ParseError::Encoding(Bom::Utf32Be))));
}

#[test]
fn the_default_values() {
    assert!(matches!(State::default(), State::Initial));
    assert_eq!(GedEx::default().scan().read, 0);
    assert_eq!(Tag::default(), Tag::new("", None));
    let record = Record::default();
    assert_eq!(record.id, 0);
    assert_eq!(record.rtype, "");
    assert_eq!(record.name, "");
    assert_eq!(record.father, None);
    assert_eq!(record.mother, None);
    assert!(record.children.is_empty());
    assert!(record.tags.is_empty());
}

#[test]
fn copies_are_equal() {
    let mut tag = Tag::new("I1", Some("INDI")).nest(Tag::new("NAME", Some("John")).nest(Tag::new("GIVN", None)));
    tag.id = Some(1);
    assert_eq!(tag.clone(), tag);
    let line = GedLine::Ref(0, "I".to_string(), 1, None);
    assert_eq!(line.clone(), line);
    let record = Record::from_unit(tag).unwrap();
    assert_eq!(record.clone(), record);
}
