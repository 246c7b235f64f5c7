//! The parser of a whole document, from its bytes to its registry.

use vstd::prelude::*;
use crate::error::{Failure, ParseError};
use crate::gedex::{lemma_read_to_end, parse_of, texts, unparsed, GedEx};
use crate::reader::{body, bom_of, read_lines, text_lines, Bom};
use crate::registry::{link, resolution, resolve, Link, RecordRegistry, Resolution};

verus! {

/// What a parse gives: the registry, or the failure that ended the parse.
pub type ParseResult = Result<RecordRegistry, ParseError>;

/// Whether a document with this byte-order mark is read: one without a
/// mark, or with the mark of UTF-8.
pub open spec fn readable(bom: Bom) -> bool {
    bom == Bom::Null || bom == Bom::Utf8
}

/// What the parse of the bytes of a document gives.
///
/// - A byte-order mark other than that of UTF-8 is an encoding failure.
/// - The lines after the mark are parsed; a structural failure there is the
///   failure of the whole.
/// - Two records with one identifier are a structural failure of that
///   parse.
/// - Otherwise the result is the registry with the references to relatives
///   resolved, and the references that were left unresolved: those that
///   name no record, and those that would make a record its own ancestor.
pub open spec fn load(bytes: Seq<u8>) -> Result<Resolution, Failure> {
    if !readable(bom_of(bytes)) {
        Err(Failure::Encoding(bom_of(bytes)))
    } else {
        match parse_of(text_lines(body(bytes))) {
            Err(message) => Err(Failure::Runtime(message)),
            Ok(records) => Ok(resolve(records)),
        }
    }
}

/// The mathematical value of the result of a parse, with the unresolved
/// references that the parser holds after it.
pub open spec fn loaded(result: ParseResult, dangling: Seq<Link>) -> Result<Resolution, Failure> {
    match result {
        Ok(registry) => Ok(resolution(registry@, dangling)),
        Err(e) => Err(e@),
    }
}

/// The number of unrecognized lines that a parser holds after a parse: that
/// of the document where the parse succeeded, zero where it failed.
pub open spec fn noticed(result: ParseResult, bytes: Seq<u8>) -> nat {
    if result is Ok {
        unparsed(text_lines(body(bytes)))
    } else {
        0
    }
}

/// Anything that parses a source into a registry.
pub trait Parser {
    /// The source that is parsed.
    type FileType;

    /// Detects the byte-order mark of a document and splits what follows it
    /// into text lines.
    fn read_lines(file: &[u8]) -> (read: (Bom, Vec<String>))
        ensures
            read.0 == bom_of(file@),
            texts(read.1@) == text_lines(body(file@)),
    {
        read_lines(file)
    }

    /// Parses `file` into a registry.
    fn parse(&mut self, file: &Self::FileType) -> ParseResult;
}

/// A type that comes with a builder.
pub trait Buildable {
    type BuilderType: Default;

    /// A builder in its default state: what `default` of the builder type
    /// gives, with all that `default` promises of it.
    fn builder() -> (builder: Self::BuilderType)
        ensures
            call_ensures(<Self::BuilderType as Default>::default, (), builder),
    {
        Default::default()
    }
}

/// A builder of a buildable type.
pub trait Builder {
    type BuildableType: Buildable;

    /// The value that was built.
    fn build(self) -> Self::BuildableType;
}

/// The parser of documents. After a parse it holds what was noticed in
/// that document without ending the parse: the references that were left
/// unresolved, and the number of lines that were not recognized.
pub struct GedParser {
    dangling: Vec<Link>,
    unparsed: usize,
}

impl GedParser {
    /// The references of the last parse that were left unresolved, in the
    /// order in which the records that make them stand in the document, a
    /// father before a mother: those that name no record of the document,
    /// and those that would make a record its own ancestor. Empty before
    /// the first parse and after a failed one.
    pub closed spec fn dangling_links(&self) -> Seq<Link> {
        self.dangling@
    }

    /// The references of the last parse that were left unresolved.
    pub fn dangling(&self) -> (links: &Vec<Link>)
        ensures
            links@ == self.dangling_links(),
    {
        &self.dangling
    }

    /// The number of lines of the last parse that neither grammar
    /// recognized. Zero before the first parse and after a failed one.
    pub closed spec fn unparsed_lines(&self) -> nat {
        self.unparsed as nat
    }

    /// The number of unrecognized lines of the last parse.
    pub fn unparsed(&self) -> (count: usize)
        ensures
            count == self.unparsed_lines(),
    {
        self.unparsed
    }

    /// Reads the lines of the document, parses them into records, and
    /// builds the registry.
    fn classic_parse(&mut self, file: &Vec<u8>) -> (result: ParseResult)
        ensures
            loaded(result, final(self).dangling_links()) == load(file@),
            final(self).unparsed_lines() == noticed(result, file@),
            result is Err ==> final(self).dangling_links().len() == 0,
    {
        self.dangling = Vec::new();
        self.unparsed = 0;
        let (bom, lines) = Self::read_lines(file.as_slice());
        match bom {
            Bom::Null | Bom::Utf8 => {},
            _ => {
                return Err(ParseError::Encoding(bom));
            },
        }
        let ghost texts = text_lines(body(file@));
        let end = GedEx::new(lines).scan();
        let records = match end.state.fold() {
            Ok(records) => records,
            Err(e) => {
                return Err(e);
            },
        };
        proof {
            lemma_read_to_end(texts);
            assert(texts.take(texts.len() as int) =~= texts);
        }
        match link(records) {
            Ok((registry, dangling)) => {
                self.dangling = dangling;
                self.unparsed = end.skipped;
                Ok(registry)
            },
            Err(e) => Err(e),
        }
    }
}

impl Default for GedParser {
    fn default() -> (parser: GedParser)
        ensures
            parser.dangling_links().len() == 0,
            parser.unparsed_lines() == 0,
    {
        GedParser { dangling: Vec::new(), unparsed: 0 }
    }
}

impl Buildable for GedParser {
    type BuilderType = GedParserBuilder;
}

impl Parser for GedParser {
    type FileType = Vec<u8>;

    fn parse(&mut self, file: &Vec<u8>) -> (result: ParseResult)
        ensures
            loaded(result, final(self).dangling_links()) == load(file@),
            final(self).unparsed_lines() == noticed(result, file@),
            result is Err ==> final(self).dangling_links().len() == 0,
    {
        self.classic_parse(file)
    }
}

/// The builder of a [`GedParser`].
pub struct GedParserBuilder {
    construct: Box<GedParser>,
}

impl GedParserBuilder {
    /// The parser under construction.
    pub closed spec fn parser(&self) -> GedParser {
        *self.construct
    }
}

impl Default for GedParserBuilder {
    fn default() -> (builder: GedParserBuilder)
        ensures
            builder.parser().dangling_links().len() == 0,
            builder.parser().unparsed_lines() == 0,
    {
        GedParserBuilder { construct: Box::new(GedParser::default()) }
    }
}

impl Builder for GedParserBuilder {
    type BuildableType = GedParser;

    fn build(self) -> (parser: GedParser)
        ensures
            parser == self.parser(),
    {
        *self.construct
    }
}

} // verus!
