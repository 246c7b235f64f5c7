//! The tokenizer and the parse of a list of lines.

use vstd::prelude::*;
use crate::error::ParseError;
use crate::line::{GedLine, Line};
use crate::number::{level_of, number_of, parse_level, parse_number};
use crate::pattern::{captures, group_texts, regex_captures};
use crate::record::{distinct_ids, entities, Entity, Record};
use crate::state::{finish, outcome, step, Phase, State};

verus! {

/// The grammar of a data line: a level of one or two digits, one space or
/// more, a tag of three to five capital letters with an optional underscore
/// before them, and an optional content that runs to the end of the line.
/// Spaces may stand after the tag.
pub open spec fn data_pattern() -> Seq<char> {
    "^(?P<Level>[0-9]{1,2}) +(?P<Tag>_?[A-Z]{3,5}) *(?P<Content>[^\\r\\n]+)*$"@
}

/// The grammar of a reference line: a level of one or two digits, one space
/// or more, between two `@` a type code of capital letters and a number, and
/// an optional content that runs to the end of the line.
pub open spec fn ref_pattern() -> Seq<char> {
    "^(?P<Level>[0-9]{1,2}) +@(?P<Type>[A-Z]+)(?P<Number>\\d+)@ *(?P<Content>[^\\r\\n]+)?$"@
}

/// The data line that the capture groups of the data grammar give: the
/// groups are the whole match, the level, the tag and the content.
pub open spec fn data_of(groups: Seq<Option<Seq<char>>>) -> Option<Line> {
    if groups.len() == 4 && groups[1] is Some && groups[2] is Some {
        match level_of(groups[1].unwrap()) {
            Some(level) => Some(Line::Data(level, groups[2].unwrap(), groups[3])),
            None => None,
        }
    } else {
        None
    }
}

/// The reference line that the capture groups of the reference grammar give:
/// the groups are the whole match, the level, the type code, the number and
/// the content. A number that does not fit in 64 bits gives no line.
pub open spec fn ref_of(groups: Seq<Option<Seq<char>>>) -> Option<Line> {
    if groups.len() == 5 && groups[1] is Some && groups[2] is Some && groups[3] is Some {
        match (level_of(groups[1].unwrap()), number_of(groups[3].unwrap())) {
            (Some(level), Some(id)) => Some(Line::Ref(level, groups[2].unwrap(), id, groups[4])),
            _ => None,
        }
    } else {
        None
    }
}

/// The line that the groups of a match give, if there was a match.
pub open spec fn data_match(found: Option<Seq<Option<Seq<char>>>>) -> Option<Line> {
    match found {
        Some(groups) => data_of(groups),
        None => None,
    }
}

/// The line that the groups of a match give, if there was a match.
pub open spec fn ref_match(found: Option<Seq<Option<Seq<char>>>>) -> Option<Line> {
    match found {
        Some(groups) => ref_of(groups),
        None => None,
    }
}

/// The recognized line that a text line gives: the data grammar is tried
/// first, then the reference grammar. `None` marks an unrecognized line.
pub open spec fn token_of(line: Seq<char>) -> Option<Line> {
    let data = data_match(regex_captures(data_pattern(), line));
    if data is Some {
        data
    } else {
        ref_match(regex_captures(ref_pattern(), line))
    }
}

/// The mathematical value of an optional line.
pub open spec fn token(line: Option<GedLine>) -> Option<Line> {
    match line {
        Some(l) => Some(l@),
        None => None,
    }
}

/// The texts of a list of strings.
pub open spec fn texts(lines: Seq<String>) -> Seq<Seq<char>> {
    lines.map_values(|line: String| line@)
}

/// The recognized lines of a document, in order.
pub open spec fn tokens(lines: Seq<Seq<char>>) -> Seq<Line>
    decreases lines.len(),
{
    if lines.len() == 0 {
        Seq::empty()
    } else {
        match token_of(lines.last()) {
            Some(line) => tokens(lines.drop_last()).push(line),
            None => tokens(lines.drop_last()),
        }
    }
}

/// The number of unrecognized lines of a document.
pub open spec fn unparsed(lines: Seq<Seq<char>>) -> nat
    decreases lines.len(),
{
    if lines.len() == 0 {
        0
    } else if token_of(lines.last()) is None {
        unparsed(lines.drop_last()) + 1
    } else {
        unparsed(lines.drop_last())
    }
}

/// The state of the machine after it has consumed `lines` from `phase`.
pub open spec fn run(phase: Phase, lines: Seq<Line>) -> Phase
    decreases lines.len(),
{
    if lines.len() == 0 {
        phase
    } else {
        step(run(phase, lines.drop_last()), lines.last())
    }
}

/// The number of lines of a document that the machine reads: a line is read
/// unless the machine is invalid before it, so reading stops with the line
/// that makes the machine invalid.
pub open spec fn examined(lines: Seq<Seq<char>>) -> nat
    decreases lines.len(),
{
    if lines.len() == 0 {
        0
    } else if run(Phase::Initial, tokens(lines.drop_last())) is Invalid {
        examined(lines.drop_last())
    } else {
        lines.len()
    }
}

/// What the parse of a document gives: the records of its blocks in
/// document order, or the message of the structural failure.
pub open spec fn parse_of(lines: Seq<Seq<char>>) -> Result<Seq<Entity>, Seq<char>> {
    finish(run(Phase::Initial, tokens(lines)))
}

/// No more lines are unrecognized than there are lines.
pub proof fn lemma_unparsed_bound(lines: Seq<Seq<char>>)
    ensures
        unparsed(lines) <= lines.len(),
    decreases lines.len(),
{
    if lines.len() > 0 {
        lemma_unparsed_bound(lines.drop_last());
    }
}

/// Once the machine is invalid after some of the lines of a document, it is
/// invalid after any more of them.
pub proof fn lemma_stays_invalid(lines: Seq<Seq<char>>, i: int, j: int)
    requires
        0 <= i <= j <= lines.len(),
        run(Phase::Initial, tokens(lines.take(i))) is Invalid,
    ensures
        run(Phase::Initial, tokens(lines.take(j))) is Invalid,
    decreases j - i,
{
    if i < j {
        lemma_stays_invalid(lines, i, j - 1);
        assert(lines.take(j).drop_last() =~= lines.take(j - 1));
        let before = tokens(lines.take(j - 1));
        match token_of(lines.take(j).last()) {
            Some(line) => {
                assert(before.push(line).drop_last() =~= before);
            },
            None => {},
        }
    }
}

/// Once the machine is invalid after some of the lines of a document, no
/// line after them is read.
pub proof fn lemma_reading_stops(lines: Seq<Seq<char>>, i: int, j: int)
    requires
        0 <= i <= j <= lines.len(),
        run(Phase::Initial, tokens(lines.take(i))) is Invalid,
    ensures
        examined(lines.take(j)) == examined(lines.take(i)),
    decreases j - i,
{
    if i < j {
        lemma_reading_stops(lines, i, j - 1);
        lemma_stays_invalid(lines, i, j - 1);
        assert(lines.take(j).drop_last() =~= lines.take(j - 1));
    }
}

/// The data line that the capture groups of the data grammar give.
pub fn data_line(groups: Vec<Option<String>>) -> (line: Option<GedLine>)
    ensures
        token(line) == data_of(group_texts(groups@)),
{
    let mut groups = groups;
    if groups.len() != 4 {
        return None;
    }
    let content = groups.pop().unwrap();
    let tag = groups.pop().unwrap();
    let level = groups.pop().unwrap();
    match (level, tag) {
        (Some(level), Some(tag)) => match parse_level(level.as_str()) {
            Some(level) => Some(GedLine::Data(level, tag, content)),
            None => None,
        },
        _ => None,
    }
}

/// The reference line that the capture groups of the reference grammar give.
pub fn ref_line(groups: Vec<Option<String>>) -> (line: Option<GedLine>)
    ensures
        token(line) == ref_of(group_texts(groups@)),
{
    let mut groups = groups;
    if groups.len() != 5 {
        return None;
    }
    let content = groups.pop().unwrap();
    let number = groups.pop().unwrap();
    let rtype = groups.pop().unwrap();
    let level = groups.pop().unwrap();
    match (level, rtype, number) {
        (Some(level), Some(rtype), Some(number)) => {
            match (parse_level(level.as_str()), parse_number(number.as_str())) {
                (Some(level), Some(id)) => Some(GedLine::Ref(level, rtype, id, content)),
                _ => None,
            }
        },
        _ => None,
    }
}

/// Where the machine is not invalid after the lines of a document, it has
/// read them all.
pub proof fn lemma_read_to_end(lines: Seq<Seq<char>>)
    requires
        !(run(Phase::Initial, tokens(lines)) is Invalid),
    ensures
        examined(lines) == lines.len(),
{
    if lines.len() > 0 && run(Phase::Initial, tokens(lines.drop_last())) is Invalid {
        lemma_stays_invalid_step(lines);
    }
}

/// Where the machine is invalid before the last line of a document, it is
/// invalid after it.
pub proof fn lemma_stays_invalid_step(lines: Seq<Seq<char>>)
    requires
        lines.len() > 0,
        run(Phase::Initial, tokens(lines.drop_last())) is Invalid,
    ensures
        run(Phase::Initial, tokens(lines)) is Invalid,
{
    let before = tokens(lines.drop_last());
    match token_of(lines.last()) {
        Some(line) => {
            assert(before.push(line).drop_last() =~= before);
        },
        None => {},
    }
}

/// What a run of the machine over a document gives.
pub struct Scan {
    /// The state of the machine at the end.
    pub state: State,
    /// The number of lines that were read.
    pub read: usize,
    /// The number of lines among those read that neither grammar
    /// recognizes.
    pub skipped: usize,
}

/// A document as a list of text lines, ready to be parsed.
pub struct GedEx {
    contents: Vec<String>,
}

impl View for GedEx {
    type V = Seq<Seq<char>>;

    closed spec fn view(&self) -> Seq<Seq<char>> {
        texts(self.contents@)
    }
}

impl Default for GedEx {
    /// A document without lines.
    fn default() -> (document: GedEx)
        ensures
            document@ == Seq::<Seq<char>>::empty(),
    {
        let contents: Vec<String> = Vec::new();
        assert(texts(contents@) =~= Seq::<Seq<char>>::empty());
        GedEx { contents }
    }
}

impl GedEx {
    /// A document of the given lines. The lines carry no line terminator.
    pub fn new(contents: Vec<String>) -> (document: GedEx)
        ensures
            document@ == texts(contents@),
    {
        GedEx { contents }
    }

    /// Runs the state machine over the recognized lines. The machine stops at
    /// the first line that makes it invalid.
    pub fn scan(&self) -> (end: Scan)
        ensures
            end.state@ == run(Phase::Initial, tokens(self@)),
            end.read == examined(self@),
            end.skipped == unparsed(self@.take(end.read as int)),
    {
        let mut state = State::Initial;
        let mut i: usize = 0;
        let mut skipped: usize = 0;
        let n = self.contents.len();
        let ghost lines = texts(self.contents@);
        assert(lines.take(0) =~= Seq::<Seq<char>>::empty());
        while i < n && state.can_advance()
            invariant
                i <= n,
                n == self.contents.len(),
                lines == texts(self.contents@),
                state@ == run(Phase::Initial, tokens(lines.take(i as int))),
                i == examined(lines.take(i as int)),
                skipped == unparsed(lines.take(i as int)),
            decreases n - i,
        {
            proof {
                assert(lines.take(i as int + 1).drop_last() =~= lines.take(i as int));
                assert(lines.take(i as int + 1).last() == self.contents@[i as int]@);
                lemma_unparsed_bound(lines.take(i as int));
            }
            let ghost before = tokens(lines.take(i as int));
            match Self::parse_line(self.contents[i].as_str()) {
                Some(line) => {
                    assert(before.push(line@).drop_last() =~= before);
                    state = state.next(line);
                },
                None => {
                    skipped = skipped + 1;
                },
            }
            i = i + 1;
        }
        proof {
            if i < n {
                lemma_stays_invalid(lines, i as int, n as int);
                lemma_reading_stops(lines, i as int, n as int);
            }
            assert(lines.take(n as int) =~= lines);
        }
        Scan { state, read: i, skipped }
    }

    /// Runs the state machine over the recognized lines and finalizes it.
    pub fn parse(self) -> (result: Result<Vec<Record>, ParseError>)
        ensures
            result matches Err(e) ==> e is Runtime,
            outcome(result) == parse_of(self@),
            result matches Ok(made) ==> distinct_ids(entities(made@)),
    {
        self.scan().state.fold()
    }

    /// Counts the lines that neither grammar recognizes: those that the
    /// parse passes over.
    pub fn count_unparsed(contents: &Vec<String>) -> (count: usize)
        ensures
            count == unparsed(texts(contents@)),
            count <= contents.len(),
    {
        let mut count: usize = 0;
        let mut i: usize = 0;
        let ghost lines = texts(contents@);
        assert(lines.take(0) =~= Seq::<Seq<char>>::empty());
        while i < contents.len()
            invariant
                i <= contents.len(),
                lines == texts(contents@),
                count == unparsed(lines.take(i as int)),
            decreases contents.len() - i,
        {
            proof {
                assert(lines.take(i as int + 1).drop_last() =~= lines.take(i as int));
                assert(lines.take(i as int + 1).last() == contents@[i as int]@);
                lemma_unparsed_bound(lines.take(i as int));
            }
            if Self::parse_line(contents[i].as_str()).is_none() {
                count = count + 1;
            }
            i = i + 1;
        }
        assert(lines.take(contents.len() as int) =~= lines);
        proof {
            lemma_unparsed_bound(lines);
        }
        count
    }

    /// Reads one text line: the data grammar is tried first, then the
    /// reference grammar.
    pub fn parse_line(line: &str) -> (parsed: Option<GedLine>)
        ensures
            token(parsed) == token_of(line@),
    {
        let data = match captures(Self::regex_line(), line) {
            Some(groups) => data_line(groups),
            None => None,
        };
        if data.is_some() {
            data
        } else {
            match captures(Self::regex_ref(), line) {
                Some(groups) => ref_line(groups),
                None => None,
            }
        }
    }

    /// The regular expression of the data grammar.
    pub fn regex_line() -> (pattern: &'static str)
        ensures
            pattern@ == data_pattern(),
    {
        "^(?P<Level>[0-9]{1,2}) +(?P<Tag>_?[A-Z]{3,5}) *(?P<Content>[^\\r\\n]+)*$"
    }

    /// The regular expression of the reference grammar.
    pub fn regex_ref() -> (pattern: &'static str)
        ensures
            pattern@ == ref_pattern(),
    {
        "^(?P<Level>[0-9]{1,2}) +@(?P<Type>[A-Z]+)(?P<Number>\\d+)@ *(?P<Content>[^\\r\\n]+)?$"
    }
}

} // verus!
