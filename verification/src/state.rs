//! The state machine that consumes the recognized lines of a document.

use vstd::prelude::*;
use crate::error::ParseError;
use crate::line::{GedLine, Line};
use crate::number::{decimal_text, to_decimal};
use crate::record::{
    distinct, distinct_ids, duplicate_identifier, entities, records, records_of, same_text, Entity,
    Record,
};
use vstd::string::StringExecFns;
use crate::tag::{fold_all, fold_from, fold_stack, fold_stack_lvl, leaf, nodes, Node, Tag, TagStack};

verus! {

/// The mathematical value of a [`State`].
pub enum Phase {
    Initial,
    Reference { sequence: Seq<Node> },
    RecordTag { sequence: Seq<Node>, stack: Seq<Node> },
    Invalid,
}

/// Where the machine stands in a document.
#[derive(Debug)]
pub enum State {
    /// No header has been consumed yet.
    Initial,
    /// Between blocks: only a reference line at level 0 is accepted.
    /// `sequence` holds the closed blocks.
    Reference { sequence: Vec<Tag> },
    /// Inside a block. `sequence` holds the closed blocks, `stack` the open
    /// units of the current block, the outermost first.
    RecordTag { sequence: Vec<Tag>, stack: TagStack },
    /// The document is not valid. Nothing leads out of this state.
    Invalid,
}

impl View for State {
    type V = Phase;

    open spec fn view(&self) -> Phase {
        match *self {
            State::Initial => Phase::Initial,
            State::Reference { sequence } => Phase::Reference { sequence: nodes(sequence@) },
            State::RecordTag { sequence, stack } => Phase::RecordTag {
                sequence: nodes(sequence@),
                stack: nodes(stack@),
            },
            State::Invalid => Phase::Invalid,
        }
    }
}

/// Whether `line` is the header of a document: the data line `HEAD` at level
/// 0, without content.
pub open spec fn is_header(line: Line) -> bool {
    line == Line::Data(0, "HEAD"@, None)
}

/// The unit that a line opens. The unit of a data line has the tag as its
/// name. The unit of a reference line has as its name the type code
/// followed by the number in base ten, and the number as its identifier.
pub open spec fn unit_of(line: Line) -> Node {
    match line {
        Line::Data(_, tag, content) => leaf(tag, content),
        Line::Ref(_, rtype, id, content) => Node {
            name: rtype + decimal_text(id as nat),
            content,
            nested: Seq::empty(),
            id: Some(id),
        },
    }
}

/// The closed blocks after the open block, if there is one, has been folded
/// and closed.
pub open spec fn closed(sequence: Seq<Node>, stack: Seq<Node>) -> Seq<Node> {
    match fold_all(stack) {
        Some(block) => sequence.push(block),
        None => sequence,
    }
}

/// The step from the initial state: the header opens the first block,
/// anything else is invalid.
pub open spec fn step_initial(line: Line) -> Phase {
    if is_header(line) {
        Phase::RecordTag { sequence: Seq::empty(), stack: seq![leaf("HEAD"@, None)] }
    } else {
        Phase::Invalid
    }
}

/// The step between blocks: a reference line at level 0 opens a block,
/// anything else is invalid.
pub open spec fn step_reference(sequence: Seq<Node>, line: Line) -> Phase {
    if line is Ref && line.level() == 0 {
        Phase::RecordTag { sequence, stack: seq![unit_of(line)] }
    } else {
        Phase::Invalid
    }
}

/// The step inside a block, for a line at level `L` while the open units
/// stand at levels `0` to `stack.len() - 1`.
///
/// - `L` negative, or more than one above the deepest open level: invalid.
/// - `L` equal to 0: the block is folded and closed, and the line opens the
///   next block.
/// - `L` one above the deepest open level: the line's unit is pushed.
/// - otherwise the units at levels `L` and above are folded into the unit at
///   level `L - 1`, and the line's unit is pushed at level `L`.
pub open spec fn step_record(sequence: Seq<Node>, stack: Seq<Node>, line: Line) -> Phase {
    let level = line.level() as int;
    if level < 0 || level > stack.len() {
        Phase::Invalid
    } else if level == 0 {
        Phase::RecordTag { sequence: closed(sequence, stack), stack: seq![unit_of(line)] }
    } else if level == stack.len() {
        Phase::RecordTag { sequence, stack: stack.push(unit_of(line)) }
    } else {
        Phase::RecordTag { sequence, stack: fold_from(stack, level - 1).push(unit_of(line)) }
    }
}

/// The transition function of the machine.
pub open spec fn step(phase: Phase, line: Line) -> Phase {
    match phase {
        Phase::Initial => step_initial(line),
        Phase::Reference { sequence } => step_reference(sequence, line),
        Phase::RecordTag { sequence, stack } => step_record(sequence, stack, line),
        Phase::Invalid => Phase::Invalid,
    }
}

/// Whether the machine is in a successful state: inside a block, with at
/// least one block closed.
pub open spec fn succeeds(phase: Phase) -> bool {
    phase matches Phase::RecordTag { sequence, .. } && sequence.len() > 0
}

/// Whether finalizing succeeds: the machine is inside a block with an open
/// unit, and no two blocks give records with one identifier.
pub open spec fn finalizes(phase: Phase) -> bool {
    phase matches Phase::RecordTag { sequence, stack } && stack.len() > 0 && distinct_ids(
        records_of(closed(sequence, stack)),
    )
}

/// What closed blocks give: their records, or a failure where two of the
/// records have one identifier.
pub open spec fn finish_blocks(blocks: Seq<Node>) -> Result<Seq<Entity>, Seq<char>> {
    if distinct_ids(records_of(blocks)) {
        Ok(records_of(blocks))
    } else {
        Err(duplicate_identifier())
    }
}

/// The message of the failure to finalize a state that is not inside a
/// block.
pub open spec fn not_recognized() -> Seq<char> {
    "not recognized document"@
}

/// The message of the failure to finalize a block without open units.
pub open spec fn nothing_open() -> Seq<char> {
    "no open unit to fold"@
}

/// What finalizing gives: the records of all blocks, the open one closed
/// last, or the message of the failure.
pub open spec fn finish(phase: Phase) -> Result<Seq<Entity>, Seq<char>> {
    match phase {
        Phase::RecordTag { sequence, stack } => if stack.len() > 0 {
            finish_blocks(closed(sequence, stack))
        } else {
            Err(nothing_open())
        },
        _ => Err(not_recognized()),
    }
}

/// The mathematical value of the result of a parse.
pub open spec fn outcome(result: Result<Vec<Record>, ParseError>) -> Result<Seq<Entity>, Seq<char>>
    recommends
        result matches Err(e) ==> e is Runtime,
{
    match result {
        Ok(made) => Ok(entities(made@)),
        Err(e) => Err(e.message().unwrap()),
    }
}

/// Appending a unit appends its value.
pub proof fn lemma_nodes_push(tags: Seq<Tag>, tag: Tag)
    ensures
        nodes(tags.push(tag)) == nodes(tags).push(tag@),
{
    assert(nodes(tags.push(tag)) =~= nodes(tags).push(tag@));
}

/// The unit that a line opens.
pub fn open_unit(line: GedLine) -> (unit: Tag)
    ensures
        unit@ == unit_of(line@),
{
    let unit = match line {
        GedLine::Data(_, tag, content) => Tag { name: tag, content, nested: Vec::new(), id: None },
        GedLine::Ref(_, rtype, id, content) => Tag {
            name: State::concat(rtype.as_str(), to_decimal(id).as_str()),
            content,
            nested: Vec::new(),
            id: Some(id),
        },
    };
    proof {
        crate::tag::lemma_nested_view(unit);
        assert(unit@.nested =~= Seq::<Node>::empty());
    }
    unit
}

/// A stack that holds one unit.
fn single(unit: Tag) -> (stack: TagStack)
    ensures
        nodes(stack@) == seq![unit@],
{
    let mut stack: TagStack = Vec::new();
    stack.push(unit);
    assert(nodes(stack@) =~= seq![unit@]);
    stack
}

/// The closed blocks, with the open block folded and closed after them.
fn close(sequence: Vec<Tag>, stack: TagStack) -> (all: Vec<Tag>)
    ensures
        nodes(all@) == closed(nodes(sequence@), nodes(stack@)),
{
    let mut all = sequence;
    match fold_stack(stack) {
        Some(block) => {
            proof {
                lemma_nodes_push(all@, block);
            }
            all.push(block);
        },
        None => {},
    }
    all
}

impl Default for State {
    /// The initial state.
    fn default() -> (state: State)
        ensures
            state@ == Phase::Initial,
    {
        State::Initial
    }
}

impl State {
    /// The two texts, one after the other.
    pub fn concat(s1: &str, s2: &str) -> (joined: String)
        ensures
            joined@ == s1@ + s2@,
    {
        let mut joined = s1.to_owned();
        joined.append(s2);
        joined
    }

    /// The step from the initial state.
    pub fn advance_initial(self, data: GedLine) -> (next: State)
        ensures
            next@ == step_initial(data@),
    {
        match data {
            GedLine::Data(lvl, tag, content) => {
                if lvl != 0 || !same_text(tag.as_str(), "HEAD") || content.is_some() {
                    return State::Invalid;
                }
                let ntag = Tag::new("HEAD", None);
                let sequence: Vec<Tag> = Vec::new();
                assert(nodes(sequence@) =~= Seq::<Node>::empty());
                State::RecordTag { sequence, stack: single(ntag) }
            },
            _ => State::Invalid,
        }
    }

    /// The step between blocks.
    pub fn advance_ref(self, data: GedLine) -> (next: State)
        requires
            self is Reference,
        ensures
            next@ == step(self@, data@),
    {
        match self {
            State::Reference { sequence } => {
                let opens = match &data {
                    GedLine::Ref(level, _, _, _) => *level == 0,
                    _ => false,
                };
                if opens {
                    State::RecordTag { sequence, stack: single(open_unit(data)) }
                } else {
                    State::Invalid
                }
            },
            _ => State::Invalid,
        }
    }

    /// The step inside a block.
    pub fn advance_ref_or_tag(self, data: GedLine) -> (next: State)
        requires
            self is RecordTag,
        ensures
            next@ == step(self@, data@),
    {
        match self {
            State::RecordTag { sequence, stack } => {
                let level = data.level();
                if level < 0 {
                    return State::Invalid;
                }
                let level = level as usize;
                let mut stack = stack;
                if level > stack.len() {
                    State::Invalid
                } else if level == 0 {
                    let sequence = close(sequence, stack);
                    State::RecordTag { sequence, stack: single(open_unit(data)) }
                } else if level == stack.len() {
                    let unit = open_unit(data);
                    proof {
                        lemma_nodes_push(stack@, unit);
                    }
                    stack.push(unit);
                    State::RecordTag { sequence, stack }
                } else {
                    fold_stack_lvl(&mut stack, level - 1);
                    let unit = open_unit(data);
                    proof {
                        lemma_nodes_push(stack@, unit);
                    }
                    stack.push(unit);
                    State::RecordTag { sequence, stack }
                }
            },
            _ => State::Invalid,
        }
    }

    /// Consumes one line.
    pub fn next(self, line: GedLine) -> (next: State)
        ensures
            next@ == step(self@, line@),
    {
        match self {
            State::Initial => self.advance_initial(line),
            State::Reference { .. } => self.advance_ref(line),
            State::RecordTag { .. } => self.advance_ref_or_tag(line),
            State::Invalid => self,
        }
    }

    /// Whether the machine still consumes lines: every state but the invalid
    /// one does.
    pub fn can_advance(&self) -> (can: bool)
        ensures
            can == !(self@ is Invalid),
    {
        match self {
            State::Invalid => false,
            _ => true,
        }
    }

    /// Whether the machine is in a successful state: inside a block, with
    /// at least one block closed.
    pub fn successful(&self) -> (ok: bool)
        ensures
            ok == succeeds(self@),
    {
        match self {
            State::RecordTag { sequence, .. } => sequence.len() > 0,
            _ => false,
        }
    }

    /// Finalizes the machine at the end of the lines: closes the open block
    /// and gives the records of all blocks. It fails outside a block, without
    /// an open unit, and where two records have one identifier.
    pub fn fold(self) -> (result: Result<Vec<Record>, ParseError>)
        ensures
            result matches Err(e) ==> e is Runtime,
            outcome(result) == finish(self@),
            result is Ok <==> finalizes(self@),
            result matches Ok(made) ==> distinct_ids(entities(made@)),
    {
        match self {
            State::RecordTag { sequence, stack } => {
                if stack.len() == 0 {
                    Err(ParseError::Runtime("no open unit to fold".to_owned()))
                } else {
                    let made = records(close(sequence, stack));
                    if distinct(&made) {
                        Ok(made)
                    } else {
                        Err(ParseError::Runtime("duplicate identifier".to_owned()))
                    }
                }
            },
            _ => Err(ParseError::Runtime("not recognized document".to_owned())),
        }
    }
}

} // verus!
