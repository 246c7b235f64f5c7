//! Writing a tree of units out as lines, and reading the lines back.

use vstd::prelude::*;
use crate::gedex::run;
use crate::laws::{lemma_run_concat, lemma_run_push};
use crate::line::Line;
use crate::number::decimal_text;
use crate::record::{lemma_type_code, records_of, type_code, Entity};
use crate::state::{closed, finish, finish_blocks, step, unit_of, Phase};
use crate::tag::{chain, fold_all, fold_from, nest_node, Node};

verus! {

/// Whether the name of a unit with an identifier ends with the digits of
/// the identifier, as the name of the unit of a reference line does.
pub open spec fn well_named(unit: Node) -> bool {
    unit.id matches Some(id) ==> unit.name == type_code(unit.name, id) + decimal_text(id as nat)
}

/// The line that opens `unit` at a level.
pub open spec fn line_of(unit: Node, level: int) -> Line {
    match unit.id {
        Some(id) => Line::Ref(level as i32, type_code(unit.name, id), id, unit.content),
        None => Line::Data(level as i32, unit.name, unit.content),
    }
}

/// The lines that write units at a level, each followed by the lines of
/// what is nested in it, one level deeper.
pub open spec fn flatten_all(units: Seq<Node>, level: int) -> Seq<Line>
    decreases units,
{
    if units.len() == 0 {
        Seq::empty()
    } else {
        flatten_all(units.drop_last(), level) + seq![line_of(units.last(), level)] + flatten_all(
            units.last().nested,
            level + 1,
        )
    }
}

/// The lines that write one unit at a level.
pub open spec fn flatten(unit: Node, level: int) -> Seq<Line> {
    seq![line_of(unit, level)] + flatten_all(unit.nested, level + 1)
}

/// Whether units written at a level, and all that is nested in them, stand
/// at levels that a line can carry and are named as lines name them.
pub open spec fn fits_all(units: Seq<Node>, level: int) -> bool
    decreases units,
{
    if units.len() == 0 {
        true
    } else {
        fits_all(units.drop_last(), level) && 0 <= level <= i32::MAX && well_named(units.last())
            && fits_all(units.last().nested, level + 1)
    }
}

/// `unit` with more units nested after those that it has.
pub open spec fn grown(unit: Node, more: Seq<Node>) -> Node {
    Node { nested: unit.nested + more, ..unit }
}

/// The lines that write a sequence of blocks, each from level 0.
pub open spec fn flatten_blocks(blocks: Seq<Node>) -> Seq<Line>
    decreases blocks.len(),
{
    if blocks.len() == 0 {
        Seq::empty()
    } else {
        flatten_blocks(blocks.drop_last()) + flatten(blocks.last(), 0)
    }
}

/// Whether a unit is the root of a header block.
pub open spec fn header_block(unit: Node) -> bool {
    unit.name == "HEAD"@ && unit.content is None && unit.id is None
}

/// Whether the machine is inside a block with the given closed blocks, and
/// its open units are `outer` followed by units that fold into `unit`.
pub open spec fn stands_at(phase: Phase, sequence: Seq<Node>, outer: Seq<Node>, unit: Node) -> bool {
    phase matches Phase::RecordTag { sequence: closed_blocks, stack } && closed_blocks == sequence
        && stack.len() > outer.len() && stack.take(outer.len() as int) == outer && chain(
        stack.skip(outer.len() as int),
    ) == unit
}

/// Reading the lines of nested units, one level below the innermost of the
/// units `outer`, nests them in order into the unit that is open there.
pub proof fn lemma_read_nested(
    sequence: Seq<Node>,
    outer: Seq<Node>,
    open: Seq<Node>,
    units: Seq<Node>,
    level: int,
)
    requires
        open.len() >= 1,
        level == outer.len() + 1,
        fits_all(units, level),
    ensures
        stands_at(
            run(Phase::RecordTag { sequence, stack: outer + open }, flatten_all(units, level)),
            sequence,
            outer,
            grown(chain(open), units),
        ),
    decreases units,
{
    let start = Phase::RecordTag { sequence, stack: outer + open };
    let depth = outer.len() as int;
    if units.len() == 0 {
        assert((outer + open).take(depth) =~= outer);
        assert((outer + open).skip(depth) =~= open);
        assert(chain(open).nested + units =~= chain(open).nested);
    } else {
        let first = units.drop_last();
        let last = units.last();
        lemma_read_nested(sequence, outer, open, first, level);
        let head = flatten_all(first, level);
        let line = line_of(last, level);
        let tail = flatten_all(last.nested, level + 1);
        let mid = run(start, head);
        let before = mid->RecordTag_stack;
        let parent = grown(chain(open), first);
        let bare = unit_of(line);
        // the line of the last unit folds what stands above its parent
        let after = outer.push(parent).push(bare);
        assert(step(mid, line) == Phase::RecordTag { sequence, stack: after }) by {
            if level == before.len() {
                assert(before.skip(depth).len() == 1);
                assert(before =~= before.take(depth).push(before.skip(depth)[0]));
            } else {
                assert(fold_from(before, level - 1) == before.take(depth).push(
                    chain(before.skip(depth)),
                ));
            }
        }
        assert(outer.push(parent) + seq![bare] =~= after);
        lemma_read_nested(sequence, outer.push(parent), seq![bare], last.nested, level + 1);
        let end = run(Phase::RecordTag { sequence, stack: after }, tail);
        let stack = end->RecordTag_stack;
        assert(chain(seq![bare]) == bare);
        assert(bare.nested + last.nested =~= last.nested);
        assert(grown(bare, last.nested) == last);
        assert(stack.take(depth) =~= outer) by {
            assert(stack.take(depth + 1) == outer.push(parent));
            assert(stack.take(depth) =~= stack.take(depth + 1).take(depth));
        }
        assert(chain(stack.skip(depth)) == grown(chain(open), units)) by {
            assert(stack.skip(depth).skip(1) =~= stack.skip(depth + 1));
            assert(stack.skip(depth)[0] == stack.take(depth + 1)[depth]);
            assert(parent.nested.push(last) =~= chain(open).nested + units);
        }
        // the lines are read one part after the other
        assert(flatten_all(units, level) == head + seq![line] + tail);
        lemma_run_concat(start, head + seq![line], tail);
        assert(head + seq![line] =~= head.push(line));
        lemma_run_push(start, head, line);
    }
}

/// Reading the lines of a block closes the block that was open and leaves
/// open the units that fold into the block that was written.
pub proof fn lemma_read_block(sequence: Seq<Node>, stack: Seq<Node>, unit: Node)
    requires
        stack.len() > 0,
        well_named(unit),
        fits_all(unit.nested, 1),
    ensures
        stands_at(
            run(Phase::RecordTag { sequence, stack }, flatten(unit, 0)),
            closed(sequence, stack),
            Seq::empty(),
            unit,
        ),
{
    let start = Phase::RecordTag { sequence, stack };
    let line = line_of(unit, 0);
    let bare = unit_of(line);
    let done = closed(sequence, stack);
    let tail = flatten_all(unit.nested, 1);
    assert(Seq::<Line>::empty().push(line) =~= seq![line]);
    lemma_run_push(start, Seq::empty(), line);
    lemma_run_concat(start, seq![line], tail);
    assert(Seq::<Node>::empty() + seq![bare] =~= seq![bare]);
    lemma_read_nested(done, Seq::empty(), seq![bare], unit.nested, 1);
    assert(bare.nested + unit.nested =~= unit.nested);
    assert(grown(chain(seq![bare]), unit.nested) == unit);
}

/// Writing a sequence of blocks out as lines and parsing the lines gives the
/// blocks back: the machine ends inside the last block, with the blocks
/// before it closed, and finalizing gives the records of all of them.
pub proof fn lemma_round_trip(blocks: Seq<Node>)
    requires
        blocks.len() > 0,
        header_block(blocks[0]),
        forall|i: int|
            0 <= i < blocks.len() ==> well_named(#[trigger] blocks[i]) && fits_all(
                blocks[i].nested,
                1,
            ),
    ensures
        stands_at(
            run(Phase::Initial, flatten_blocks(blocks)),
            blocks.drop_last(),
            Seq::empty(),
            blocks.last(),
        ),
        finish(run(Phase::Initial, flatten_blocks(blocks))) == finish_blocks(blocks),
    decreases blocks.len(),
{
    let last = blocks.last();
    let lines = flatten_blocks(blocks);
    if blocks.len() == 1 {
        let line = line_of(last, 0);
        let bare = unit_of(line);
        let tail = flatten_all(last.nested, 1);
        assert(flatten_blocks(blocks.drop_last()) =~= Seq::<Line>::empty());
        assert(lines =~= seq![line] + tail);
        assert(Seq::<Line>::empty().push(line) =~= seq![line]);
        lemma_run_push(Phase::Initial, Seq::empty(), line);
        lemma_run_concat(Phase::Initial, seq![line], tail);
        assert(Seq::<Node>::empty() + seq![bare] =~= seq![bare]);
        lemma_read_nested(Seq::empty(), Seq::empty(), seq![bare], last.nested, 1);
        assert(bare.nested + last.nested =~= last.nested);
        assert(grown(chain(seq![bare]), last.nested) == last);
        assert(blocks.drop_last() =~= Seq::<Node>::empty());
    } else {
        let before = blocks.drop_last();
        lemma_round_trip(before);
        let mid = run(Phase::Initial, flatten_blocks(before));
        let sequence = mid->RecordTag_sequence;
        let stack = mid->RecordTag_stack;
        assert(stack.skip(0) =~= stack);
        assert(closed(sequence, stack) =~= before);
        lemma_read_block(sequence, stack, last);
        lemma_run_concat(Phase::Initial, flatten_blocks(before), flatten(last, 0));
    }
    let end = run(Phase::Initial, lines);
    let stack = end->RecordTag_stack;
    assert(stack.skip(0) =~= stack);
    assert(fold_all(stack) == Some(last));
    assert(blocks.drop_last().push(last) =~= blocks);
}

/// Whether the open units stand at levels that a line can carry, with what
/// is nested in the unit at index `k` written from level `k + 1`.
pub open spec fn stack_fits(stack: Seq<Node>) -> bool {
    stack.len() - 1 <= i32::MAX && forall|k: int|
        0 <= k < stack.len() ==> well_named(#[trigger] stack[k]) && fits_all(stack[k].nested, k + 1)
}

/// Whether the machine is inside a block, the first block is a header
/// block, and every unit stands at a level that a line can carry.
pub open spec fn well_nested(phase: Phase) -> bool {
    phase matches Phase::RecordTag { sequence, stack } && stack.len() > 0 && stack_fits(stack) && (
    forall|i: int|
        0 <= i < sequence.len() ==> well_named(#[trigger] sequence[i]) && fits_all(
            sequence[i].nested,
            1,
        )) && header_block(closed(sequence, stack)[0])
}

/// One more unit at a level that a line can carry fits where the units
/// before it and what is nested in it fit.
pub proof fn lemma_fits_push(units: Seq<Node>, unit: Node, level: int)
    requires
        fits_all(units, level),
        0 <= level <= i32::MAX,
        well_named(unit),
        fits_all(unit.nested, level + 1),
    ensures
        fits_all(units.push(unit), level),
{
    assert(units.push(unit).drop_last() =~= units);
}

/// What the open units from index `from` on fold into fits at that index.
pub proof fn lemma_chain_fits(stack: Seq<Node>, from: int)
    requires
        stack_fits(stack),
        0 <= from < stack.len(),
    ensures
        well_named(chain(stack.skip(from))),
        fits_all(chain(stack.skip(from)).nested, from + 1),
    decreases stack.len() - from,
{
    let rest = stack.skip(from);
    assert(rest[0] == stack[from]);
    crate::laws::lemma_chain_root(rest);
    if rest.len() > 1 {
        lemma_chain_fits(stack, from + 1);
        assert(rest.skip(1) =~= stack.skip(from + 1));
        lemma_fits_push(stack[from].nested, chain(stack.skip(from + 1)), from + 1);
    }
}

/// The unit that a line opens is named as lines name them, and writing it
/// out gives a line that opens the same unit.
pub proof fn lemma_unit_well_named(line: Line)
    ensures
        well_named(unit_of(line)),
        unit_of(line_of(unit_of(line), line.level() as int)) == unit_of(line),
{
    match line {
        Line::Ref(_, rtype, id, _) => {
            lemma_type_code(rtype, id);
        },
        _ => {},
    }
}

/// A step from a well nested state leads to a well nested state or to the
/// invalid one.
pub proof fn lemma_step_well_nested(phase: Phase, line: Line)
    requires
        well_nested(phase),
    ensures
        step(phase, line) is Invalid || well_nested(step(phase, line)),
{
    let sequence = phase->RecordTag_sequence;
    let stack = phase->RecordTag_stack;
    let level = line.level() as int;
    let unit = unit_of(line);
    crate::laws::lemma_chain_root(stack);
    lemma_unit_well_named(line);
    if level < 0 || level > stack.len() {
    } else if level == 0 {
        assert(stack.skip(0) =~= stack);
        lemma_chain_fits(stack, 0);
        assert(chain(seq![unit]) == unit);
    } else if level == stack.len() {
        let next = stack.push(unit);
        crate::laws::lemma_chain_root(next);
    } else {
        let next = fold_from(stack, level - 1).push(unit);
        lemma_chain_fits(stack, level - 1);
        crate::laws::lemma_chain_root(stack.skip(level - 1));
        crate::laws::lemma_chain_root(next);
        assert(next[0].id == stack[0].id && next[0].name == stack[0].name && next[0].content
            == stack[0].content);
    }
}

/// Whenever the machine is inside a block after lines from the initial
/// state, it is well nested.
pub proof fn lemma_run_well_nested(lines: Seq<Line>)
    ensures
        run(Phase::Initial, lines) is RecordTag ==> well_nested(run(Phase::Initial, lines)),
    decreases lines.len(),
{
    if lines.len() > 0 {
        let before = run(Phase::Initial, lines.drop_last());
        lemma_run_well_nested(lines.drop_last());
        crate::laws::lemma_count_inside(lines.drop_last());
        if before is RecordTag {
            lemma_step_well_nested(before, lines.last());
        } else if before is Initial {
            let head = crate::tag::leaf("HEAD"@, None);
            assert(chain(seq![head]) == head);
        }
    }
}

/// Parsing a document, writing the blocks that it gave out as lines, and
/// parsing those lines gives the same blocks and the same records.
pub proof fn lemma_parse_round_trip(lines: Seq<Line>)
    requires
        run(Phase::Initial, lines) is RecordTag,
    ensures
        ({
            let parsed = run(Phase::Initial, lines);
            let blocks = closed(parsed->RecordTag_sequence, parsed->RecordTag_stack);
            let again = run(Phase::Initial, flatten_blocks(blocks));
            &&& again is RecordTag
            &&& closed(again->RecordTag_sequence, again->RecordTag_stack) == blocks
            &&& finish(again) == finish(parsed)
        }),
{
    lemma_run_well_nested(lines);
    let parsed = run(Phase::Initial, lines);
    let sequence = parsed->RecordTag_sequence;
    let stack = parsed->RecordTag_stack;
    let blocks = closed(sequence, stack);
    assert(stack.skip(0) =~= stack);
    lemma_chain_fits(stack, 0);
    lemma_round_trip(blocks);
    let again = run(Phase::Initial, flatten_blocks(blocks));
    let stack2 = again->RecordTag_stack;
    assert(stack2.skip(0) =~= stack2);
    assert(blocks.drop_last().push(blocks.last()) =~= blocks);
}

} // verus!
