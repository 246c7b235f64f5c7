//! What holds of every document: laws of the tokenizer, the state machine
//! and the registry, each proved from their definitions.

use vstd::prelude::*;
use crate::error::Failure;
use crate::gedex::{examined, parse_of, run, token_of, tokens, unparsed};
use crate::parser::{load, readable};
use crate::reader::{body, bom_of, text_lines};
use crate::ancestry::acyclic;
use crate::kinship::{kids_in, kin, parent_in, resolved};
use crate::record::distinct_ids;
use crate::registry::{enter_all, resolve, Link, Resolution, Role};
use crate::line::Line;
use crate::record::{records_of, type_code, Entity};
use crate::state::{
    closed, finish, is_header, not_recognized, step, succeeds, unit_of, Phase,
};
use crate::tag::{chain, fold_all, fold_from, Node};

verus! {

/// Whether a line opens a reference block: a reference line at level 0.
pub open spec fn opens_record(line: Line) -> bool {
    line is Ref && line.level() == 0
}

/// The number of lines that open a reference block.
pub open spec fn opened(lines: Seq<Line>) -> nat
    decreases lines.len(),
{
    if lines.len() == 0 {
        0
    } else if opens_record(lines.last()) {
        opened(lines.drop_last()) + 1
    } else {
        opened(lines.drop_last())
    }
}

/// Consuming one more line is one more step.
pub proof fn lemma_run_push(phase: Phase, lines: Seq<Line>, line: Line)
    ensures
        run(phase, lines.push(line)) == step(run(phase, lines), line),
{
    assert(lines.push(line).drop_last() =~= lines);
}

/// Consuming two runs of lines one after the other is consuming them as one.
pub proof fn lemma_run_concat(phase: Phase, first: Seq<Line>, second: Seq<Line>)
    ensures
        run(phase, first + second) == run(run(phase, first), second),
    decreases second.len(),
{
    if second.len() == 0 {
        assert(first + second =~= first);
    } else {
        assert((first + second).drop_last() =~= first + second.drop_last());
        lemma_run_concat(phase, first, second.drop_last());
    }
}

/// The invalid state is final: whatever lines follow, the machine stays
/// invalid.
pub proof fn lemma_invalid_is_final(lines: Seq<Line>)
    ensures
        run(Phase::Invalid, lines) is Invalid,
    decreases lines.len(),
{
    if lines.len() > 0 {
        lemma_invalid_is_final(lines.drop_last());
    }
}

/// Once the machine is invalid after a beginning of the lines, it is invalid
/// after all of them.
pub proof fn lemma_invalid_prefix(phase: Phase, lines: Seq<Line>, n: int)
    requires
        0 <= n <= lines.len(),
        run(phase, lines.take(n)) is Invalid,
    ensures
        run(phase, lines) is Invalid,
{
    assert(lines.take(n) + lines.skip(n) =~= lines);
    lemma_run_concat(phase, lines.take(n), lines.skip(n));
    lemma_invalid_is_final(lines.skip(n));
}

/// Folding a stack keeps the name, the content and the identifier of its
/// outermost unit.
pub proof fn lemma_chain_root(stack: Seq<Node>)
    requires
        stack.len() > 0,
    ensures
        chain(stack).id == stack[0].id,
        chain(stack).name == stack[0].name,
        chain(stack).content == stack[0].content,
{
}

/// After one line or more, the machine is invalid or inside a block whose
/// deepest open unit stands at the level of the last line.
pub proof fn lemma_depth_after(lines: Seq<Line>)
    requires
        lines.len() > 0,
    ensures
        run(Phase::Initial, lines) is Invalid || (run(Phase::Initial, lines) matches Phase::RecordTag {
            stack,
            ..
        } && stack.len() == lines.last().level() + 1),
    decreases lines.len(),
{
    if lines.len() > 1 {
        lemma_depth_after(lines.drop_last());
    }
}

/// A level that is more than one above the level of the line before it
/// makes the machine invalid, whatever stands before and after, and the
/// parse fails.
pub proof fn lemma_level_jump(lines: Seq<Line>, i: int)
    requires
        0 <= i,
        i + 1 < lines.len(),
        lines[i + 1].level() > lines[i].level() + 1,
    ensures
        run(Phase::Initial, lines) is Invalid,
        finish(run(Phase::Initial, lines)) == Err::<Seq<Entity>, Seq<char>>(not_recognized()),
{
    let before = lines.take(i + 1);
    lemma_depth_after(before);
    assert(lines.take(i + 2) =~= before.push(lines[i + 1]));
    lemma_run_push(Phase::Initial, before, lines[i + 1]);
    lemma_invalid_prefix(Phase::Initial, lines, i + 2);
}

/// A document whose first recognized line is not the header, or that has no
/// recognized line, makes the machine invalid at that line, and the parse
/// fails as not recognized whatever follows.
pub proof fn lemma_missing_header(lines: Seq<Line>)
    requires
        lines.len() == 0 || !is_header(lines[0]),
    ensures
        !succeeds(run(Phase::Initial, lines)),
        lines.len() > 0 ==> run(Phase::Initial, lines.take(1)) is Invalid,
        finish(run(Phase::Initial, lines)) == Err::<Seq<Entity>, Seq<char>>(not_recognized()),
{
    if lines.len() > 0 {
        assert(lines.take(1) =~= Seq::<Line>::empty().push(lines[0]));
        lemma_run_push(Phase::Initial, Seq::empty(), lines[0]);
        lemma_invalid_prefix(Phase::Initial, lines, 1);
    }
}

/// Where the first recognized line of a document is not the header, the
/// machine reads up to that line and no further.
pub proof fn lemma_missing_header_stops(lines: Seq<Seq<char>>, first: int)
    requires
        0 <= first < lines.len(),
        forall|j: int| 0 <= j < first ==> token_of(#[trigger] lines[j]) is None,
        token_of(lines[first]) matches Some(line) && !is_header(line),
    ensures
        examined(lines) == first + 1,
        parse_of(lines) == Err::<Seq<Entity>, Seq<char>>(not_recognized()),
{
    lemma_only_unparsed(lines, first);
    let line = token_of(lines[first]).unwrap();
    let upto = lines.take(first + 1);
    assert(upto.drop_last() =~= lines.take(first));
    assert(upto.last() == lines[first]);
    assert(tokens(upto) =~= Seq::<Line>::empty().push(line));
    lemma_run_push(Phase::Initial, Seq::empty(), line);
    assert(examined(upto) == first + 1);
    crate::gedex::lemma_reading_stops(lines, first + 1, lines.len() as int);
    crate::gedex::lemma_stays_invalid(lines, first + 1, lines.len() as int);
    assert(lines.take(lines.len() as int) =~= lines);
}

/// Lines of which none is recognized give no recognized line.
pub proof fn lemma_only_unparsed(lines: Seq<Seq<char>>, n: int)
    requires
        0 <= n <= lines.len(),
        forall|j: int| 0 <= j < n ==> token_of(#[trigger] lines[j]) is None,
    ensures
        tokens(lines.take(n)) == Seq::<Line>::empty(),
    decreases n,
{
    if n > 0 {
        lemma_only_unparsed(lines, n - 1);
        assert(lines.take(n).drop_last() =~= lines.take(n - 1));
        assert(lines.take(n).last() == lines[n - 1]);
    }
}

/// A document whose only recognized line is the header parses, and gives no
/// record.
pub proof fn lemma_header_only(lines: Seq<Line>)
    requires
        lines.len() == 1,
        is_header(lines[0]),
    ensures
        finish(run(Phase::Initial, lines)) == Ok::<Seq<Entity>, Seq<char>>(Seq::empty()),
{
    assert(lines =~= Seq::<Line>::empty().push(lines[0]));
    lemma_run_push(Phase::Initial, Seq::empty(), lines[0]);
    let head = crate::tag::leaf("HEAD"@, None);
    let blocks = closed(Seq::empty(), seq![head]);
    assert(blocks =~= Seq::<Node>::empty().push(head));
    lemma_records_push(Seq::empty(), head);
    assert(records_of(blocks) =~= Seq::<Entity>::empty());
}

/// One more closed block is one more record where a reference line opened
/// the block, and no more record where a data line did.
pub proof fn lemma_records_push(blocks: Seq<Node>, block: Node)
    ensures
        records_of(blocks.push(block)).len() == records_of(blocks).len() + if block.id is Some {
            1int
        } else {
            0int
        },
{
    assert(blocks.push(block).drop_last() =~= blocks);
}

/// While the machine is inside a block, the blocks closed so far and the
/// open one give as many records as lines have opened a reference block.
pub proof fn lemma_count_inside(lines: Seq<Line>)
    ensures
        match run(Phase::Initial, lines) {
            Phase::Initial => lines.len() == 0,
            Phase::Reference { .. } => false,
            Phase::RecordTag { sequence, stack } => stack.len() > 0 && records_of(
                closed(sequence, stack),
            ).len() == opened(lines),
            Phase::Invalid => true,
        },
    decreases lines.len(),
{
    if lines.len() > 0 {
        let before = lines.drop_last();
        let line = lines.last();
        lemma_count_inside(before);
        let after = run(Phase::Initial, lines);
        assert(after == step(run(Phase::Initial, before), line));
        match run(Phase::Initial, before) {
            Phase::Initial => {
                if is_header(line) {
                    let head = crate::tag::leaf("HEAD"@, None);
                    assert(closed(Seq::empty(), seq![head]) =~= Seq::<Node>::empty().push(head));
                    lemma_records_push(Seq::empty(), head);
                    assert(records_of(Seq::<Node>::empty()).len() == 0);
                    assert(opened(before) == 0);
                }
            },
            Phase::RecordTag { sequence, stack } => {
                let level = line.level() as int;
                let unit = unit_of(line);
                lemma_chain_root(stack);
                lemma_records_push(sequence, chain(stack));
                assert(closed(sequence, stack) == sequence.push(chain(stack)));
                if level < 0 || level > stack.len() {
                } else if level == 0 {
                    let done = closed(sequence, stack);
                    assert(chain(seq![unit]) == unit);
                    assert(closed(done, seq![unit]) == done.push(unit));
                    lemma_records_push(done, unit);
                    assert(after == Phase::RecordTag { sequence: done, stack: seq![unit] });
                } else if level == stack.len() {
                    let next = stack.push(unit);
                    lemma_chain_root(next);
                    lemma_records_push(sequence, chain(next));
                    assert(closed(sequence, next) == sequence.push(chain(next)));
                    assert(after == Phase::RecordTag { sequence, stack: next });
                } else {
                    let folded = fold_from(stack, level - 1);
                    let next = folded.push(unit);
                    lemma_chain_root(stack.skip(level - 1));
                    assert(folded[0].id == stack[0].id);
                    lemma_chain_root(next);
                    lemma_records_push(sequence, chain(next));
                    assert(closed(sequence, next) == sequence.push(chain(next)));
                    assert(after == Phase::RecordTag { sequence, stack: next });
                }
            },
            _ => {},
        }
    }
}

/// The type code and the number of a line that opens a reference block.
pub open spec fn head_of(line: Line) -> Option<(Seq<char>, u64)> {
    match line {
        Line::Ref(level, rtype, id, _) => if level == 0 {
            Some((rtype, id))
        } else {
            None
        },
        _ => None,
    }
}

/// The type codes and numbers of the lines that open a reference block, in
/// the order of the lines.
pub open spec fn heads(lines: Seq<Line>) -> Seq<(Seq<char>, u64)>
    decreases lines.len(),
{
    if lines.len() == 0 {
        Seq::empty()
    } else {
        match head_of(lines.last()) {
            Some(head) => heads(lines.drop_last()).push(head),
            None => heads(lines.drop_last()),
        }
    }
}

/// The type and the identifier of each record, in order.
pub open spec fn keys_of(records: Seq<Entity>) -> Seq<(Seq<char>, u64)> {
    records.map_values(|e: Entity| (e.rtype, e.id))
}

/// The type code and the number in the root of a block, where a reference
/// line opened it.
pub open spec fn key_of(block: Node) -> Option<(Seq<char>, u64)> {
    match block.id {
        Some(id) => Some((type_code(block.name, id), id)),
        None => None,
    }
}

/// One more closed block gives one more record with the type code and the
/// number in its root, where a reference line opened it.
pub proof fn lemma_keys_push(blocks: Seq<Node>, block: Node)
    ensures
        keys_of(records_of(blocks.push(block))) == (match key_of(block) {
            Some(key) => keys_of(records_of(blocks)).push(key),
            None => keys_of(records_of(blocks)),
        }),
{
    assert(blocks.push(block).drop_last() =~= blocks);
    if let Some(key) = key_of(block) {
        assert(keys_of(records_of(blocks.push(block))) =~= keys_of(records_of(blocks)).push(key));
    }
}

/// While the machine is inside a block, the records of the blocks closed
/// so far and of the open one have the type codes and the numbers of the
/// lines that opened a reference block, in their order.
pub proof fn lemma_heads_inside(lines: Seq<Line>)
    ensures
        run(Phase::Initial, lines) matches Phase::RecordTag { sequence, stack } ==> keys_of(
            records_of(closed(sequence, stack)),
        ) == heads(lines),
    decreases lines.len(),
{
    if lines.len() > 0 {
        let before = lines.drop_last();
        let line = lines.last();
        lemma_heads_inside(before);
        lemma_count_inside(before);
        let after = run(Phase::Initial, lines);
        assert(after == step(run(Phase::Initial, before), line));
        match run(Phase::Initial, before) {
            Phase::Initial => {
                if is_header(line) {
                    let head = crate::tag::leaf("HEAD"@, None);
                    assert(closed(Seq::empty(), seq![head]) =~= Seq::<Node>::empty().push(head));
                    lemma_keys_push(Seq::empty(), head);
                    assert(keys_of(records_of(Seq::<Node>::empty())) =~= Seq::empty());
                    assert(before =~= Seq::<Line>::empty());
                    assert(key_of(head) is None);
                    assert(head_of(line) is None);
                    assert(heads(before) =~= Seq::empty());
                }
            },
            Phase::RecordTag { sequence, stack } => {
                let level = line.level() as int;
                let unit = unit_of(line);
                lemma_chain_root(stack);
                lemma_keys_push(sequence, chain(stack));
                assert(closed(sequence, stack) == sequence.push(chain(stack)));
                if level < 0 || level > stack.len() {
                } else if level == 0 {
                    let done = closed(sequence, stack);
                    assert(chain(seq![unit]) == unit);
                    assert(closed(done, seq![unit]) == done.push(unit));
                    lemma_keys_push(done, unit);
                    if let Line::Ref(_, rtype, id, _) = line {
                        crate::record::lemma_type_code(rtype, id);
                    }
                    assert(key_of(unit) == head_of(line));
                    assert(after == Phase::RecordTag { sequence: done, stack: seq![unit] });
                } else if level == stack.len() {
                    let next = stack.push(unit);
                    lemma_chain_root(next);
                    lemma_keys_push(sequence, chain(next));
                    assert(key_of(chain(next)) == key_of(chain(stack)));
                    assert(head_of(line) is None);
                    assert(closed(sequence, next) == sequence.push(chain(next)));
                    assert(after == Phase::RecordTag { sequence, stack: next });
                } else {
                    let folded = fold_from(stack, level - 1);
                    let next = folded.push(unit);
                    lemma_chain_root(stack.skip(level - 1));
                    assert(folded[0].id == stack[0].id && folded[0].name == stack[0].name);
                    lemma_chain_root(next);
                    lemma_keys_push(sequence, chain(next));
                    assert(key_of(chain(next)) == key_of(chain(stack)));
                    assert(head_of(line) is None);
                    assert(closed(sequence, next) == sequence.push(chain(next)));
                    assert(after == Phase::RecordTag { sequence, stack: next });
                }
            },
            _ => {},
        }
    }
}

/// The records of a parse that succeeds are those of the reference lines
/// at level 0, in their order: each has the type code and the number of
/// its line, and no two have one number.
pub proof fn lemma_record_heads(lines: Seq<Line>)
    ensures
        finish(run(Phase::Initial, lines)) matches Ok(records) ==> keys_of(records) == heads(lines)
            && distinct_ids(records),
{
    lemma_heads_inside(lines);
}

/// A parse that succeeds gives as many records as the document has
/// reference lines at level 0.
pub proof fn lemma_record_count(lines: Seq<Line>)
    ensures
        finish(run(Phase::Initial, lines)) matches Ok(records) ==> records.len() == opened(lines),
{
    lemma_count_inside(lines);
}

/// An unrecognized line gives no recognized line: the recognized lines of a
/// document are those of the document without that line.
pub proof fn lemma_unparsed_line_excluded(lines: Seq<Seq<char>>, i: int)
    requires
        0 <= i < lines.len(),
        token_of(lines[i]) is None,
    ensures
        tokens(lines.remove(i)) == tokens(lines),
        parse_of(lines.remove(i)) == parse_of(lines),
        unparsed(lines.remove(i)) + 1 == unparsed(lines),
    decreases lines.len(),
{
    if i == lines.len() - 1 {
        assert(lines.remove(i) =~= lines.drop_last());
    } else {
        assert(lines.remove(i).drop_last() =~= lines.drop_last().remove(i));
        assert(lines.remove(i).last() == lines.last());
        lemma_unparsed_line_excluded(lines.drop_last(), i);
    }
}

/// A successful state is one from which the machine can advance.
pub proof fn lemma_successful_advances(phase: Phase)
    ensures
        succeeds(phase) ==> !(phase is Invalid),
{
}

/// A recognized line carries a level that is not negative.
pub proof fn lemma_token_level(line: Seq<char>)
    ensures
        token_of(line) matches Some(l) ==> l.level() >= 0,
{
}

/// Every line of a document is either recognized or counted as unparsed.
pub proof fn lemma_recognized_or_counted(lines: Seq<Seq<char>>)
    ensures
        tokens(lines).len() + unparsed(lines) == lines.len(),
    decreases lines.len(),
{
    if lines.len() > 0 {
        lemma_recognized_or_counted(lines.drop_last());
    }
}

/// The registry of a document that parses has as many records as the
/// document has reference lines at level 0.
pub proof fn lemma_registry_count(bytes: Seq<u8>)
    ensures
        load(bytes) matches Ok(r) ==> r.registry.dom().finite() && r.registry.len() == opened(
            tokens(text_lines(body(bytes))),
        ),
{
    let lines = tokens(text_lines(body(bytes)));
    lemma_record_count(lines);
    if let Ok(records) = finish(run(Phase::Initial, lines)) {
        crate::kinship::lemma_registry_keys(records);
    }
}

/// In the registry of a document that parses, each record of the document
/// stands under its identifier with its type, name and units. Its father
/// and its mother are records that it names and that the document has;
/// its children are the records that the resolved references to it come
/// from. No record is its own ancestor.
pub proof fn lemma_load_relatives(bytes: Seq<u8>, i: int)
    requires
        load(bytes) is Ok,
        0 <= i < parse_of(text_lines(body(bytes)))->Ok_0.len(),
    ensures
        ({
            let records = parse_of(text_lines(body(bytes)))->Ok_0;
            let r = load(bytes)->Ok_0;
            let got = r.registry[records[i].id];
            &&& r.registry.contains_key(records[i].id)
            &&& got == (Entity {
                father: parent_in(resolved(records), records[i].id, Role::Father),
                mother: parent_in(resolved(records), records[i].id, Role::Mother),
                children: kids_in(resolved(records), records[i].id),
                ..records[i]
            })
            &&& (got.father matches Some(to) ==> kin(records, records[i], Role::Father) == Some(to))
            &&& (got.mother matches Some(to) ==> kin(records, records[i], Role::Mother) == Some(to))
            &&& acyclic(r.registry)
        }),
{
    let end = run(Phase::Initial, tokens(text_lines(body(bytes))));
    let records = parse_of(text_lines(body(bytes)))->Ok_0;
    crate::kinship::lemma_records_fresh(closed(end->RecordTag_sequence, end->RecordTag_stack));
    crate::kinship::lemma_relatives(records, i);
    crate::ancestry::lemma_resolve_acyclic(records);
}

/// A document in which a level is more than one above the level of the
/// recognized line before it does not parse.
pub proof fn lemma_load_level_jump(bytes: Seq<u8>, i: int)
    requires
        0 <= i,
        i + 1 < tokens(text_lines(body(bytes))).len(),
        tokens(text_lines(body(bytes)))[i + 1].level() > tokens(text_lines(body(bytes)))[i].level()
            + 1,
    ensures
        load(bytes) is Err,
        readable(bom_of(bytes)) ==> load(bytes) == Err::<Resolution, Failure>(
            Failure::Runtime(not_recognized()),
        ),
{
    lemma_level_jump(tokens(text_lines(body(bytes))), i);
}

/// A document whose only recognized line is the header parses to an empty
/// registry without dangling references.
pub proof fn lemma_load_header_only(bytes: Seq<u8>)
    requires
        readable(bom_of(bytes)),
        tokens(text_lines(body(bytes))).len() == 1,
        is_header(tokens(text_lines(body(bytes)))[0]),
    ensures
        load(bytes) matches Ok(r) && r.registry == Map::<u64, Entity>::empty() && r.unresolved
            == Seq::<Link>::empty(),
{
    lemma_header_only(tokens(text_lines(body(bytes))));
    let none = Seq::<Entity>::empty();
    assert(distinct_ids(none));
    assert(enter_all(none).unresolved =~= Seq::<Link>::empty());
    assert(resolve(none).registry =~= Map::<u64, Entity>::empty());
}

/// A document whose first recognized line is not the header, or that has
/// no recognized line, does not parse: it is not recognized, whatever
/// follows that line.
pub proof fn lemma_load_missing_header(bytes: Seq<u8>)
    requires
        tokens(text_lines(body(bytes))).len() == 0 || !is_header(tokens(text_lines(body(bytes)))[0]),
    ensures
        load(bytes) is Err,
        readable(bom_of(bytes)) ==> load(bytes) == Err::<Resolution, Failure>(
            Failure::Runtime(not_recognized()),
        ),
{
    lemma_missing_header(tokens(text_lines(body(bytes))));
}

} // verus!
