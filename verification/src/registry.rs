//! The registry of records and the resolution of references to relatives.

use std::collections::{HashMap, HashSet};
use vstd::prelude::*;
use crate::error::ParseError;
use crate::number::{number_of, parse_number};
use crate::record::{
    content_of, distinct_ids, duplicate_identifier, entities, find_content, Entity, Record,
};

verus! {

broadcast use vstd::std_specs::hash::group_hash_axioms;

/// The registry: every record of a document under its identifier.
pub type RecordRegistry = HashMap<u64, Record>;

/// Which relative a reference names.
#[derive(Clone, Copy, Debug, PartialEq, Eq, Structural)]
pub enum Role {
    /// Named by the content of a `FATH` unit.
    Father,
    /// Named by the content of a `MOTH` unit.
    Mother,
}

/// A reference from the record `from` to the record `to`, which `from` names
/// as its relative in the given role.
#[derive(Clone, Copy, Debug, PartialEq, Eq, Structural)]
pub struct Link {
    pub from: u64,
    pub role: Role,
    pub to: u64,
}

/// A registry together with the references that are not resolved.
pub struct Resolution {
    pub registry: Map<u64, Entity>,
    pub unresolved: Seq<Link>,
}

/// Whether `c` is one of the capital letters `A` to `Z`.
pub open spec fn is_capital(c: char) -> bool {
    65 <= c as u32 <= 90
}

/// The number of capital letters that `s` begins with.
pub open spec fn capitals(s: Seq<char>) -> nat
    decreases s.len(),
{
    if s.len() > 0 && is_capital(s[0]) {
        1 + capitals(s.skip(1))
    } else {
        0
    }
}

/// The identifier that a reference token names. A token is an `@`, a type
/// code of one capital letter or more, a number of one digit or more that
/// fits in 64 bits, and an `@`.
pub open spec fn xref_of(s: Seq<char>) -> Option<u64> {
    if s.len() >= 2 && s[0] == '@' && s.last() == '@' {
        let inner = s.subrange(1, s.len() - 1);
        let code = capitals(inner);
        if code >= 1 {
            number_of(inner.skip(code as int))
        } else {
            None
        }
    } else {
        None
    }
}

/// The name of the unit whose content names the relative in a role.
pub open spec fn role_tag(role: Role) -> Seq<char> {
    match role {
        Role::Father => "FATH"@,
        Role::Mother => "MOTH"@,
    }
}

/// The identifier of the relative that a record names in a role: the
/// reference token that is the content of the first unit of that role.
pub open spec fn named(e: Entity, role: Role) -> Option<u64> {
    match content_of(e.tags, role_tag(role)) {
        Some(content) => xref_of(content),
        None => None,
    }
}

/// The reference that a record makes in a role, if it makes one.
pub open spec fn link_of(e: Entity, role: Role) -> Option<Link> {
    link_to(e.id, role, named(e, role))
}

/// A record with its relative in a role set.
pub open spec fn with_parent(e: Entity, role: Role, parent: u64) -> Entity {
    match role {
        Role::Father => Entity { father: Some(parent), ..e },
        Role::Mother => Entity { mother: Some(parent), ..e },
    }
}

/// A record with one more child at the end of its children.
pub open spec fn with_child(e: Entity, child: u64) -> Entity {
    Entity { children: e.children.push(child), ..e }
}

/// The registry after a reference between two of its records is resolved:
/// `from` has `to` as its relative, and `to` has `from` as its last child.
pub open spec fn connect(registry: Map<u64, Entity>, link: Link) -> Map<u64, Entity>
    recommends
        registry.contains_key(link.from),
        registry.contains_key(link.to),
{
    let named = registry.insert(link.from, with_parent(registry[link.from], link.role, link.to));
    named.insert(link.to, with_child(named[link.to], link.from))
}

/// Whether `to` is reached from `from` in at most `steps` steps, each from
/// a record of the registry to its father or to its mother.
pub open spec fn reaches(registry: Map<u64, Entity>, from: u64, to: u64, steps: nat) -> bool
    decreases steps, 0nat,
{
    from == to || (steps > 0 && registry.contains_key(from) && (reaches_over(
        registry,
        registry[from].father,
        to,
        (steps - 1) as nat,
    ) || reaches_over(registry, registry[from].mother, to, (steps - 1) as nat)))
}

/// Whether there is a relative and `to` is reached from it in at most
/// `steps` steps.
pub open spec fn reaches_over(
    registry: Map<u64, Entity>,
    relative: Option<u64>,
    to: u64,
    steps: nat,
) -> bool
    decreases steps, 1nat,
{
    match relative {
        Some(id) => reaches(registry, id, to, steps),
        None => false,
    }
}

/// Whether the record `of` is `ancestor` or has it among its ancestors.
pub open spec fn descends(registry: Map<u64, Entity>, of: u64, ancestor: u64) -> bool {
    exists|steps: nat| reaches(registry, of, ancestor, steps)
}

/// Whether a reference is resolved: the registry holds the record that it
/// names, and that record neither is nor descends from the record that
/// makes the reference, so that no record becomes its own ancestor.
pub open spec fn accepts(registry: Map<u64, Entity>, link: Link) -> bool {
    registry.contains_key(link.to) && !descends(registry, link.to, link.from)
}

/// One attempt at a reference: it is resolved where the registry accepts
/// it, and joins the unresolved ones where not.
pub open spec fn settle(r: Resolution, link: Link) -> Resolution {
    if accepts(r.registry, link) {
        Resolution { registry: connect(r.registry, link), unresolved: r.unresolved }
    } else {
        Resolution { registry: r.registry, unresolved: r.unresolved.push(link) }
    }
}

/// An attempt at a reference, if there is one.
pub open spec fn settle_if(r: Resolution, link: Option<Link>) -> Resolution {
    match link {
        Some(l) => settle(r, l),
        None => r,
    }
}

/// The attempts at a sequence of references, in order.
pub open spec fn settle_all(r: Resolution, links: Seq<Link>) -> Resolution
    decreases links.len(),
{
    if links.len() == 0 {
        r
    } else {
        settle(settle_all(r, links.drop_last()), links.last())
    }
}

/// A record enters the registry: it is inserted under its identifier, then
/// its reference to a father and its reference to a mother are attempted.
pub open spec fn enter(r: Resolution, e: Entity) -> Resolution {
    let inserted = Resolution { registry: r.registry.insert(e.id, e), unresolved: r.unresolved };
    settle_if(settle_if(inserted, link_of(e, Role::Father)), link_of(e, Role::Mother))
}

/// The records of a document enter an empty registry in document order.
pub open spec fn enter_all(records: Seq<Entity>) -> Resolution
    decreases records.len(),
{
    if records.len() == 0 {
        Resolution { registry: Map::empty(), unresolved: Seq::empty() }
    } else {
        enter(enter_all(records.drop_last()), records.last())
    }
}

/// The registry of a document and its unresolved references.
///
/// A reference to a record that stands earlier in the document is resolved
/// when the record enters. A reference to a record that stands later
/// waits, and is attempted again after all records have entered. A
/// reference that would make a record its own ancestor is never resolved.
/// What is unresolved at the end is reported.
pub open spec fn resolve(records: Seq<Entity>) -> Resolution {
    let first = enter_all(records);
    settle_all(settled(first.registry), first.unresolved)
}

/// The values of the records of a registry.
pub open spec fn entity_map(registry: Map<u64, Record>) -> Map<u64, Entity> {
    registry.map_values(|r: Record| r@)
}

/// The registry with the values of its records, and the unresolved
/// references.
pub open spec fn resolution(registry: Map<u64, Record>, unresolved: Seq<Link>) -> Resolution {
    Resolution { registry: entity_map(registry), unresolved }
}

/// A registry and no unresolved reference.
pub open spec fn settled(registry: Map<u64, Entity>) -> Resolution {
    Resolution { registry, unresolved: Seq::empty() }
}

/// The reference from `from` to the relative that it names, if it names
/// one.
pub open spec fn link_to(from: u64, role: Role, to: Option<u64>) -> Option<Link> {
    match to {
        Some(id) => Some(Link { from, role, to: id }),
        None => None,
    }
}

/// Where the first `code` characters are capital letters, and another
/// character or the end follows them, `s` begins with that many capitals.
pub proof fn lemma_capitals(s: Seq<char>, code: int)
    requires
        0 <= code <= s.len(),
        forall|j: int| 0 <= j < code ==> is_capital(s[j]),
        code < s.len() ==> !is_capital(s[code]),
    ensures
        capitals(s) == code,
    decreases code,
{
    if code > 0 {
        lemma_capitals(s.skip(1), code - 1);
    }
}

/// Reads the identifier that a reference token names.
pub fn parse_xref(s: &str) -> (id: Option<u64>)
    ensures
        id == xref_of(s@),
{
    let len = s.unicode_len();
    if len < 2 || s.get_char(0) != '@' || s.get_char(len - 1) != '@' {
        return None;
    }
    let ghost inner = s@.subrange(1, len - 1);
    let mut k: usize = 1;
    while k < len - 1 && is_capital_char(s.get_char(k))
        invariant
            1 <= k <= len - 1,
            len == s@.len(),
            inner == s@.subrange(1, len - 1),
            forall|j: int| 0 <= j < k - 1 ==> is_capital(inner[j]),
        decreases len - k,
    {
        k = k + 1;
    }
    proof {
        lemma_capitals(inner, k - 1);
        assert(inner.skip(k - 1) =~= s@.subrange(k as int, len - 1));
    }
    if k == 1 {
        return None;
    }
    parse_number(s.substring_char(k, len - 1))
}

/// Whether `c` is one of the capital letters `A` to `Z`.
pub fn is_capital_char(c: char) -> (capital: bool)
    ensures
        capital == is_capital(c),
{
    let code = c as u32;
    code >= 65 && code <= 90
}

/// The identifier of the relative that the units of a record name in a
/// role.
pub fn relative(record: &Record, role: Role) -> (id: Option<u64>)
    ensures
        id == named(record@, role),
{
    let tag = match role {
        Role::Father => "FATH",
        Role::Mother => "MOTH",
    };
    match find_content(&record.tags, tag) {
        Some(content) => parse_xref(content.as_str()),
        None => None,
    }
}

/// Resolves a reference between two records of the registry.
fn join(registry: &mut RecordRegistry, link: Link)
    requires
        old(registry)@.contains_key(link.from),
        old(registry)@.contains_key(link.to),
    ensures
        entity_map(final(registry)@) == connect(entity_map(old(registry)@), link),
        final(registry)@.dom() == old(registry)@.dom(),
{
    let ghost before = entity_map(registry@);
    let mut child = registry.remove(&link.from).unwrap();
    match link.role {
        Role::Father => {
            child.father = Some(link.to);
        },
        Role::Mother => {
            child.mother = Some(link.to);
        },
    }
    assert(child@ == with_parent(before[link.from], link.role, link.to));
    registry.insert(link.from, child);
    let ghost named = entity_map(registry@);
    assert(named =~= before.insert(link.from, with_parent(before[link.from], link.role, link.to)));
    let mut parent = registry.remove(&link.to).unwrap();
    parent.children.push(link.from);
    assert(parent@ == with_child(named[link.to], link.from));
    registry.insert(link.to, parent);
    assert(entity_map(registry@) =~= named.insert(link.to, with_child(named[link.to], link.from)));
    assert(registry@.dom() =~= old(registry)@.dom());
}

/// What is reached in some steps is reached in more.
pub proof fn lemma_reaches_more(registry: Map<u64, Entity>, from: u64, to: u64, steps: nat, more: nat)
    requires
        reaches(registry, from, to, steps),
        steps <= more,
    ensures
        reaches(registry, from, to, more),
    decreases steps,
{
    if from != to {
        let e = registry[from];
        if reaches_over(registry, e.father, to, (steps - 1) as nat) {
            lemma_reaches_more(registry, e.father.unwrap(), to, (steps - 1) as nat, (more - 1) as nat);
        } else {
            lemma_reaches_more(registry, e.mother.unwrap(), to, (steps - 1) as nat, (more - 1) as nat);
        }
    }
}

/// What is reached from a record that is reached is reached.
pub proof fn lemma_reaches_on(
    registry: Map<u64, Entity>,
    from: u64,
    over: u64,
    to: u64,
    first: nat,
    second: nat,
)
    requires
        reaches(registry, from, over, first),
        reaches(registry, over, to, second),
    ensures
        reaches(registry, from, to, first + second),
    decreases first,
{
    if from == over {
        lemma_reaches_more(registry, over, to, second, first + second);
    } else if from != to {
        let e = registry[from];
        if reaches_over(registry, e.father, over, (first - 1) as nat) {
            lemma_reaches_on(registry, e.father.unwrap(), over, to, (first - 1) as nat, second);
        } else {
            lemma_reaches_on(registry, e.mother.unwrap(), over, to, (first - 1) as nat, second);
        }
    }
}

/// Whether a relative of a record that was searched is not the record that
/// is looked for, and is among the records found where the registry holds
/// it.
pub open spec fn searched_over(
    registry: Map<u64, Entity>,
    found: Seq<u64>,
    relative: Option<u64>,
    target: u64,
) -> bool {
    relative matches Some(id) ==> id != target && (registry.contains_key(id) ==> found.contains(id))
}

/// Whether the father and the mother of a record have been searched.
pub open spec fn searched(registry: Map<u64, Entity>, found: Seq<u64>, at: u64, target: u64) -> bool {
    registry.contains_key(at) ==> searched_over(registry, found, registry[at].father, target)
        && searched_over(registry, found, registry[at].mother, target)
}

/// From records of which none is the record looked for, and of which all
/// have been searched, that record is not reached.
pub proof fn lemma_not_reached(
    registry: Map<u64, Entity>,
    found: Seq<u64>,
    target: u64,
    at: u64,
    steps: nat,
)
    requires
        forall|k: int| 0 <= k < found.len() ==> #[trigger] found[k] != target,
        forall|k: int| 0 <= k < found.len() ==> searched(registry, found, #[trigger] found[k], target),
        found.contains(at),
    ensures
        !reaches(registry, at, target, steps),
    decreases steps,
{
    let k = choose|k: int| 0 <= k < found.len() && found[k] == at;
    assert(found[k] != target);
    assert(searched(registry, found, found[k], target));
    if steps > 0 && registry.contains_key(at) {
        let e = registry[at];
        assert(searched_over(registry, found, e.father, target));
        assert(searched_over(registry, found, e.mother, target));
        if let Some(f) = e.father {
            if registry.contains_key(f) {
                lemma_not_reached(registry, found, target, f, (steps - 1) as nat);
            }
            assert(!reaches(registry, f, target, (steps - 1) as nat));
            assert(!reaches_over(registry, e.father, target, (steps - 1) as nat));
        }
        if let Some(m) = e.mother {
            if registry.contains_key(m) {
                lemma_not_reached(registry, found, target, m, (steps - 1) as nat);
            }
            assert(!reaches(registry, m, target, (steps - 1) as nat));
            assert(!reaches_over(registry, e.mother, target, (steps - 1) as nat));
        }
    }
}

/// A list without repetition, of which all but the first are among finitely
/// many, is at most one longer than these are many.
pub proof fn lemma_search_bound(found: Seq<u64>, among: Set<u64>)
    requires
        among.finite(),
        found.no_duplicates(),
        forall|k: int| 1 <= k < found.len() ==> among.contains(#[trigger] found[k]),
    ensures
        found.len() <= among.len() + 1,
{
    if found.len() > 0 {
        let rest = found.skip(1);
        assert forall|a: int, b: int| 0 <= a < rest.len() && 0 <= b < rest.len() && a != b implies rest[a]
            != rest[b] by {
            assert(rest[a] == found[a + 1] && rest[b] == found[b + 1]);
        }
        rest.unique_seq_to_set();
        assert forall|id: u64| rest.to_set().contains(id) implies among.contains(id) by {
            let k = choose|k: int| 0 <= k < rest.len() && rest[k] == id;
            assert(rest[k] == found[k + 1]);
        }
        vstd::set_lib::lemma_len_subset(rest.to_set(), among);
    }
}

/// Looks at a relative of a record that is searched: says whether it is the
/// record looked for, and notes it for the search where it is new.
fn search_over(
    registry: &RecordRegistry,
    seen: &mut HashSet<u64>,
    found: &mut Vec<u64>,
    at: u64,
    relative: Option<u64>,
    of: u64,
    target: u64,
) -> (hit: bool)
    requires
        search_state(entity_map(registry@), old(seen)@, old(found)@, of, target),
        old(found)@.contains(at),
        registry@.contains_key(at),
        relative == registry@[at].father || relative == registry@[at].mother,
    ensures
        hit ==> descends(entity_map(registry@), of, target),
        !hit ==> search_state(entity_map(registry@), final(seen)@, final(found)@, of, target)
            && searched_over(entity_map(registry@), final(found)@, relative, target),
        !hit ==> old(found)@.len() <= final(found)@.len() && final(found)@.take(
            old(found)@.len() as int,
        ) == old(found)@,
{
    let ghost reg = entity_map(registry@);
    match relative {
        None => false,
        Some(id) => {
            proof {
                let k = choose|k: int| 0 <= k < found@.len() && found@[k] == at;
                assert(descends(reg, of, found@[k]));
                let steps = choose|steps: nat| reaches(reg, of, at, steps);
                assert(reaches(reg, id, id, 0));
                assert(reaches(reg, at, id, 1));
                lemma_reaches_on(reg, of, at, id, steps, 1);
            }
            if id == target {
                true
            } else {
                if registry.contains_key(&id) && !seen.contains(&id) {
                    let ghost before = found@;
                    seen.insert(id);
                    found.push(id);
                    assert(found@.take(before.len() as int) =~= before);
                    assert(found@[before.len() as int] == id);
                    assert forall|x: u64| seen@.contains(x) <==> found@.contains(x) by {
                        if before.contains(x) {
                            let k = choose|k: int| 0 <= k < before.len() && before[k] == x;
                            assert(found@[k] == x);
                        }
                        if found@.contains(x) && x != id {
                            let k = choose|k: int| 0 <= k < found@.len() && found@[k] == x;
                            assert(before[k] == x);
                        }
                    }
                    assert forall|a: int, b: int|
                        0 <= a < found@.len() && 0 <= b < found@.len() && a != b implies found@[a]
                        != found@[b] by {
                        if a < before.len() && b < before.len() {
                            assert(before[a] != before[b]);
                        } else if a < before.len() {
                            assert(before[a] == found@[a]);
                            assert(before.contains(found@[a]));
                        } else if b < before.len() {
                            assert(before[b] == found@[b]);
                            assert(before.contains(found@[b]));
                        }
                    }
                    assert forall|k: int| 0 <= k < found@.len() implies #[trigger] found@[k] != target
                        && descends(reg, of, found@[k]) by {
                        if k < before.len() {
                            assert(found@[k] == before[k]);
                        }
                    }
                    assert forall|k: int| 1 <= k < found@.len() implies reg.contains_key(
                        #[trigger] found@[k],
                    ) by {
                        if k < before.len() {
                            assert(found@[k] == before[k]);
                        }
                    }
                }
                assert(registry@.contains_key(id) ==> found@.contains(id));
                false
            }
        },
    }
}

/// What holds of a search for the ancestors of `of`: the records found are
/// noted once each, none is the record looked for, each is `of` or an
/// ancestor of it, and each but `of` stands in the registry.
pub open spec fn search_state(
    registry: Map<u64, Entity>,
    seen: Set<u64>,
    found: Seq<u64>,
    of: u64,
    target: u64,
) -> bool {
    &&& found.len() >= 1
    &&& found[0] == of
    &&& found.no_duplicates()
    &&& forall|id: u64| seen.contains(id) <==> found.contains(id)
    &&& forall|k: int|
        0 <= k < found.len() ==> #[trigger] found[k] != target && descends(registry, of, found[k])
    &&& forall|k: int| 1 <= k < found.len() ==> registry.contains_key(#[trigger] found[k])
}

/// What was searched stays searched when more records are found.
pub proof fn lemma_searched_more(
    registry: Map<u64, Entity>,
    found: Seq<u64>,
    more: Seq<u64>,
    at: u64,
    target: u64,
)
    requires
        searched(registry, found, at, target),
        found.len() <= more.len(),
        more.take(found.len() as int) == found,
    ensures
        searched(registry, more, at, target),
{
    assert forall|id: u64| found.contains(id) implies more.contains(id) by {
        let k = choose|k: int| 0 <= k < found.len() && found[k] == id;
        assert(more.take(found.len() as int)[k] == id);
        assert(more[k] == id);
    }
}

/// Whether the record `of` is `ancestor` or has it among its ancestors.
pub fn descends_from(registry: &RecordRegistry, of: u64, ancestor: u64) -> (found: bool)
    ensures
        found == descends(entity_map(registry@), of, ancestor),
{
    let ghost reg = entity_map(registry@);
    if of == ancestor {
        assert(reaches(reg, of, ancestor, 0));
        return true;
    }
    let mut seen: HashSet<u64> = HashSet::new();
    let mut queue: Vec<u64> = Vec::new();
    seen.insert(of);
    queue.push(of);
    assert(queue@[0] == of);
    assert(reaches(reg, of, of, 0));
    let mut i: usize = 0;
    while i < queue.len()
        invariant
            i <= queue.len(),
            reg == entity_map(registry@),
            search_state(reg, seen@, queue@, of, ancestor),
            forall|k: int| 0 <= k < i ==> searched(reg, queue@, #[trigger] queue@[k], ancestor),
        decreases registry@.dom().len() + 1 - i,
    {
        proof {
            assert(reg.dom() =~= registry@.dom());
            lemma_search_bound(queue@, registry@.dom());
        }
        let at = queue[i];
        let ghost start = queue@;
        assert(queue@.contains(at));
        match registry.get(&at) {
            None => {},
            Some(record) => {
                let father = record.father;
                let mother = record.mother;
                if search_over(registry, &mut seen, &mut queue, at, father, of, ancestor) {
                    return true;
                }
                let ghost middle = queue@;
                assert(queue@.contains(at)) by {
                    assert(queue@.take(start.len() as int)[i as int] == at);
                    assert(queue@[i as int] == at);
                }
                if search_over(registry, &mut seen, &mut queue, at, mother, of, ancestor) {
                    return true;
                }
                proof {
                    assert(queue@.take(start.len() as int) =~= queue@.take(middle.len() as int).take(
                        start.len() as int,
                    ));
                    assert forall|id: u64| middle.contains(id) implies queue@.contains(id) by {
                        let k = choose|k: int| 0 <= k < middle.len() && middle[k] == id;
                        assert(queue@.take(middle.len() as int)[k] == id);
                        assert(queue@[k] == id);
                    }
                }
            },
        }
        proof {
            assert(queue@[i as int] == at) by {
                assert(queue@.take(start.len() as int)[i as int] == start[i as int]);
            }
            assert forall|k: int| 0 <= k < i + 1 implies searched(
                reg,
                queue@,
                #[trigger] queue@[k],
                ancestor,
            ) by {
                assert(queue@.take(start.len() as int)[k] == start[k]);
                assert(queue@[k] == start[k]);
                if k < i {
                    lemma_searched_more(reg, start, queue@, start[k], ancestor);
                }
            }
        }
        i = i + 1;
    }
    proof {
        assert forall|steps: nat| !reaches(reg, of, ancestor, steps) by {
            assert(queue@.contains(queue@[0]));
            lemma_not_reached(reg, queue@, ancestor, of, steps);
        }
    }
    false
}

/// Attempts a reference of a record of the registry.
fn attempt(registry: &mut RecordRegistry, unresolved: &mut Vec<Link>, link: Link)
    requires
        old(registry)@.contains_key(link.from),
    ensures
        resolution(final(registry)@, final(unresolved)@) == settle(
            resolution(old(registry)@, old(unresolved)@),
            link,
        ),
        final(registry)@.dom() == old(registry)@.dom(),
{
    if registry.contains_key(&link.to) && !descends_from(registry, link.to, link.from) {
        join(registry, link);
    } else {
        unresolved.push(link);
    }
}

/// Attempts the reference that a record of the registry makes in a role.
fn attempt_role(
    registry: &mut RecordRegistry,
    unresolved: &mut Vec<Link>,
    from: u64,
    role: Role,
    to: Option<u64>,
)
    requires
        old(registry)@.contains_key(from),
    ensures
        resolution(final(registry)@, final(unresolved)@) == settle_if(
            resolution(old(registry)@, old(unresolved)@),
            link_to(from, role, to),
        ),
        final(registry)@.dom() == old(registry)@.dom(),
{
    match to {
        Some(id) => attempt(registry, unresolved, Link { from, role, to: id }),
        None => {},
    }
}

/// In a sequence without two equal identifiers, no beginning has two.
pub proof fn lemma_distinct_prefix(records: Seq<Entity>, n: int)
    requires
        0 <= n <= records.len(),
        distinct_ids(records),
    ensures
        distinct_ids(records.take(n)),
{
    assert forall|i: int, j: int| 0 <= i < j < n implies (#[trigger] records.take(n)[i]).id != (
    #[trigger] records.take(n)[j]).id by {
        assert(records[i].id != records[j].id);
    }
}

/// The registry of the records entered holds exactly their identifiers.
pub proof fn lemma_enter_all_domain(records: Seq<Entity>)
    ensures
        forall|id: u64|
            enter_all(records).registry.contains_key(id) <==> exists|i: int|
                0 <= i < records.len() && (#[trigger] records[i]).id == id,
        forall|k: int|
            0 <= k < enter_all(records).unresolved.len() ==> enter_all(records).registry.contains_key(
                (#[trigger] enter_all(records).unresolved[k]).from,
            ),
    decreases records.len(),
{
    if records.len() > 0 {
        let before = records.drop_last();
        let last = records.last();
        lemma_enter_all_domain(before);
        let r0 = enter_all(before);
        let inserted = Resolution {
            registry: r0.registry.insert(last.id, last),
            unresolved: r0.unresolved,
        };
        let r1 = settle_if(inserted, link_of(last, Role::Father));
        let r2 = settle_if(r1, link_of(last, Role::Mother));
        assert(r1.registry.dom() =~= inserted.registry.dom());
        assert(r2.registry.dom() =~= inserted.registry.dom());
        assert(r2 == enter_all(records));
        assert forall|id: u64| r2.registry.contains_key(id) <==> exists|i: int|
            0 <= i < records.len() && (#[trigger] records[i]).id == id by {
            if r2.registry.contains_key(id) {
                if id == last.id {
                    assert(records[records.len() - 1].id == id);
                } else {
                    assert(r0.registry.contains_key(id));
                    let i = choose|i: int| 0 <= i < before.len() && (#[trigger] before[i]).id == id;
                    assert(records[i].id == id);
                }
            }
            if exists|i: int| 0 <= i < records.len() && (#[trigger] records[i]).id == id {
                let i = choose|i: int| 0 <= i < records.len() && (#[trigger] records[i]).id == id;
                if i < before.len() {
                    assert(before[i].id == id);
                }
            }
        }
    }
}

/// Builds the registry of the records of a document and resolves their
/// references to relatives. A reference that names no record, or that
/// would make a record its own ancestor, is left unresolved and reported.
/// Two records with one identifier are refused.
pub fn link(records: Vec<Record>) -> (result: Result<(RecordRegistry, Vec<Link>), ParseError>)
    ensures
        result is Ok <==> distinct_ids(entities(records@)),
        result matches Ok(linked) ==> resolution(linked.0@, linked.1@) == resolve(
            entities(records@),
        ),
        result matches Err(e) ==> e.message() == Some(duplicate_identifier()),
{
    let mut registry: RecordRegistry = HashMap::new();
    let mut pending: Vec<Link> = Vec::new();
    let ghost all = entities(records@);
    assert(entity_map(registry@) =~= Map::<u64, Entity>::empty());
    assert(all.take(0) =~= Seq::<Entity>::empty());
    for record in it: records
        invariant
            it.seq() == records@,
            all == entities(records@),
            distinct_ids(all.take(it.index() as int)),
            resolution(registry@, pending@) == enter_all(all.take(it.index() as int)),
    {
        let ghost n = it.index() as int;
        let ghost r0 = enter_all(all.take(n));
        proof {
            assert(all.take(n + 1).drop_last() =~= all.take(n));
            assert(all.take(n + 1).last() == record@);
            lemma_enter_all_domain(all.take(n));
        }
        let id = record.id;
        if registry.contains_key(&id) {
            proof {
                assert(entity_map(registry@).contains_key(id));
                assert(r0.registry.contains_key(id));
                let i = choose|i: int| 0 <= i < n && (#[trigger] all.take(n)[i]).id == id;
                assert(all[i].id == all[n].id);
            }
            return Err(ParseError::Runtime("duplicate identifier".to_owned()));
        }
        assert forall|i: int, j: int| 0 <= i < j < n + 1 implies (#[trigger] all.take(n + 1)[i]).id
            != (#[trigger] all.take(n + 1)[j]).id by {
            if j < n {
                assert(all.take(n)[i].id != all.take(n)[j].id);
            } else {
                assert(!entity_map(registry@).contains_key(id));
                assert(!r0.registry.contains_key(id));
                assert(all.take(n)[i].id == all.take(n + 1)[i].id);
                assert(all.take(n + 1)[j].id == id);
            }
        }
        let father = relative(&record, Role::Father);
        let mother = relative(&record, Role::Mother);
        registry.insert(id, record);
        assert(entity_map(registry@) =~= r0.registry.insert(id, record@));
        attempt_role(&mut registry, &mut pending, id, Role::Father, father);
        attempt_role(&mut registry, &mut pending, id, Role::Mother, mother);
    }
    assert(all.take(records@.len() as int) =~= all);
    proof {
        lemma_enter_all_domain(all);
    }
    let mut dangling: Vec<Link> = Vec::new();
    let mut k: usize = 0;
    let ghost first = enter_all(all);
    assert(pending@.take(0) =~= Seq::<Link>::empty());
    while k < pending.len()
        invariant
            k <= pending.len(),
            pending@ == first.unresolved,
            registry@.dom() == first.registry.dom(),
            forall|j: int|
                0 <= j < pending@.len() ==> first.registry.contains_key(
                    (#[trigger] pending@[j]).from,
                ),
            resolution(registry@, dangling@) == settle_all(
                settled(first.registry),
                pending@.take(k as int),
            ),
        decreases pending.len() - k,
    {
        proof {
            assert(pending@.take(k as int + 1).drop_last() =~= pending@.take(k as int));
            assert(registry@.contains_key(pending@[k as int].from));
        }
        attempt(&mut registry, &mut dangling, pending[k]);
        k = k + 1;
    }
    assert(pending@.take(pending@.len() as int) =~= pending@);
    Ok((registry, dangling))
}

} // verus!
