//! What the resolution of references gives, said of the registry as it
//! stands at the end: which relatives a record has, which children it
//! lists, and which references are left unresolved.

use vstd::prelude::*;
use crate::ancestry::fresh;
use crate::record::{distinct_ids, Entity};
use crate::registry::{
    accepts, connect, enter_all, lemma_enter_all_domain, link_of, named, resolve, settle,
    settle_all, settle_if, settled, with_child, with_parent, Link, Resolution, Role,
};

verus! {

/// Whether some record has the identifier.
pub open spec fn has_id(records: Seq<Entity>, id: u64) -> bool {
    exists|i: int| 0 <= i < records.len() && (#[trigger] records[i]).id == id
}

/// The relative that the last of the resolved references from `id` in a
/// role names.
pub open spec fn parent_in(links: Seq<Link>, id: u64, role: Role) -> Option<u64>
    decreases links.len(),
{
    if links.len() == 0 {
        None
    } else if links.last().from == id && links.last().role == role {
        Some(links.last().to)
    } else {
        parent_in(links.drop_last(), id, role)
    }
}

/// The records that the resolved references to `id` come from, in the order
/// of the references.
pub open spec fn kids_in(links: Seq<Link>, id: u64) -> Seq<u64>
    decreases links.len(),
{
    if links.len() == 0 {
        Seq::empty()
    } else if links.last().to == id {
        kids_in(links.drop_last(), id).push(links.last().from)
    } else {
        kids_in(links.drop_last(), id)
    }
}

/// One of two options: the first where it holds a value.
pub open spec fn or_else(first: Option<u64>, second: Option<u64>) -> Option<u64> {
    if first is Some {
        first
    } else {
        second
    }
}

/// A record after a sequence of references has been resolved.
pub open spec fn linked(e: Entity, links: Seq<Link>) -> Entity {
    Entity {
        father: or_else(parent_in(links, e.id, Role::Father), e.father),
        mother: or_else(parent_in(links, e.id, Role::Mother), e.mother),
        children: e.children + kids_in(links, e.id),
        ..e
    }
}

/// Whether a registry holds, under each identifier of `base`, the record of
/// `base` after the references `links` have been resolved.
pub open spec fn holds(registry: Map<u64, Entity>, base: Map<u64, Entity>, links: Seq<Link>) -> bool {
    &&& registry.dom() == base.dom()
    &&& forall|id: u64| #[trigger] base.contains_key(id) ==> base[id].id == id
    &&& forall|id: u64| #[trigger] base.contains_key(id) ==> registry[id] == linked(base[id], links)
}

/// Whether every reference of `links` goes between records of `base`.
pub open spec fn within(links: Seq<Link>, base: Map<u64, Entity>) -> bool {
    forall|k: int|
        0 <= k < links.len() ==> base.contains_key((#[trigger] links[k]).from) && base.contains_key(
            links[k].to,
        )
}

/// Resolving one more reference between two records of the registry is
/// one more resolved reference for every record.
pub proof fn lemma_connect_holds(
    registry: Map<u64, Entity>,
    base: Map<u64, Entity>,
    links: Seq<Link>,
    link: Link,
)
    requires
        holds(registry, base, links),
        base.contains_key(link.from),
        base.contains_key(link.to),
    ensures
        holds(connect(registry, link), base, links.push(link)),
{
    let more = links.push(link);
    let after = connect(registry, link);
    assert(more.drop_last() =~= links);
    assert(after.dom() =~= base.dom());
    assert forall|id: u64| #[trigger] base.contains_key(id) implies after[id] == linked(
        base[id],
        more,
    ) by {
        let e = base[id];
        let before = linked(e, links);
        assert(registry[id] == before);
        if id == link.to {
            assert(e.children + kids_in(links, id).push(link.from) =~= (e.children + kids_in(
                links,
                id,
            )).push(link.from));
        }
        if id == link.from && id == link.to {
            assert(after[id] == with_child(with_parent(before, link.role, link.to), link.from));
        } else if id == link.from {
            assert(after[id] == with_parent(before, link.role, link.to));
        } else if id == link.to {
            assert(after[id] == with_child(before, link.from));
        } else {
            assert(after[id] == before);
        }
    }
}

/// A record that no resolved reference goes from or to is as it was.
pub proof fn lemma_untouched(e: Entity, links: Seq<Link>)
    requires
        forall|k: int| 0 <= k < links.len() ==> (#[trigger] links[k]).from != e.id && links[k].to != e.id,
    ensures
        linked(e, links) == e,
        parent_in(links, e.id, Role::Father) is None,
        parent_in(links, e.id, Role::Mother) is None,
        kids_in(links, e.id).len() == 0,
    decreases links.len(),
{
    if links.len() > 0 {
        let rest = links.drop_last();
        assert forall|k: int| 0 <= k < rest.len() implies (#[trigger] rest[k]).from != e.id
            && rest[k].to != e.id by {
            assert(rest[k] == links[k]);
        }
        lemma_untouched(e, rest);
        assert(links.last() == links[links.len() - 1]);
    }
    assert(e.children + kids_in(links, e.id) =~= e.children);
}

/// A new record enters a registry without a change to the others.
pub proof fn lemma_insert_holds(
    registry: Map<u64, Entity>,
    base: Map<u64, Entity>,
    links: Seq<Link>,
    e: Entity,
)
    requires
        holds(registry, base, links),
        within(links, base),
        !base.contains_key(e.id),
    ensures
        holds(registry.insert(e.id, e), base.insert(e.id, e), links),
        within(links, base.insert(e.id, e)),
{
    lemma_untouched(e, links);
    let grown = base.insert(e.id, e);
    assert(registry.insert(e.id, e).dom() =~= grown.dom());
}

/// The records of a document under their identifiers, as they enter the
/// registry.
pub open spec fn base_of(records: Seq<Entity>) -> Map<u64, Entity>
    decreases records.len(),
{
    if records.len() == 0 {
        Map::empty()
    } else {
        base_of(records.drop_last()).insert(records.last().id, records.last())
    }
}

/// The identifiers of the records of a document.
pub open spec fn ids(records: Seq<Entity>) -> Set<u64> {
    base_of(records).dom()
}

/// Whether every reference of `links` comes from a record of `base`.
pub open spec fn from_within(links: Seq<Link>, base: Map<u64, Entity>) -> bool {
    forall|k: int| 0 <= k < links.len() ==> base.contains_key((#[trigger] links[k]).from)
}

/// The resolved references after an attempt at one more.
pub open spec fn noted(r: Resolution, links: Seq<Link>, link: Link) -> Seq<Link> {
    if accepts(r.registry, link) {
        links.push(link)
    } else {
        links
    }
}

/// The resolved references after an attempt at one more, if there is one.
pub open spec fn noted_if(r: Resolution, links: Seq<Link>, link: Option<Link>) -> Seq<Link> {
    match link {
        Some(l) => noted(r, links, l),
        None => links,
    }
}

/// A registry with one more record.
pub open spec fn inserted(r: Resolution, e: Entity) -> Resolution {
    Resolution { registry: r.registry.insert(e.id, e), unresolved: r.unresolved }
}

/// The references that are resolved when their record enters, in the order
/// in which they are.
pub open spec fn near(records: Seq<Entity>) -> Seq<Link>
    decreases records.len(),
{
    if records.len() == 0 {
        Seq::empty()
    } else {
        let last = records.last();
        let r0 = inserted(enter_all(records.drop_last()), last);
        let r1 = settle_if(r0, link_of(last, Role::Father));
        noted_if(
            r1,
            noted_if(r0, near(records.drop_last()), link_of(last, Role::Father)),
            link_of(last, Role::Mother),
        )
    }
}

/// Those of the references `queue` that are resolved when they are
/// attempted one after the other, from the state `r`.
pub open spec fn late(r: Resolution, queue: Seq<Link>) -> Seq<Link>
    decreases queue.len(),
{
    if queue.len() == 0 {
        Seq::empty()
    } else {
        noted(settle_all(r, queue.drop_last()), late(r, queue.drop_last()), queue.last())
    }
}

/// The references that are resolved in a document, in the order in which
/// they are: first those resolved when their record enters, then those
/// that waited.
pub open spec fn resolved(records: Seq<Entity>) -> Seq<Link> {
    near(records) + late(settled(enter_all(records).registry), enter_all(records).unresolved)
}

/// An attempt at a reference from a record of the registry resolves it or
/// leaves the registry as it is.
pub proof fn lemma_settle_holds(r: Resolution, base: Map<u64, Entity>, links: Seq<Link>, link: Link)
    requires
        holds(r.registry, base, links),
        within(links, base),
        base.contains_key(link.from),
    ensures
        holds(settle(r, link).registry, base, noted(r, links, link)),
        within(noted(r, links, link), base),
{
    if accepts(r.registry, link) {
        assert(base.contains_key(link.to));
        lemma_connect_holds(r.registry, base, links, link);
        let more = links.push(link);
        assert forall|k: int| 0 <= k < more.len() implies base.contains_key((#[trigger] more[k]).from)
            && base.contains_key(more[k].to) by {
            if k < links.len() {
                assert(more[k] == links[k]);
            }
        }
    }
}

/// An attempt at a reference, if there is one.
pub proof fn lemma_settle_if_holds(
    r: Resolution,
    base: Map<u64, Entity>,
    links: Seq<Link>,
    link: Option<Link>,
)
    requires
        holds(r.registry, base, links),
        within(links, base),
        link matches Some(l) ==> base.contains_key(l.from),
    ensures
        holds(settle_if(r, link).registry, base, noted_if(r, links, link)),
        within(noted_if(r, links, link), base),
{
    if let Some(l) = link {
        lemma_settle_holds(r, base, links, l);
    }
}

/// The identifiers of the records of a document are those that a record
/// has, and under each stands the record that has it.
pub proof fn lemma_base_of(records: Seq<Entity>)
    requires
        distinct_ids(records),
    ensures
        forall|id: u64| ids(records).contains(id) <==> has_id(records, id),
        forall|i: int|
            0 <= i < records.len() ==> base_of(records).contains_key((#[trigger] records[i]).id)
                && base_of(records)[records[i].id] == records[i],
        forall|id: u64| #[trigger] base_of(records).contains_key(id) ==> base_of(records)[id].id == id,
    decreases records.len(),
{
    if records.len() > 0 {
        let before = records.drop_last();
        let last = records.last();
        crate::registry::lemma_distinct_prefix(records, records.len() - 1);
        assert(records.take(records.len() - 1) =~= before);
        lemma_base_of(before);
        assert forall|id: u64| ids(records).contains(id) <==> has_id(records, id) by {
            if has_id(records, id) {
                let i = choose|i: int| 0 <= i < records.len() && (#[trigger] records[i]).id == id;
                if i < before.len() {
                    assert(before[i].id == id);
                }
            }
            if ids(records).contains(id) && id != last.id {
                assert(has_id(before, id));
                let i = choose|i: int| 0 <= i < before.len() && (#[trigger] before[i]).id == id;
                assert(records[i].id == id);
            }
            if id == last.id {
                assert(records[records.len() - 1].id == id);
            }
        }
        assert forall|i: int| 0 <= i < records.len() implies base_of(records).contains_key(
            (#[trigger] records[i]).id,
        ) && base_of(records)[records[i].id] == records[i] by {
            if i < before.len() {
                assert(before[i] == records[i]);
                assert(records[i].id != records[records.len() - 1].id);
            }
        }
    }
}

/// After the records of a document have entered, the registry holds each
/// with the references applied that were resolved by then.
pub proof fn lemma_enter_all_holds(records: Seq<Entity>)
    requires
        distinct_ids(records),
    ensures
        holds(enter_all(records).registry, base_of(records), near(records)),
        within(near(records), base_of(records)),
        from_within(enter_all(records).unresolved, base_of(records)),
    decreases records.len(),
{
    if records.len() == 0 {
        assert(enter_all(records).registry.dom() =~= base_of(records).dom());
    } else {
        let before = records.drop_last();
        let last = records.last();
        crate::registry::lemma_distinct_prefix(records, records.len() - 1);
        assert(records.take(records.len() - 1) =~= before);
        lemma_enter_all_holds(before);
        lemma_base_of(before);
        lemma_base_of(records);
        lemma_enter_all_domain(records);
        let base0 = base_of(before);
        let base1 = base_of(records);
        assert(!base0.contains_key(last.id)) by {
            if has_id(before, last.id) {
                let i = choose|i: int| 0 <= i < before.len() && (#[trigger] before[i]).id == last.id;
                assert(records[i].id == records[records.len() - 1].id);
            }
        }
        lemma_insert_holds(enter_all(before).registry, base0, near(before), last);
        let r0 = inserted(enter_all(before), last);
        let father = link_of(last, Role::Father);
        let mother = link_of(last, Role::Mother);
        lemma_settle_if_holds(r0, base1, near(before), father);
        let r1 = settle_if(r0, father);
        lemma_settle_if_holds(r1, base1, noted_if(r0, near(before), father), mother);
        assert(settle_if(r1, mother) == enter_all(records));
        assert(base1.dom() =~= enter_all(records).registry.dom());
    }
}

/// After references from records of the registry have been attempted, the
/// registry holds each record with those applied that were resolved.
pub proof fn lemma_settle_all_holds(
    r: Resolution,
    base: Map<u64, Entity>,
    links: Seq<Link>,
    queue: Seq<Link>,
)
    requires
        holds(r.registry, base, links),
        within(links, base),
        from_within(queue, base),
    ensures
        holds(settle_all(r, queue).registry, base, links + late(r, queue)),
        within(links + late(r, queue), base),
    decreases queue.len(),
{
    if queue.len() == 0 {
        assert(links + Seq::<Link>::empty() =~= links);
    } else {
        let rest = queue.drop_last();
        let last = queue.last();
        assert forall|k: int| 0 <= k < rest.len() implies base.contains_key(
            (#[trigger] rest[k]).from,
        ) by {
            assert(rest[k] == queue[k]);
        }
        lemma_settle_all_holds(r, base, links, rest);
        let r0 = settle_all(r, rest);
        let links0 = links + late(r, rest);
        assert(base.contains_key(queue[queue.len() - 1].from));
        lemma_settle_holds(r0, base, links0, last);
        assert(noted(r0, links0, last) =~= links + late(r, queue));
    }
}

/// The registry of a document holds each record with the resolved
/// references of the document applied.
pub proof fn lemma_resolve_holds(records: Seq<Entity>)
    requires
        distinct_ids(records),
    ensures
        holds(resolve(records).registry, base_of(records), resolved(records)),
        within(resolved(records), base_of(records)),
{
    lemma_enter_all_holds(records);
    lemma_settle_all_holds(
        settled(enter_all(records).registry),
        base_of(records),
        near(records),
        enter_all(records).unresolved,
    );
}

/// After an attempt at a reference, the resolved and the unresolved
/// references are those from before and, as one or the other, that
/// reference.
pub proof fn lemma_settle_sorts(r: Resolution, links: Seq<Link>, link: Link, other: Link)
    ensures
        noted(r, links, link).contains(other) <==> links.contains(other) || (other == link
            && accepts(r.registry, link)),
        settle(r, link).unresolved.contains(other) <==> r.unresolved.contains(other) || (other
            == link && !accepts(r.registry, link)),
{
    lemma_contains_push(links, link, other);
    lemma_contains_push(r.unresolved, link, other);
}

/// The same for an attempt at a reference, if there is one.
pub proof fn lemma_settle_if_sorts(r: Resolution, links: Seq<Link>, link: Option<Link>, other: Link)
    ensures
        noted_if(r, links, link).contains(other) <==> links.contains(other) || (link == Some(other)
            && accepts(r.registry, other)),
        settle_if(r, link).unresolved.contains(other) <==> r.unresolved.contains(other) || (link
            == Some(other) && !accepts(r.registry, other)),
{
    if let Some(l) = link {
        lemma_settle_sorts(r, links, l, other);
    }
}

/// While the records of a document enter, a reference that is resolved or
/// waits is made by a record, one that is resolved names a record, and a
/// reference that a record makes is resolved or waits.
pub proof fn lemma_near(records: Seq<Entity>, link: Link)
    requires
        distinct_ids(records),
    ensures
        near(records).contains(link) ==> made(records, link) && has_id(records, link.to),
        enter_all(records).unresolved.contains(link) ==> made(records, link),
        made(records, link) ==> near(records).contains(link) || enter_all(
            records,
        ).unresolved.contains(link),
    decreases records.len(),
{
    if records.len() > 0 {
        let before = records.drop_last();
        let last = records.last();
        let n = records.len() - 1;
        crate::registry::lemma_distinct_prefix(records, n);
        assert(records.take(n) =~= before);
        lemma_near(before, link);
        lemma_enter_all_domain(records);
        let r0 = inserted(enter_all(before), last);
        let father = link_of(last, Role::Father);
        let mother = link_of(last, Role::Mother);
        let r1 = settle_if(r0, father);
        let links1 = noted_if(r0, near(before), father);
        lemma_settle_if_sorts(r0, near(before), father, link);
        lemma_settle_if_sorts(r1, links1, mother, link);
        assert(settle_if(r1, mother) == enter_all(records));
        assert(r1.registry.dom() =~= r0.registry.dom());
        assert(enter_all(records).registry.dom() =~= r0.registry.dom());
        if has_id(before, link.to) {
            let i = choose|i: int| 0 <= i < before.len() && (#[trigger] before[i]).id == link.to;
            assert(records[i].id == link.to);
        }
        if made(before, link) {
            let j = choose|j: int|
                0 <= j < before.len() && link_of(#[trigger] before[j], link.role) == Some(link);
            assert(link_of(records[j], link.role) == Some(link));
        }
        if father == Some(link) || mother == Some(link) {
            assert(link_of(records[n], link.role) == Some(link));
        }
        if made(records, link) {
            let j = choose|j: int|
                0 <= j < records.len() && link_of(#[trigger] records[j], link.role) == Some(link);
            if j < n {
                assert(link_of(before[j], link.role) == Some(link));
            } else {
                assert(link.role == Role::Father ==> father == Some(link));
                assert(link.role == Role::Mother ==> mother == Some(link));
            }
        }
    }
}

/// After references have been attempted, one that is resolved is one of
/// them and names a record; one that is unresolved was so before or is one
/// of them; and each of them is resolved or unresolved.
pub proof fn lemma_late(r: Resolution, queue: Seq<Link>, link: Link)
    ensures
        late(r, queue).contains(link) ==> queue.contains(link),
        settle_all(r, queue).unresolved.contains(link) ==> r.unresolved.contains(link)
            || queue.contains(link),
        queue.contains(link) ==> late(r, queue).contains(link) || settle_all(
            r,
            queue,
        ).unresolved.contains(link),
    decreases queue.len(),
{
    if queue.len() > 0 {
        let rest = queue.drop_last();
        let last = queue.last();
        lemma_late(r, rest, link);
        assert(rest.push(last) =~= queue);
        lemma_contains_push(rest, last, link);
        lemma_settle_sorts(settle_all(r, rest), late(r, rest), last, link);
    }
}

/// In a document, a reference that is resolved is made by a record and
/// names a record; a reference that is left unresolved is made by a
/// record; every reference that a record makes is resolved or left
/// unresolved; and one that names no record is left unresolved.
pub proof fn lemma_resolved_unresolved(records: Seq<Entity>, link: Link)
    requires
        distinct_ids(records),
    ensures
        resolved(records).contains(link) ==> made(records, link) && has_id(records, link.to),
        resolve(records).unresolved.contains(link) ==> made(records, link),
        made(records, link) ==> resolved(records).contains(link) || resolve(
            records,
        ).unresolved.contains(link),
        made(records, link) && !has_id(records, link.to) ==> resolve(records).unresolved.contains(
            link,
        ),
{
    let first = enter_all(records);
    let start = settled(first.registry);
    lemma_near(records, link);
    lemma_late(start, first.unresolved, link);
    lemma_contains_add(near(records), late(start, first.unresolved), link);
    lemma_resolve_holds(records);
    lemma_base_of(records);
    if resolved(records).contains(link) {
        let links = resolved(records);
        let k = choose|k: int| 0 <= k < links.len() && links[k] == link;
        assert(base_of(records).contains_key(links[k].to));
    }
}

/// Whether some record of the document makes the reference.
pub open spec fn made(records: Seq<Entity>, link: Link) -> bool {
    exists|j: int| 0 <= j < records.len() && link_of(#[trigger] records[j], link.role) == Some(link)
}

/// The relative that a record has in the registry in a role: the record
/// that it names there, where the document has a record of that identifier.
pub open spec fn kin(records: Seq<Entity>, e: Entity, role: Role) -> Option<u64> {
    match named(e, role) {
        Some(to) => if has_id(records, to) {
            Some(to)
        } else {
            None
        },
        None => None,
    }
}

/// Whether the record with the identifier `child` names `parent` as its
/// father or as its mother.
pub open spec fn child_of(records: Seq<Entity>, child: u64, parent: u64) -> bool {
    exists|j: int, role: Role|
        0 <= j < records.len() && (#[trigger] records[j]).id == child && #[trigger] named(
            records[j],
            role,
        ) == Some(parent)
}

/// What is in one of two sequences is in the two joined, and nothing else.
pub proof fn lemma_contains_add(first: Seq<Link>, second: Seq<Link>, link: Link)
    ensures
        (first + second).contains(link) <==> first.contains(link) || second.contains(link),
{
    let both = first + second;
    if first.contains(link) {
        let k = choose|k: int| 0 <= k < first.len() && first[k] == link;
        assert(both[k] == link);
    }
    if second.contains(link) {
        let k = choose|k: int| 0 <= k < second.len() && second[k] == link;
        assert(both[k + first.len()] == link);
    }
    if both.contains(link) {
        let k = choose|k: int| 0 <= k < both.len() && both[k] == link;
        if k < first.len() {
            assert(first[k] == link);
        } else {
            assert(second[k - first.len()] == link);
        }
    }
}

/// What is in a sequence with one more element is in the sequence or is
/// that element.
pub proof fn lemma_contains_push(links: Seq<Link>, last: Link, link: Link)
    ensures
        links.push(last).contains(link) <==> links.contains(link) || last == link,
{
    assert(links.push(last) =~= links + seq![last]);
    lemma_contains_add(links, seq![last], link);
    if last == link {
        assert(seq![last][0] == link);
    }
}

/// The relative that resolved references give is named by one of them, and
/// a record that one of them comes from has a relative in its role.
pub proof fn lemma_parent_in(links: Seq<Link>, id: u64, role: Role)
    ensures
        parent_in(links, id, role) matches Some(to) ==> links.contains(Link { from: id, role, to }),
        (exists|k: int|
            0 <= k < links.len() && (#[trigger] links[k]).from == id && links[k].role == role)
            ==> parent_in(links, id, role) is Some,
    decreases links.len(),
{
    if links.len() > 0 {
        let rest = links.drop_last();
        let last = links.last();
        lemma_parent_in(rest, id, role);
        assert(rest.push(last) =~= links);
        if last.from == id && last.role == role {
            assert(links[links.len() - 1] == last);
        } else {
            if let Some(to) = parent_in(rest, id, role) {
                lemma_contains_push(rest, last, Link { from: id, role, to });
            }
            if exists|k: int|
                0 <= k < links.len() && (#[trigger] links[k]).from == id && links[k].role == role {
                let k = choose|k: int|
                    0 <= k < links.len() && (#[trigger] links[k]).from == id && links[k].role
                        == role;
                assert(rest[k] == links[k]);
            }
        }
    }
}

/// The records that resolved references to `id` come from are the children
/// that the references give it.
pub proof fn lemma_kids_in(links: Seq<Link>, id: u64, child: u64)
    ensures
        kids_in(links, id).contains(child) <==> links.contains(
            Link { from: child, role: Role::Father, to: id },
        ) || links.contains(Link { from: child, role: Role::Mother, to: id }),
    decreases links.len(),
{
    let as_father = Link { from: child, role: Role::Father, to: id };
    let as_mother = Link { from: child, role: Role::Mother, to: id };
    if links.len() > 0 {
        let rest = links.drop_last();
        let last = links.last();
        lemma_kids_in(rest, id, child);
        assert(rest.push(last) =~= links);
        lemma_contains_push(rest, last, as_father);
        lemma_contains_push(rest, last, as_mother);
        if last.to == id {
            let kids = kids_in(rest, id);
            assert(kids.push(last.from) =~= kids + seq![last.from]);
            if kids.push(last.from).contains(child) {
                let k = choose|k: int|
                    0 <= k < kids.push(last.from).len() && kids.push(last.from)[k] == child;
                if k < kids.len() {
                    assert(kids[k] == child);
                }
            }
            if kids.contains(child) {
                let k = choose|k: int| 0 <= k < kids.len() && kids[k] == child;
                assert(kids.push(last.from)[k] == child);
            }
            if last.from == child {
                assert(kids.push(last.from)[kids.len() as int] == child);
                assert(last == as_father || last == as_mother);
            }
        }
    }
}

/// What the registry of a document holds for one of its records.
///
/// The record stands under its identifier, with its type, name and units
/// as it entered. Its father and its mother are the relatives that the
/// resolved references from it name, and each is a record that it names
/// and that the document has. Its children are the records that the
/// resolved references to it come from.
pub proof fn lemma_relatives(records: Seq<Entity>, i: int)
    requires
        distinct_ids(records),
        fresh(records),
        0 <= i < records.len(),
    ensures
        resolve(records).registry.contains_key(records[i].id),
        resolve(records).registry[records[i].id] == (Entity {
            father: parent_in(resolved(records), records[i].id, Role::Father),
            mother: parent_in(resolved(records), records[i].id, Role::Mother),
            children: kids_in(resolved(records), records[i].id),
            ..records[i]
        }),
        resolve(records).registry[records[i].id].father matches Some(to) ==> kin(
            records,
            records[i],
            Role::Father,
        ) == Some(to),
        resolve(records).registry[records[i].id].mother matches Some(to) ==> kin(
            records,
            records[i],
            Role::Mother,
        ) == Some(to),
{
    let e = records[i];
    let links = resolved(records);
    lemma_resolve_holds(records);
    lemma_base_of(records);
    assert(base_of(records).contains_key(e.id));
    let got = resolve(records).registry[e.id];
    assert(got == linked(e, links));
    assert(e.children + kids_in(links, e.id) =~= kids_in(links, e.id));
    lemma_kin(records, i, Role::Father);
    lemma_kin(records, i, Role::Mother);
}

/// The relative that the resolved references give a record in a role is
/// the record that it names there, and the document has it. Where a record
/// names a record of the document and has no relative in that role, the
/// reference is left unresolved.
pub proof fn lemma_kin(records: Seq<Entity>, i: int, role: Role)
    requires
        distinct_ids(records),
        0 <= i < records.len(),
    ensures
        parent_in(resolved(records), records[i].id, role) matches Some(to) ==> kin(
            records,
            records[i],
            role,
        ) == Some(to),
        kin(records, records[i], role) matches Some(to) ==> parent_in(
            resolved(records),
            records[i].id,
            role,
        ) == Some(to) || resolve(records).unresolved.contains(
            Link { from: records[i].id, role, to },
        ),
{
    let e = records[i];
    let links = resolved(records);
    lemma_parent_in(links, e.id, role);
    if let Some(to) = parent_in(links, e.id, role) {
        let link = Link { from: e.id, role, to };
        lemma_resolved_unresolved(records, link);
        let j = choose|j: int|
            0 <= j < records.len() && link_of(#[trigger] records[j], link.role) == Some(link);
        assert(records[j].id == e.id);
        if j < i {
            assert(records[j].id != records[i].id);
        } else if i < j {
            assert(records[i].id != records[j].id);
        }
    }
    if let Some(to) = kin(records, e, role) {
        let link = Link { from: e.id, role, to };
        lemma_resolved_unresolved(records, link);
        assert(link_of(records[i], link.role) == Some(link));
        if links.contains(link) {
            let k = choose|k: int| 0 <= k < links.len() && links[k] == link;
            assert(links[k].from == e.id && links[k].role == role);
        }
    }
}

/// The children that the registry lists for a record are records that
/// name it as their father or as their mother.
pub proof fn lemma_children(records: Seq<Entity>, i: int, child: u64)
    requires
        distinct_ids(records),
        fresh(records),
        0 <= i < records.len(),
        resolve(records).registry[records[i].id].children.contains(child),
    ensures
        child_of(records, child, records[i].id),
{
    let parent = records[i].id;
    let links = resolved(records);
    let as_father = Link { from: child, role: Role::Father, to: parent };
    let as_mother = Link { from: child, role: Role::Mother, to: parent };
    lemma_relatives(records, i);
    lemma_kids_in(links, parent, child);
    lemma_resolved_unresolved(records, as_father);
    lemma_resolved_unresolved(records, as_mother);
    if made(records, as_father) && links.contains(as_father) {
        let j = choose|j: int|
            0 <= j < records.len() && link_of(#[trigger] records[j], Role::Father) == Some(as_father);
        assert(records[j].id == child && named(records[j], Role::Father) == Some(parent));
    } else {
        let j = choose|j: int|
            0 <= j < records.len() && link_of(#[trigger] records[j], Role::Mother) == Some(as_mother);
        assert(records[j].id == child && named(records[j], Role::Mother) == Some(parent));
    }
}

/// The registry of a document has one record for each record of the
/// document, under the identifier of that record.
pub proof fn lemma_registry_keys(records: Seq<Entity>)
    requires
        distinct_ids(records),
    ensures
        forall|id: u64| resolve(records).registry.contains_key(id) <==> has_id(records, id),
        resolve(records).registry.dom().finite(),
        resolve(records).registry.len() == records.len(),
{
    lemma_resolve_holds(records);
    lemma_base_of(records);
    lemma_ids_size(records);
}

/// A document without two equal identifiers has as many identifiers as
/// records.
pub proof fn lemma_ids_size(records: Seq<Entity>)
    requires
        distinct_ids(records),
    ensures
        ids(records).finite(),
        ids(records).len() == records.len(),
    decreases records.len(),
{
    if records.len() > 0 {
        let before = records.drop_last();
        let last = records.last();
        crate::registry::lemma_distinct_prefix(records, records.len() - 1);
        assert(records.take(records.len() - 1) =~= before);
        lemma_ids_size(before);
        lemma_base_of(before);
        if has_id(before, last.id) {
            let i = choose|i: int| 0 <= i < before.len() && (#[trigger] before[i]).id == last.id;
            assert(records[i].id == records[records.len() - 1].id);
        }
        assert(ids(records) =~= ids(before).insert(last.id));
    } else {
        assert(ids(records) =~= Set::<u64>::empty());
    }
}

/// The records that closed blocks become have no relative and no child
/// yet.
pub proof fn lemma_records_fresh(blocks: Seq<crate::tag::Node>)
    ensures
        fresh(crate::record::records_of(blocks)),
    decreases blocks.len(),
{
    if blocks.len() > 0 {
        lemma_records_fresh(blocks.drop_last());
        let made = crate::record::records_of(blocks);
        let before = crate::record::records_of(blocks.drop_last());
        assert forall|i: int| 0 <= i < made.len() implies (#[trigger] made[i]).father is None
            && made[i].mother is None && made[i].children.len() == 0 by {
            if i < before.len() {
                assert(made[i] == before[i]);
            }
        }
    }
}

} // verus!
