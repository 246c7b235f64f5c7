//! No record of a registry is its own ancestor.

use vstd::prelude::*;
use crate::record::{distinct_ids, Entity};
use crate::registry::{
    accepts, connect, descends, enter_all, lemma_enter_all_domain, lemma_reaches_more,
    lemma_reaches_on, link_of, reaches, reaches_over, resolve, settle, settle_all, settle_if,
    settled, Link, Resolution, Role,
};

verus! {

/// Whether no record has a relative or a child yet.
pub open spec fn fresh(records: Seq<Entity>) -> bool {
    forall|i: int|
        0 <= i < records.len() ==> (#[trigger] records[i]).father is None && records[i].mother is None
            && records[i].children.len() == 0
}

/// Whether a record is reached from its father or from its mother in at
/// most `steps` steps: whether it is its own ancestor that near.
pub open spec fn comes_back(registry: Map<u64, Entity>, id: u64, steps: nat) -> bool {
    registry.contains_key(id) && (reaches_over(registry, registry[id].father, id, steps)
        || reaches_over(registry, registry[id].mother, id, steps))
}

/// Whether no record of the registry is its own ancestor.
pub open spec fn acyclic(registry: Map<u64, Entity>) -> bool {
    forall|id: u64, steps: nat| !comes_back(registry, id, steps)
}

/// Whether a relative, where there is one, stands in the registry.
pub open spec fn known(registry: Map<u64, Entity>, relative: Option<u64>) -> bool {
    relative matches Some(id) ==> registry.contains_key(id)
}

/// Whether the father and the mother of every record stand in the
/// registry.
pub open spec fn complete(registry: Map<u64, Entity>) -> bool {
    forall|id: u64| #[trigger]
        registry.contains_key(id) ==> known(registry, registry[id].father) && known(
            registry,
            registry[id].mother,
        )
}

/// Whether two registries hold the same records and give each but `but`
/// the same father and mother.
pub open spec fn same_but(first: Map<u64, Entity>, second: Map<u64, Entity>, but: u64) -> bool {
    &&& first.dom() == second.dom()
    &&& forall|id: u64| #[trigger]
        first.contains_key(id) && id != but ==> first[id].father == second[id].father
            && first[id].mother == second[id].mother
}

/// Whether a record is reached does not depend on its own father and
/// mother.
pub proof fn lemma_same_to(
    first: Map<u64, Entity>,
    second: Map<u64, Entity>,
    from: u64,
    to: u64,
    steps: nat,
)
    requires
        same_but(first, second, to),
    ensures
        reaches(second, from, to, steps) == reaches(first, from, to, steps),
    decreases steps,
{
    if from != to && steps > 0 && first.contains_key(from) {
        assert(second.contains_key(from));
        let e = first[from];
        assert(second[from].father == e.father && second[from].mother == e.mother);
        let less = (steps - 1) as nat;
        if let Some(f) = e.father {
            lemma_same_to(first, second, f, to, less);
        }
        if let Some(m) = e.mother {
            lemma_same_to(first, second, m, to, less);
        }
    } else if from != to && steps > 0 {
        assert(!second.contains_key(from));
    }
}

/// Where one record has another father or mother, what is reached is
/// reached as before, or over that record.
pub proof fn lemma_over(
    first: Map<u64, Entity>,
    second: Map<u64, Entity>,
    but: u64,
    from: u64,
    to: u64,
    steps: nat,
)
    requires
        same_but(first, second, but),
        reaches(second, from, to, steps),
    ensures
        reaches(first, from, to, steps) || (reaches(first, from, but, steps) && reaches(
            second,
            but,
            to,
            steps,
        )),
    decreases steps,
{
    if from != to && from != but {
        assert(first.contains_key(from));
        let e = first[from];
        assert(second[from].father == e.father && second[from].mother == e.mother);
        let less = (steps - 1) as nat;
        let over = if reaches_over(second, e.father, to, less) {
            e.father.unwrap()
        } else {
            e.mother.unwrap()
        };
        lemma_over(first, second, but, over, to, less);
        if reaches(first, over, to, less) {
        } else {
            lemma_reaches_more(second, but, to, less, steps);
        }
    }
}

/// The record that a resolved reference comes from is not reached from its
/// father or from its mother.
pub proof fn lemma_no_way_back(registry: Map<u64, Entity>, link: Link, steps: nat)
    requires
        acyclic(registry),
        registry.contains_key(link.from),
        accepts(registry, link),
    ensures
        !comes_back(connect(registry, link), link.from, steps),
{
    let after = connect(registry, link);
    lemma_connect_same(registry, link);
    let e = registry[link.from];
    assert(!comes_back(registry, link.from, steps));
    assert(!reaches(registry, link.to, link.from, steps));
    if let Some(f) = after[link.from].father {
        lemma_same_to(registry, after, f, link.from, steps);
    }
    if let Some(m) = after[link.from].mother {
        lemma_same_to(registry, after, m, link.from, steps);
    }
}

/// Resolving a reference changes the father or the mother of the record
/// that it comes from, and of no other.
pub proof fn lemma_connect_same(registry: Map<u64, Entity>, link: Link)
    requires
        registry.contains_key(link.from),
        accepts(registry, link),
    ensures
        same_but(registry, connect(registry, link), link.from),
        link.from != link.to,
        connect(registry, link)[link.from].father == (if link.role == Role::Father {
            Some(link.to)
        } else {
            registry[link.from].father
        }),
        connect(registry, link)[link.from].mother == (if link.role == Role::Mother {
            Some(link.to)
        } else {
            registry[link.from].mother
        }),
{
    assert(reaches(registry, link.to, link.to, 0));
    assert(connect(registry, link).dom() =~= registry.dom());
}

/// Resolving a reference that the registry accepts makes no record its own
/// ancestor.
pub proof fn lemma_connect_acyclic(registry: Map<u64, Entity>, link: Link)
    requires
        acyclic(registry),
        complete(registry),
        registry.contains_key(link.from),
        accepts(registry, link),
    ensures
        acyclic(connect(registry, link)),
        complete(connect(registry, link)),
        connect(registry, link).dom() == registry.dom(),
{
    let after = connect(registry, link);
    lemma_connect_same(registry, link);
    assert forall|id: u64, steps: nat| !comes_back(after, id, steps) by {
        if comes_back(after, id, steps) {
            if id == link.from {
                lemma_no_way_back(registry, link, steps);
            } else {
                let e = registry[id];
                assert(after[id].father == e.father && after[id].mother == e.mother);
                let over = if reaches_over(after, e.father, id, steps) {
                    e.father.unwrap()
                } else {
                    e.mother.unwrap()
                };
                lemma_over(registry, after, link.from, over, id, steps);
                assert(!comes_back(registry, id, steps));
                // the way back to the record leads over the record that the
                // reference comes from, which is then its own ancestor
                assert(reaches(registry, over, link.from, steps) && reaches(
                    after,
                    link.from,
                    id,
                    steps,
                ));
                assert(reaches(registry, id, link.from, steps + 1));
                lemma_same_to(registry, after, id, link.from, steps + 1);
                let from = after[link.from];
                let next = if reaches_over(after, from.father, id, (steps - 1) as nat) {
                    from.father.unwrap()
                } else {
                    from.mother.unwrap()
                };
                lemma_reaches_on(after, next, id, link.from, (steps - 1) as nat, steps + 1);
                assert(comes_back(after, link.from, ((steps - 1) as nat) + steps + 1));
                lemma_no_way_back(registry, link, ((steps - 1) as nat) + steps + 1);
            }
        }
    }
    assert forall|id: u64| #[trigger] after.contains_key(id) implies known(after, after[id].father)
        && known(after, after[id].mother) by {
        assert(registry.contains_key(id));
        assert(known(registry, registry[id].father) && known(registry, registry[id].mother));
    }
}

/// In a registry with one more record, what is reached from a record that
/// stood in it before is reached as before.
pub proof fn lemma_same_inside(
    registry: Map<u64, Entity>,
    e: Entity,
    from: u64,
    to: u64,
    steps: nat,
)
    requires
        complete(registry),
        !registry.contains_key(e.id),
        registry.contains_key(from),
    ensures
        reaches(registry.insert(e.id, e), from, to, steps) == reaches(registry, from, to, steps),
    decreases steps,
{
    if from != to && steps > 0 {
        let grown = registry.insert(e.id, e);
        let at = registry[from];
        assert(grown[from] == at);
        assert(known(registry, at.father) && known(registry, at.mother));
        let less = (steps - 1) as nat;
        if let Some(f) = at.father {
            lemma_same_inside(registry, e, f, to, less);
        }
        if let Some(m) = at.mother {
            lemma_same_inside(registry, e, m, to, less);
        }
    }
}

/// A record without father and mother enters without making a record its
/// own ancestor.
pub proof fn lemma_insert_acyclic(registry: Map<u64, Entity>, e: Entity)
    requires
        acyclic(registry),
        complete(registry),
        !registry.contains_key(e.id),
        e.father is None,
        e.mother is None,
    ensures
        acyclic(registry.insert(e.id, e)),
        complete(registry.insert(e.id, e)),
{
    let grown = registry.insert(e.id, e);
    assert forall|id: u64, steps: nat| !comes_back(grown, id, steps) by {
        if id != e.id && grown.contains_key(id) {
            let at = registry[id];
            assert(known(registry, at.father) && known(registry, at.mother));
            assert(!comes_back(registry, id, steps));
            if let Some(f) = at.father {
                lemma_same_inside(registry, e, f, id, steps);
            }
            if let Some(m) = at.mother {
                lemma_same_inside(registry, e, m, id, steps);
            }
        }
    }
    assert forall|id: u64| #[trigger] grown.contains_key(id) implies known(grown, grown[id].father)
        && known(grown, grown[id].mother) by {
        if id != e.id {
            assert(known(registry, registry[id].father) && known(registry, registry[id].mother));
        }
    }
}

/// An attempt at a reference makes no record its own ancestor.
pub proof fn lemma_settle_acyclic(r: Resolution, link: Link)
    requires
        acyclic(r.registry),
        complete(r.registry),
        r.registry.contains_key(link.from),
    ensures
        acyclic(settle(r, link).registry),
        complete(settle(r, link).registry),
        settle(r, link).registry.dom() == r.registry.dom(),
{
    if accepts(r.registry, link) {
        lemma_connect_acyclic(r.registry, link);
    }
}

/// The attempts at references from records of the registry make no record
/// its own ancestor.
pub proof fn lemma_settle_all_acyclic(r: Resolution, links: Seq<Link>)
    requires
        acyclic(r.registry),
        complete(r.registry),
        forall|k: int| 0 <= k < links.len() ==> r.registry.contains_key((#[trigger] links[k]).from),
    ensures
        acyclic(settle_all(r, links).registry),
        complete(settle_all(r, links).registry),
        settle_all(r, links).registry.dom() == r.registry.dom(),
    decreases links.len(),
{
    if links.len() > 0 {
        let rest = links.drop_last();
        assert forall|k: int| 0 <= k < rest.len() implies r.registry.contains_key(
            (#[trigger] rest[k]).from,
        ) by {
            assert(rest[k] == links[k]);
        }
        lemma_settle_all_acyclic(r, rest);
        assert(r.registry.contains_key(links[links.len() - 1].from));
        lemma_settle_acyclic(settle_all(r, rest), links.last());
    }
}

/// After the records of a document have entered, no record is its own
/// ancestor.
pub proof fn lemma_enter_all_acyclic(records: Seq<Entity>)
    requires
        distinct_ids(records),
        fresh(records),
    ensures
        acyclic(enter_all(records).registry),
        complete(enter_all(records).registry),
    decreases records.len(),
{
    if records.len() > 0 {
        let before = records.drop_last();
        let last = records.last();
        crate::registry::lemma_distinct_prefix(records, records.len() - 1);
        assert(records.take(records.len() - 1) =~= before);
        assert forall|i: int| 0 <= i < before.len() implies (#[trigger] before[i]).father is None
            && before[i].mother is None && before[i].children.len() == 0 by {
            assert(before[i] == records[i]);
        }
        lemma_enter_all_acyclic(before);
        lemma_enter_all_domain(before);
        let r0 = enter_all(before);
        if r0.registry.contains_key(last.id) {
            let i = choose|i: int| 0 <= i < before.len() && (#[trigger] before[i]).id == last.id;
            assert(records[i].id == records[records.len() - 1].id);
        }
        assert(records[records.len() - 1] == last);
        lemma_insert_acyclic(r0.registry, last);
        let inserted = Resolution {
            registry: r0.registry.insert(last.id, last),
            unresolved: r0.unresolved,
        };
        let father = link_of(last, Role::Father);
        if let Some(l) = father {
            lemma_settle_acyclic(inserted, l);
        }
        let r1 = settle_if(inserted, father);
        if let Some(l) = link_of(last, Role::Mother) {
            lemma_settle_acyclic(r1, l);
        }
    }
}

/// In the registry of a document no record is its own ancestor: from no
/// record does a way over fathers and mothers lead back to it. A record
/// is therefore not its own father or mother, and no two records are each
/// the other's.
pub proof fn lemma_resolve_acyclic(records: Seq<Entity>)
    requires
        distinct_ids(records),
        fresh(records),
    ensures
        acyclic(resolve(records).registry),
        forall|id: u64| #[trigger]
            resolve(records).registry.contains_key(id) ==> resolve(records).registry[id].father
                != Some(id) && resolve(records).registry[id].mother != Some(id),
{
    lemma_enter_all_acyclic(records);
    lemma_enter_all_domain(records);
    let first = enter_all(records);
    lemma_settle_all_acyclic(settled(first.registry), first.unresolved);
    let registry = resolve(records).registry;
    assert forall|id: u64| #[trigger] registry.contains_key(id) implies registry[id].father != Some(
        id,
    ) && registry[id].mother != Some(id) by {
        assert(!comes_back(registry, id, 0));
        assert(reaches(registry, id, id, 0));
    }
}

} // verus!
