//! The entities of a document: what a closed reference block becomes.

use std::collections::HashSet;
use vstd::prelude::*;
use crate::number::{decimal_text, to_decimal};
use crate::tag::{nodes, Node, Tag};

verus! {

broadcast use vstd::std_specs::hash::group_hash_axioms;

/// The mathematical value of a [`Record`].
pub struct Entity {
    pub rtype: Seq<char>,
    pub id: u64,
    pub name: Seq<char>,
    pub father: Option<u64>,
    pub mother: Option<u64>,
    pub children: Seq<u64>,
    pub tags: Seq<Node>,
}

/// One entity of a document.
///
/// Father, mother and children are held as identifiers: the registry owns
/// every record, and a record names its relatives by their keys there.
#[derive(Debug, Clone, PartialEq, Eq)]
pub struct Record {
    /// The type code of the reference line that opened the block.
    pub rtype: String,
    /// The number of that reference line.
    pub id: u64,
    /// The display name: the content of the first `NAME` unit of the block.
    pub name: String,
    pub father: Option<u64>,
    pub mother: Option<u64>,
    pub children: Vec<u64>,
    /// The units nested in the block, in document order.
    pub tags: Vec<Tag>,
}

impl View for Record {
    type V = Entity;

    open spec fn view(&self) -> Entity {
        Entity {
            rtype: self.rtype@,
            id: self.id,
            name: self.name@,
            father: self.father,
            mother: self.mother,
            children: self.children@,
            tags: nodes(self.tags@),
        }
    }
}

/// The values of a sequence of records.
pub open spec fn entities(records: Seq<Record>) -> Seq<Entity> {
    records.map_values(|r: Record| r@)
}

/// The first of `tags` that has the given name, if there is one.
pub open spec fn first_named(tags: Seq<Node>, name: Seq<char>) -> Option<Node>
    decreases tags.len(),
{
    if tags.len() == 0 {
        None
    } else if tags[0].name == name {
        Some(tags[0])
    } else {
        first_named(tags.skip(1), name)
    }
}

/// The content of the first of `tags` that has the given name; nothing where
/// no unit has that name or the first that has it is without content.
pub open spec fn content_of(tags: Seq<Node>, name: Seq<char>) -> Option<Seq<char>> {
    match first_named(tags, name) {
        Some(node) => node.content,
        None => None,
    }
}

/// The display name that a block's nested units give: the content of the
/// first `NAME` unit, or the empty text.
pub open spec fn display_name(tags: Seq<Node>) -> Seq<char> {
    match content_of(tags, "NAME"@) {
        Some(name) => name,
        None => Seq::empty(),
    }
}

/// The type code in the name of a reference unit: the name without the
/// digits of the number at its end.
pub open spec fn type_code(name: Seq<char>, id: u64) -> Seq<char> {
    let digits = decimal_text(id as nat).len();
    if name.len() >= digits {
        name.take(name.len() - digits)
    } else {
        Seq::empty()
    }
}

/// The type code is found again in a name made of it and the digits of the
/// number.
pub proof fn lemma_type_code(rtype: Seq<char>, id: u64)
    ensures
        type_code(rtype + decimal_text(id as nat), id) == rtype,
{
    assert((rtype + decimal_text(id as nat)).take(rtype.len() as int) =~= rtype);
}

/// The record that a closed reference block becomes, before any reference
/// to a relative is resolved.
pub open spec fn record_of(unit: Node) -> Entity
    recommends
        unit.id is Some,
{
    Entity {
        rtype: type_code(unit.name, unit.id.unwrap()),
        id: unit.id.unwrap(),
        name: display_name(unit.nested),
        father: None,
        mother: None,
        children: Seq::empty(),
        tags: unit.nested,
    }
}

/// The records of a sequence of closed blocks: one for each block that a
/// reference line opened, in document order.
pub open spec fn records_of(blocks: Seq<Node>) -> Seq<Entity>
    decreases blocks.len(),
{
    if blocks.len() == 0 {
        Seq::empty()
    } else if blocks.last().id is Some {
        records_of(blocks.drop_last()).push(record_of(blocks.last()))
    } else {
        records_of(blocks.drop_last())
    }
}

/// Whether no two records have the same identifier.
pub open spec fn distinct_ids(records: Seq<Entity>) -> bool {
    forall|i: int, j: int|
        0 <= i < j < records.len() ==> (#[trigger] records[i]).id != (#[trigger] records[j]).id
}

/// The message of the failure on a second record with an identifier.
pub open spec fn duplicate_identifier() -> Seq<char> {
    "duplicate identifier"@
}

/// Whether two texts are equal.
pub fn same_text(a: &str, b: &str) -> (same: bool)
    ensures
        same == (a@ == b@),
{
    let left = a.to_owned();
    let right = b.to_owned();
    left == right
}

/// The content of the first of `tags` that has the given name.
pub fn find_content<'a>(tags: &'a Vec<Tag>, name: &str) -> (found: Option<&'a String>)
    ensures
        match found {
            Some(content) => content_of(nodes(tags@), name@) == Some(content@),
            None => content_of(nodes(tags@), name@) is None,
        },
{
    let mut i: usize = 0;
    assert(nodes(tags@).skip(0) =~= nodes(tags@));
    while i < tags.len()
        invariant
            i <= tags.len(),
            first_named(nodes(tags@), name@) == first_named(nodes(tags@).skip(i as int), name@),
        decreases tags.len() - i,
    {
        let tag = &tags[i];
        proof {
            crate::tag::lemma_nested_view(*tag);
            assert(nodes(tags@).skip(i as int)[0] == tag@);
            assert(nodes(tags@).skip(i as int).skip(1) =~= nodes(tags@).skip(i as int + 1));
        }
        if same_text(tag.name.as_str(), name) {
            return match &tag.content {
                Some(content) => Some(content),
                None => None,
            };
        }
        i = i + 1;
    }
    None
}

impl Default for Record {
    /// A record without type, name, relatives or units, with the identifier
    /// 0.
    fn default() -> (record: Record)
        ensures
            record@ == (Entity {
                rtype: Seq::empty(),
                id: 0,
                name: Seq::empty(),
                father: None,
                mother: None,
                children: Seq::empty(),
                tags: Seq::empty(),
            }),
    {
        let tags: Vec<Tag> = Vec::new();
        assert(nodes(tags@) =~= Seq::<Node>::empty());
        Record {
            rtype: String::new(),
            id: 0,
            name: String::new(),
            father: None,
            mother: None,
            children: Vec::new(),
            tags,
        }
    }
}

impl Record {
    /// The record that a closed block becomes, if a reference line opened
    /// the block.
    pub fn from_unit(unit: Tag) -> (record: Option<Record>)
        ensures
            match record {
                Some(r) => unit@.id is Some && r@ == record_of(unit@),
                None => unit@.id is None,
            },
    {
        proof {
            crate::tag::lemma_nested_view(unit);
        }
        let Tag { name, content: _, nested, id } = unit;
        match id {
            None => None,
            Some(id) => {
                let shown = match find_content(&nested, "NAME") {
                    Some(text) => text.clone(),
                    None => String::new(),
                };
                let digits = to_decimal(id).as_str().unicode_len();
                let length = name.as_str().unicode_len();
                let rtype = if length >= digits {
                    name.as_str().substring_char(0, length - digits).to_owned()
                } else {
                    String::new()
                };
                Some(
                    Record {
                        rtype,
                        id,
                        name: shown,
                        father: None,
                        mother: None,
                        children: Vec::new(),
                        tags: nested,
                    },
                )
            },
        }
    }
}

/// The records of a sequence of closed blocks, in document order.
pub fn records(blocks: Vec<Tag>) -> (made: Vec<Record>)
    ensures
        entities(made@) == records_of(nodes(blocks@)),
{
    let mut made: Vec<Record> = Vec::new();
    let ghost all = blocks@;
    for block in it: blocks
        invariant
            it.seq() == all,
            entities(made@) == records_of(nodes(all.take(it.index() as int))),
    {
        let ghost before = entities(made@);
        proof {
            let upto = nodes(all.take(it.index() as int + 1));
            assert(upto.drop_last() =~= nodes(all.take(it.index() as int)));
            assert(upto.last() == block@);
        }
        match Record::from_unit(block) {
            Some(record) => {
                made.push(record);
                assert(entities(made@) =~= before.push(record@));
            },
            None => {},
        }
    }
    assert(all.take(all.len() as int) =~= all);
    made
}

/// Whether no two of the records have the same identifier.
pub fn distinct(records: &Vec<Record>) -> (yes: bool)
    ensures
        yes == distinct_ids(entities(records@)),
{
    let mut seen: HashSet<u64> = HashSet::new();
    let mut i: usize = 0;
    let ghost all = entities(records@);
    while i < records.len()
        invariant
            i <= records.len(),
            all == entities(records@),
            distinct_ids(all.take(i as int)),
            forall|id: u64| seen@.contains(id) <==> exists|j: int| 0 <= j < i && (#[trigger] all[j]).id == id,
        decreases records.len() - i,
    {
        let id = records[i].id;
        assert(all[i as int].id == id);
        let fresh = seen.insert(id);
        if !fresh {
            proof {
                let j = choose|j: int| 0 <= j < i && (#[trigger] all[j]).id == id;
                assert(all[j].id == all[i as int].id);
            }
            return false;
        }
        assert forall|a: int, b: int| 0 <= a < b < i + 1 implies (#[trigger] all.take(i + 1)[a]).id
            != (#[trigger] all.take(i + 1)[b]).id by {
            if b < i {
                assert(all.take(i as int)[a].id != all.take(i as int)[b].id);
            } else {
                assert(all[a].id == all.take(i + 1)[a].id);
            }
        }
        i = i + 1;
    }
    assert(all.take(records.len() as int) =~= all);
    true
}

} // verus!
