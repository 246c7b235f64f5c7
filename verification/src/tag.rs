//! Units of the document tree and the folding of a stack of open units.

use vstd::prelude::*;

verus! {

/// The mathematical value of a [`Tag`]: a name, an optional content, the
/// nested units in document order and, for a unit that a reference line
/// opened, the identifier that the line gave.
pub struct Node {
    pub name: Seq<char>,
    pub content: Option<Seq<char>>,
    pub nested: Seq<Node>,
    pub id: Option<u64>,
}

/// One unit of the document tree.
///
/// A unit opened by a data line has the line's tag as its name and no
/// identifier. A unit opened by a reference line has the line's type code as
/// its name and the line's number as its identifier.
#[derive(Debug, PartialEq, Eq)]
pub struct Tag {
    pub name: String,
    pub content: Option<String>,
    pub nested: Vec<Tag>,
    pub id: Option<u64>,
}

/// The stack of units that are still open, the outermost first. The unit at
/// index `i` was opened at level `i`.
pub type TagStack = Vec<Tag>;

/// The view of an optional string.
pub open spec fn text(content: Option<String>) -> Option<Seq<char>> {
    match content {
        Some(s) => Some(s@),
        None => None,
    }
}

/// The values of a sequence of units.
pub open spec fn nodes(tags: Seq<Tag>) -> Seq<Node> {
    tags.map_values(|t: Tag| t@)
}

/// The value of a unit, by recursion over what is nested in it.
pub open spec fn node_of(t: Tag) -> Node
    decreases t,
{
    Node {
        name: t.name@,
        content: text(t.content),
        nested: Seq::new(
            t.nested@.len(),
            |i: int|
                if 0 <= i < t.nested@.len() {
                    node_of(t.nested@[i])
                } else {
                    arbitrary()
                },
        ),
        id: t.id,
    }
}

impl View for Tag {
    type V = Node;

    open spec fn view(&self) -> Node {
        node_of(*self)
    }
}

/// A unit with the given name and content, nothing nested, no identifier.
pub open spec fn leaf(name: Seq<char>, content: Option<Seq<char>>) -> Node {
    Node { name, content, nested: Seq::empty(), id: None }
}

/// `parent` with `child` appended as its last nested unit.
pub open spec fn nest_node(parent: Node, child: Node) -> Node {
    Node { nested: parent.nested.push(child), ..parent }
}

/// The nested units of a tag are the values of its `nested` field.
pub proof fn lemma_nested_view(t: Tag)
    ensures
        t@.nested == nodes(t.nested@),
        t@.name == t.name@,
        t@.content == text(t.content),
        t@.id == t.id,
{
    assert(t@.nested.len() == t.nested@.len());
    assert forall|i: int| 0 <= i < t.nested@.len() implies t@.nested[i] == nodes(t.nested@)[i] by {
        assert(nodes(t.nested@)[i] == t.nested@[i]@);
    }
    assert(t@.nested =~= nodes(t.nested@));
}

impl Default for Tag {
    fn default() -> (tag: Tag)
        ensures
            tag@ == leaf(Seq::empty(), None),
    {
        let tag = Tag { name: String::new(), content: None, nested: Vec::new(), id: None };
        proof {
            lemma_nested_view(tag);
            assert(tag@.nested =~= Seq::<Node>::empty());
        }
        tag
    }
}

impl Clone for Tag {
    fn clone(&self) -> (copy: Tag)
        ensures
            copy@ == self@,
        decreases self,
    {
        let mut nested: Vec<Tag> = Vec::new();
        let mut i: usize = 0;
        while i < self.nested.len()
            invariant
                i <= self.nested.len(),
                nodes(nested@) == nodes(self.nested@).take(i as int),
            decreases self.nested.len() - i,
        {
            let child = self.nested[i].clone();
            let ghost before = nodes(nested@);
            nested.push(child);
            assert(nodes(nested@) =~= before.push(child@));
            assert(nodes(self.nested@).take(i as int + 1) =~= nodes(self.nested@).take(i as int).push(
                self.nested@[i as int]@,
            ));
            i = i + 1;
        }
        let content = match &self.content {
            Some(text) => Some(text.clone()),
            None => None,
        };
        let copy = Tag { name: self.name.clone(), content, nested, id: self.id };
        proof {
            lemma_nested_view(copy);
            lemma_nested_view(*self);
            assert(nodes(self.nested@).take(self.nested@.len() as int) =~= nodes(self.nested@));
        }
        copy
    }
}

impl Tag {
    /// A unit opened by a data line.
    pub fn new(name: &str, content: Option<&str>) -> (tag: Tag)
        ensures
            tag@ == leaf(
                name@,
                match content {
                    Some(c) => Some(c@),
                    None => None,
                },
            ),
    {
        let owned: Option<String> = match content {
            Some(c) => Some(c.to_owned()),
            None => None,
        };
        let tag = Tag { name: name.to_owned(), content: owned, nested: Vec::new(), id: None };
        proof {
            lemma_nested_view(tag);
            assert(tag@.nested =~= Seq::<Node>::empty());
        }
        tag
    }

    /// Appends `child` as the last nested unit.
    pub fn nest(self, child: Tag) -> (tag: Tag)
        ensures
            tag@ == nest_node(self@, child@),
    {
        let Tag { name, content, nested, id } = self;
        let mut nested = nested;
        nested.push(child);
        let tag = Tag { name, content, nested, id };
        proof {
            lemma_nested_view(tag);
            lemma_nested_view(self);
            assert(tag@.nested =~= self@.nested.push(child@));
        }
        tag
    }
}

/// The unit that a stack of open units folds into: the outermost unit, with
/// the fold of the units above it appended as its last nested unit.
pub open spec fn chain(stack: Seq<Node>) -> Node
    recommends
        stack.len() > 0,
    decreases stack.len(),
{
    if stack.len() <= 1 {
        stack[0]
    } else {
        nest_node(stack[0], chain(stack.skip(1)))
    }
}

/// The result of folding a whole stack: nothing for an empty stack.
pub open spec fn fold_all(stack: Seq<Node>) -> Option<Node> {
    if stack.len() == 0 {
        None
    } else {
        Some(chain(stack))
    }
}

/// The stack after the units from index `pos` on have been folded into one
/// unit, which then stands at index `pos`. A `pos` beyond the last unit
/// changes nothing.
pub open spec fn fold_from(stack: Seq<Node>, pos: int) -> Seq<Node> {
    if 0 <= pos < stack.len() {
        stack.take(pos).push(chain(stack.skip(pos)))
    } else {
        stack
    }
}

/// Folding the two innermost units first does not change what a stack folds
/// into.
pub proof fn lemma_chain_innermost(stack: Seq<Node>, parent: Node, child: Node)
    ensures
        chain(stack.push(parent).push(child)) == chain(stack.push(nest_node(parent, child))),
    decreases stack.len(),
{
    let long = stack.push(parent).push(child);
    let short = stack.push(nest_node(parent, child));
    if stack.len() == 0 {
        assert(long.skip(1) =~= seq![child]);
        assert(chain(long.skip(1)) == child);
    } else {
        let rest = stack.skip(1);
        assert(long.skip(1) =~= rest.push(parent).push(child));
        assert(short.skip(1) =~= rest.push(nest_node(parent, child)));
        lemma_chain_innermost(rest, parent, child);
    }
}

/// The values of a stretch of units are that stretch of the values.
pub proof fn lemma_nodes_subrange(tags: Seq<Tag>, from: int, to: int)
    requires
        0 <= from <= to <= tags.len(),
    ensures
        nodes(tags.subrange(from, to)) == nodes(tags).subrange(from, to),
{
    assert(nodes(tags.subrange(from, to)) =~= nodes(tags).subrange(from, to));
}

/// Folds a whole stack into one unit: each unit becomes the last nested unit
/// of the one below it, the innermost first.
pub fn fold_stack(stack: TagStack) -> (folded: Option<Tag>)
    ensures
        match folded {
            Some(tag) => fold_all(nodes(stack@)) == Some(tag@),
            None => fold_all(nodes(stack@)) is None,
        },
{
    let mut rest = stack;
    match rest.pop() {
        None => None,
        Some(last) => {
            let mut folded = last;
            assert(nodes(stack@) =~= nodes(rest@).push(folded@));
            while rest.len() > 0
                invariant
                    chain(nodes(stack@)) == chain(nodes(rest@).push(folded@)),
                decreases rest.len(),
            {
                let ghost before = nodes(rest@);
                let child = folded;
                let parent = rest.pop().unwrap();
                proof {
                    assert(before =~= nodes(rest@).push(parent@));
                    lemma_chain_innermost(nodes(rest@), parent@, child@);
                }
                folded = parent.nest(child);
            }
            assert(nodes(rest@).push(folded@) =~= seq![folded@]);
            Some(folded)
        },
    }
}

/// Folds the units from index `pos` on into one unit and leaves it on the
/// stack in their place.
pub fn fold_stack_lvl(stack: &mut TagStack, pos: usize)
    ensures
        nodes(final(stack)@) == fold_from(nodes(old(stack)@), pos as int),
{
    if pos < stack.len() {
        let tail = stack.split_off(pos);
        proof {
            lemma_nodes_subrange(old(stack)@, 0, pos as int);
            lemma_nodes_subrange(old(stack)@, pos as int, old(stack)@.len() as int);
        }
        let ghost kept = nodes(stack@);
        match fold_stack(tail) {
            Some(unit) => {
                stack.push(unit);
                assert(nodes(stack@) =~= kept.push(unit@));
            },
            None => {},
        }
    }
}

} // verus!
