//! A tree whose nodes are addressed by identifier.
//!
//! A [`Syntree`] owns its children, and they own theirs. A node is created
//! on its own with [`Syntree::new`] and becomes part of a tree when it is
//! handed to [`Syntree::push_node`], [`Syntree::prepend_node`] or
//! [`Syntree::insert_node`], which look the parent up by its identifier.
//! Where the parent is missing, or the position is beyond the parent's
//! children, the call returns a message and the tree is as it was.

use crate::model::{lemma_first_holding_is, Tree};
use crate::text::{compose, decimal, decimal_text, layout};
use vstd::prelude::*;
use vstd::string::StringExecFns;

verus! {

/// The key by which a node is addressed. The tree does not keep identifiers
/// unique; among several nodes with one identifier the first in pre-order
/// is the one addressed.
#[derive(Clone, Copy, Debug, PartialEq, Structural)]
pub struct ID(pub usize);

impl Default for ID {
    /// The identifier zero.
    fn default() -> (id: ID)
        ensures
            id == ID(0),
    {
        ID(0)
    }
}

/// What `push_node` reports when no node has the parent's identifier.
pub open spec fn parent_not_found_on_append() -> Seq<char> {
    "Parent node does not exist, cannot append."@
}

/// What `prepend_node` reports when no node has the parent's identifier.
pub open spec fn parent_not_found_on_prepend() -> Seq<char> {
    "Parent node does not exist, cannot prepend."@
}

/// What `insert_node` reports when no node has the parent's identifier.
pub open spec fn parent_not_found_on_insert(index: usize) -> Seq<char> {
    "Parent node does not exist, cannot insert at index "@ + decimal(index as nat) + "."@
}

/// What `insert_node` reports when the parent has fewer than `index`
/// children.
pub open spec fn index_out_of_range(index: usize) -> Seq<char> {
    "Index out of range, cannot insert at index "@ + decimal(index as nat) + "."@
}

/// A node with its identifier, its payload and the children that it owns, in
/// order. Its view is the [`Tree`] that it stands for.
#[derive(Debug, PartialEq)]
pub struct Syntree<T> {
    id: ID,
    value: T,
    children: Vec<Syntree<T>>,
}

impl<T> View for Syntree<T> {
    type V = Tree<T>;

    closed spec fn view(&self) -> Tree<T> {
        self.model()
    }
}

impl<T> Syntree<T> {
    /// The tree that the node stands for: its own fields, and the trees of
    /// its children.
    spec fn model(&self) -> Tree<T>
        decreases self,
    {
        Tree {
            id: self.id,
            value: self.value,
            children: Seq::new(
                self.children@.len(),
                |i: int|
                    if 0 <= i < self.children@.len() {
                        self.children@[i].model()
                    } else {
                        arbitrary()
                    },
            ),
        }
    }

    /// The view of a node, field by field.
    proof fn lemma_view(&self)
        ensures
            self@.id == self.id,
            self@.value == self.value,
            self@.children.len() == self.children@.len(),
            forall|i: int|
                0 <= i < self.children@.len() ==> self@.children[i] == (
                #[trigger] self.children@[i])@,
    {
    }

    /// A node without children.
    pub fn new(value: T, id: ID) -> (node: Syntree<T>)
        ensures
            node@ == Tree::leaf(id, value),
    {
        let node = Syntree { id, value, children: Vec::new() };
        proof {
            node.lemma_view();
            assert(node@.children =~= Seq::empty());
        }
        node
    }

    /// The identifier of the node.
    pub fn id(&self) -> (id: ID)
        ensures
            id == self@.id,
    {
        proof {
            self.lemma_view();
        }
        self.id
    }

    /// The payload of the node.
    pub fn value(&self) -> (value: &T)
        ensures
            *value == self@.value,
    {
        proof {
            self.lemma_view();
        }
        &self.value
    }

    /// The children of the node, in order.
    pub fn children(&self) -> (children: &Vec<Syntree<T>>)
        ensures
            children@.len() == self@.children.len(),
            forall|i: int| 0 <= i < children@.len() ==> (#[trigger] children@[i])@ == self@.children[i],
    {
        proof {
            self.lemma_view();
        }
        &self.children
    }

    /// The first node with identifier `id` in pre-order, or `None` if the
    /// tree has no node with that identifier.
    pub fn seek_node(&self, id: &ID) -> (found: Option<&Syntree<T>>)
        ensures
            found is Some <==> self@.contains(*id),
            found matches Some(node) ==> node@.id == *id,
            match found {
                Some(node) => self@.find(*id) == Some(node@),
                None => self@.find(*id) is None,
            },
        decreases self,
    {
        proof {
            self.lemma_view();
            self@.lemma_find(*id);
        }
        if self.id == *id {
            Some(self)
        } else {
            let mut i: usize = 0;
            while i < self.children.len()
                invariant
                    i <= self.children.len(),
                    self@.children.len() == self.children@.len(),
                    forall|j: int|
                        0 <= j < self.children@.len() ==> self@.children[j] == (
                        #[trigger] self.children@[j])@,
                    forall|j: int| 0 <= j < i ==> !(#[trigger] self@.children[j]).contains(*id),
                    self@.id != *id,
                    self@.find(*id) is Some <==> self@.contains(*id),
                    self@.find(*id) matches Some(node) ==> node.id == *id,
                decreases self.children.len() - i,
            {
                if let Some(found) = self.children[i].seek_node(id) {
                    proof {
                        lemma_first_holding_is(self@.children, *id, 0, i as nat);
                    }
                    return Some(found);
                }
                i += 1;
            }
            proof {
                lemma_first_holding_is(self@.children, *id, 0, i as nat);
            }
            None
        }
    }

    /// The first node with identifier `id` in pre-order, for changing it, or
    /// `None` if the tree has no node with that identifier. Whatever the
    /// caller makes of the node takes its place in the tree; the rest of the
    /// tree stays as it is.
    #[verifier::loop_isolation(false)]
    pub fn seek_node_mut(&mut self, id: &ID) -> (found: Option<&mut Syntree<T>>)
        ensures
            found is Some <==> old(self)@.contains(*id),
            match found {
                Some(node) => old(self)@.find(*id) == Some(node@) && node@.id == *id
                    && final(self)@ == old(self)@.replace_first(*id, final(node)@),
                None => old(self)@.find(*id) is None && final(self)@ == old(self)@,
            },
        decreases *old(self),
    {
        proof {
            self.lemma_view();
            self@.lemma_find(*id);
        }
        if self.id == *id {
            return Some(self);
        }
        let ghost before = self@;
        let ghost after = *final(self);
        let ghost count = self.children@.len() as int;
        // `rest` holds the children not yet searched, `passed` is their number
        // before it. The children that the tree will have in the end are those
        // passed, unchanged, and then whatever `rest` will hold.
        let mut rest: &mut [Syntree<T>] = self.children.as_mut_slice();
        let ghost mut passed: int = 0;
        proof {
            assert(after.children@.subrange(0, after.children@.len() as int) =~= final(rest)@);
        }
        loop
            invariant
                0 <= passed <= count,
                rest@ == old(self).children@.subrange(passed, count),
                forall|j: int| 0 <= j < passed ==> !(#[trigger] before.children[j]).contains(*id),
                passed <= after.children@.len(),
                forall|j: int|
                    0 <= j < passed ==> (#[trigger] after.children@[j])@ == before.children[j],
                after.children@.subrange(passed, after.children@.len() as int) == final(rest)@,
            decreases rest@.len(),
        {
            if rest.len() == 0 {
                proof {
                    after.lemma_view();
                    assert(after.children@.len() == passed);
                    assert(after@.children =~= before.children);
                    lemma_first_holding_is(before.children, *id, 0, count as nat);
                }
                return None;
            }
            let ghost len = after.children@.len() as int;
            let ghost open = final(rest)@;
            let (head, tail) = rest.split_at_mut(1);
            let ghost later = final(tail)@;
            let child = head.first_mut().unwrap();
            let ghost settled = *final(child);
            assert(*child == old(self).children@[passed]);
            if let Some(node) = child.seek_node_mut(id) {
                proof {
                    let grown = before.children[passed].replace_first(*id, final(node)@);
                    after.lemma_view();
                    lemma_first_holding_is(before.children, *id, 0, passed as nat);
                    assert(open =~= seq![settled] + tail@);
                    assert(open.len() == len - passed);
                    assert forall|j: int| 0 <= j < count implies (#[trigger] after.children@[j])@
                        == before.children.update(passed, grown)[j] by {
                        if j >= passed {
                            assert(after.children@.subrange(passed, len)[j - passed] == open[j
                                - passed]);
                        }
                    }
                    assert(after@.children =~= before.children.update(passed, grown));
                }
                return Some(node);
            }
            proof {
                assert(open =~= seq![settled] + later);
                assert(open.len() == len - passed);
                assert(after.children@.subrange(passed, len)[0] == open[0]);
                assert forall|k: int| 0 <= k < later.len() implies after.children@.subrange(
                    passed + 1,
                    len,
                )[k] == later[k] by {
                    assert(after.children@.subrange(passed, len)[k + 1] == open[k + 1]);
                }
                assert(after.children@.subrange(passed + 1, len) =~= later);
                passed = passed + 1;
            }
            rest = tail;
        }
    }

    /// Makes `new_node` the last child of the first node with identifier
    /// `parent_id` in pre-order. A tree without such a node stays as it is,
    /// and the call reports that the parent was not found.
    pub fn push_node(&mut self, parent_id: ID, new_node: Syntree<T>) -> (done: Result<(), String>)
        ensures
            done is Ok <==> old(self)@.contains(parent_id),
            match done {
                Ok(_) => {
                    &&& old(self)@.find(parent_id) matches Some(parent)
                    &&& parent.id == parent_id
                    &&& final(self)@.find(parent_id) matches Some(grown)
                    &&& grown == parent.with_child(parent.children.len() as int, new_node@)
                    &&& grown.children == parent.children.push(new_node@)
                    &&& final(self)@ == old(self)@.graft(
                        parent_id,
                        parent.children.len() as int,
                        new_node@,
                    )
                },
                Err(message) => {
                    &&& old(self)@.find(parent_id) is None
                    &&& final(self)@ == old(self)@
                    &&& message@ == parent_not_found_on_append()
                },
            },
    {
        let ghost before = self@;
        let parent = self.seek_node_mut(&parent_id);
        match parent {
            Some(parent) => {
                proof {
                    parent.lemma_view();
                }
                let ghost found = parent@;
                parent.children.push(new_node);
                proof {
                    parent.lemma_view();
                    let grown = found.with_child(found.children.len() as int, new_node@);
                    assert(parent@.children =~= grown.children);
                    found.lemma_with_child_at_ends(new_node@);
                    before.lemma_replace_then_find(parent_id, grown);
                }
                Ok(())
            },
            _ => Err("Parent node does not exist, cannot append.".to_string()),
        }
    }

    /// Makes `new_node` the first child of the first node with identifier
    /// `parent_id` in pre-order; the children that the node had follow it in
    /// their order. A tree without such a node stays as it is, and the call
    /// reports that the parent was not found.
    pub fn prepend_node(&mut self, parent_id: ID, new_node: Syntree<T>) -> (done: Result<
        (),
        String,
    >)
        ensures
            done is Ok <==> old(self)@.contains(parent_id),
            match done {
                Ok(_) => {
                    &&& old(self)@.find(parent_id) matches Some(parent)
                    &&& parent.id == parent_id
                    &&& final(self)@.find(parent_id) matches Some(grown)
                    &&& grown == parent.with_child(0, new_node@)
                    &&& grown.children == seq![new_node@] + parent.children
                    &&& final(self)@ == old(self)@.graft(parent_id, 0, new_node@)
                },
                Err(message) => {
                    &&& old(self)@.find(parent_id) is None
                    &&& final(self)@ == old(self)@
                    &&& message@ == parent_not_found_on_prepend()
                },
            },
    {
        let ghost before = self@;
        let parent = self.seek_node_mut(&parent_id);
        match parent {
            Some(parent) => {
                proof {
                    parent.lemma_view();
                }
                let ghost found = parent@;
                parent.children.insert(0, new_node);
                proof {
                    parent.lemma_view();
                    let grown = found.with_child(0, new_node@);
                    assert(parent@.children =~= grown.children);
                    found.lemma_with_child_at_ends(new_node@);
                    before.lemma_replace_then_find(parent_id, grown);
                }
                Ok(())
            },
            _ => Err("Parent node does not exist, cannot prepend.".to_string()),
        }
    }

    /// Makes `new_node` the child at position `index` of the first node with
    /// identifier `parent_id` in pre-order: the children before `index` stay,
    /// those from `index` on move one place back, and `index` equal to the
    /// number of children appends, as `push_node` does. A tree without such
    /// a node stays as it is, and the call reports that the parent was not
    /// found; a tree whose node has fewer than `index` children stays as it
    /// is, and the call reports that the index is out of range.
    pub fn insert_node(&mut self, parent_id: ID, index: usize, new_node: Syntree<T>) -> (done:
        Result<(), String>)
        ensures
            done is Ok <==> (old(self)@.find(parent_id) matches Some(parent) && index
                <= parent.children.len()),
            match done {
                Ok(_) => {
                    &&& old(self)@.contains(parent_id)
                    &&& old(self)@.find(parent_id) matches Some(parent)
                    &&& parent.id == parent_id
                    &&& index <= parent.children.len()
                    &&& final(self)@.find(parent_id) matches Some(grown)
                    &&& grown == parent.with_child(index as int, new_node@)
                    &&& grown.children == parent.children.insert(index as int, new_node@)
                    &&& final(self)@ == old(self)@.graft(parent_id, index as int, new_node@)
                },
                Err(message) => {
                    &&& final(self)@ == old(self)@
                    &&& match old(self)@.find(parent_id) {
                        Some(parent) => {
                            &&& old(self)@.contains(parent_id)
                            &&& index > parent.children.len()
                            &&& message@ == index_out_of_range(index)
                        },
                        None => {
                            &&& !old(self)@.contains(parent_id)
                            &&& message@ == parent_not_found_on_insert(index)
                        },
                    }
                },
            },
    {
        let ghost before = self@;
        proof {
            before.lemma_find(parent_id);
            before.lemma_replace_same(parent_id);
        }
        if let Some(parent_node) = self.seek_node_mut(&parent_id) {
            proof {
                parent_node.lemma_view();
            }
            let ghost found = parent_node@;
            if index <= parent_node.children.len() {
                parent_node.children.insert(index, new_node);
                proof {
                    parent_node.lemma_view();
                    let grown = found.with_child(index as int, new_node@);
                    assert(parent_node@.children =~= grown.children);
                    before.lemma_replace_then_find(parent_id, grown);
                }
                Ok(())
            } else {
                Err(
                    "Index out of range, cannot insert at index ".to_string().concat(
                        decimal_text(index).as_str(),
                    ).concat("."),
                )
            }
        } else {
            Err(
                "Parent node does not exist, cannot insert at index ".to_string().concat(
                    decimal_text(index).as_str(),
                ).concat("."),
            )
        }
    }
}

impl<T: std::fmt::Display> Syntree<T> {
    /// The tree in its canonical textual form: a node without children is
    /// the text of its payload; a node with children is the text of its
    /// payload, `-[`, the forms of its children with a comma between each
    /// two, and `]`.
    pub fn print(&self) -> (text: String)
        ensures
            self@.prints_as(text@),
        decreases self,
    {
        proof {
            self.lemma_view();
        }
        let label = self.value.to_string();
        let ghost shown = label;
        let mut parts: Vec<String> = Vec::new();
        let mut i: usize = 0;
        while i < self.children.len()
            invariant
                i <= self.children.len(),
                parts@.len() == i,
                self@.children.len() == self.children@.len(),
                forall|j: int|
                    0 <= j < self.children@.len() ==> self@.children[j] == (
                    #[trigger] self.children@[j])@,
                forall|j: int|
                    0 <= j < i ==> (#[trigger] self@.children[j]).prints_as(parts@[j]@),
            decreases self.children.len() - i,
        {
            let part = self.children[i].print();
            parts.push(part);
            i += 1;
        }
        let text = compose(label, &parts);
        proof {
            let texts = parts.deep_view();
            assert(texts.len() == self@.children.len());
            assert forall|j: int| 0 <= j < texts.len() implies (
            #[trigger] self@.children[j]).prints_as(texts[j]) by {
                assert(texts[j] == parts@[j]@);
            }
            assert(text@ == layout(shown@, texts));
        }
        text
    }

    /// The tree as a text of its own: its canonical form in parentheses.
    pub fn to_string(&self) -> (text: String)
        ensures
            exists|form: Seq<char>|
                #![trigger self@.prints_as(form)]
                self@.prints_as(form) && text@ == seq!['('] + form + seq![')'],
    {
        let form = self.print();
        let text = "(".to_string().concat(form.as_str()).concat(")");
        proof {
            reveal_strlit("(");
            reveal_strlit(")");
            assert("("@ =~= seq!['(']);
            assert(")"@ =~= seq![')']);
            assert(self@.prints_as(form@));
        }
        text
    }
}

} // verus!
