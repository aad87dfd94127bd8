//! The mathematical model of a tree: what the contracts of
//! [`Syntree`](crate::Syntree) speak of.

use crate::syntree::ID;
use crate::text::layout;
use vstd::prelude::*;
use vstd::string::to_string_from_display_ensures;

verus! {

/// A tree as a value: a node with its identifier, its payload and the
/// sequence of its subtrees, first child first.
pub struct Tree<T> {
    pub id: ID,
    pub value: T,
    pub children: Seq<Tree<T>>,
}

/// The position of the first tree of `trees`, at or after `from`, that has a
/// node with identifier `id`; `trees.len()` if there is none.
pub open spec fn first_holding<T>(trees: Seq<Tree<T>>, id: ID, from: nat) -> nat
    decreases trees.len() - from,
{
    if from >= trees.len() {
        trees.len()
    } else if trees[from as int].contains(id) {
        from
    } else {
        first_holding(trees, id, from + 1)
    }
}

/// The nodes of the trees of `trees` from position `from` on: each tree in
/// pre-order, one tree after the other.
pub open spec fn preorder_from<T>(trees: Seq<Tree<T>>, from: nat) -> Seq<Tree<T>>
    decreases trees, trees.len() - from,
{
    if from >= trees.len() {
        Seq::empty()
    } else {
        trees[from as int].preorder() + preorder_from(trees, from + 1)
    }
}

/// The first of `nodes` that has the identifier `id`.
pub open spec fn first_with_id<T>(nodes: Seq<Tree<T>>, id: ID) -> Option<Tree<T>>
    decreases nodes.len(),
{
    if nodes.len() == 0 {
        None
    } else if nodes.first().id == id {
        Some(nodes.first())
    } else {
        first_with_id(nodes.drop_first(), id)
    }
}

impl<T> Tree<T> {
    /// A node without children.
    pub open spec fn leaf(id: ID, value: T) -> Tree<T> {
        Tree { id, value, children: Seq::empty() }
    }

    /// Whether some node of the tree has the identifier `id`.
    pub open spec fn contains(self, id: ID) -> bool
        decreases self,
    {
        self.id == id || exists|i: int|
            0 <= i < self.children.len() && (#[trigger] self.children[i]).contains(id)
    }

    /// The nodes of the tree in pre-order: the node itself, then the nodes
    /// of each child's subtree, first child first.
    pub open spec fn preorder(self) -> Seq<Tree<T>>
        decreases self, 0nat,
    {
        seq![self] + preorder_from(self.children, 0)
    }

    /// The position of the first child whose subtree has a node with
    /// identifier `id`; the number of children if there is none.
    pub open spec fn holder(self, id: ID) -> nat {
        first_holding(self.children, id, 0)
    }

    /// The first node with identifier `id` in pre-order: the node itself
    /// before its children, and each child's whole subtree before the next
    /// child.
    pub open spec fn find(self, id: ID) -> Option<Tree<T>>
        decreases self,
    {
        if self.id == id {
            Some(self)
        } else if self.holder(id) < self.children.len() {
            self.children[self.holder(id) as int].find(id)
        } else {
            None
        }
    }

    /// The tree with `node` in the place of the first node with identifier
    /// `id` in pre-order; the tree itself if it has no such node.
    pub open spec fn replace_first(self, id: ID, node: Tree<T>) -> Tree<T>
        decreases self,
    {
        if self.id == id {
            node
        } else if self.holder(id) < self.children.len() {
            let at = self.holder(id) as int;
            Tree {
                id: self.id,
                value: self.value,
                children: self.children.update(at, self.children[at].replace_first(id, node)),
            }
        } else {
            self
        }
    }

    /// The node with `child` as a further child at position `index`; the
    /// children before `index` stay, those from `index` on move one place
    /// back.
    pub open spec fn with_child(self, index: int, child: Tree<T>) -> Tree<T> {
        Tree { id: self.id, value: self.value, children: self.children.insert(index, child) }
    }

    /// The canonical textual form of the tree where `text_of` gives the text
    /// of each payload: [`layout`] of the root's text and of the forms of
    /// the children.
    pub open spec fn rendering(self, text_of: spec_fn(T) -> Seq<char>) -> Seq<char>
        decreases self, 1nat,
    {
        layout(text_of(self.value), self.child_renderings(text_of))
    }

    /// The canonical textual forms of the children, in order.
    pub open spec fn child_renderings(self, text_of: spec_fn(T) -> Seq<char>) -> Seq<Seq<char>>
        decreases self, 0nat,
    {
        Seq::new(
            self.children.len(),
            |i: int|
                if 0 <= i < self.children.len() {
                    self.children[i].rendering(text_of)
                } else {
                    Seq::empty()
                },
        )
    }

    /// The tree after `child` became the child at position `index` of the
    /// first node with identifier `parent` in pre-order; the tree itself if
    /// it has no such node.
    pub open spec fn graft(self, parent: ID, index: int, child: Tree<T>) -> Tree<T> {
        match self.find(parent) {
            Some(node) => self.replace_first(parent, node.with_child(index, child)),
            None => self,
        }
    }
}

/// `first_holding` returns the least position from `from` on whose tree
/// holds `id`.
pub proof fn lemma_first_holding<T>(trees: Seq<Tree<T>>, id: ID, from: nat)
    requires
        from <= trees.len(),
    ensures
        from <= first_holding(trees, id, from) <= trees.len(),
        first_holding(trees, id, from) < trees.len() ==> trees[first_holding(
            trees,
            id,
            from,
        ) as int].contains(id),
        forall|j: int|
            from <= j < first_holding(trees, id, from) ==> !(#[trigger] trees[j]).contains(id),
    decreases trees.len() - from,
{
    if from < trees.len() && !trees[from as int].contains(id) {
        lemma_first_holding(trees, id, from + 1);
    }
}

/// A position whose tree holds `id`, with no earlier such position from
/// `from` on, is the one that `first_holding` returns.
pub proof fn lemma_first_holding_is<T>(trees: Seq<Tree<T>>, id: ID, from: nat, at: nat)
    requires
        from <= at <= trees.len(),
        at < trees.len() ==> trees[at as int].contains(id),
        forall|j: int| from <= j < at ==> !(#[trigger] trees[j]).contains(id),
    ensures
        first_holding(trees, id, from) == at,
    decreases at - from,
{
    if from < at {
        lemma_first_holding_is(trees, id, from + 1, at);
    }
}

/// `first_with_id` returns a node of the sequence that has the identifier and
/// that no node with the identifier precedes; it returns `None` exactly if
/// no node of the sequence has the identifier.
pub proof fn lemma_first_with_id<T>(nodes: Seq<Tree<T>>, id: ID)
    ensures
        match first_with_id(nodes, id) {
            Some(node) => exists|at: int|
                {
                    &&& 0 <= at < nodes.len()
                    &&& #[trigger] nodes[at] == node
                    &&& node.id == id
                    &&& forall|j: int| 0 <= j < at ==> (#[trigger] nodes[j]).id != id
                },
            None => forall|j: int| 0 <= j < nodes.len() ==> (#[trigger] nodes[j]).id != id,
        },
    decreases nodes.len(),
{
    if nodes.len() > 0 && nodes.first().id != id {
        let rest = nodes.drop_first();
        lemma_first_with_id(rest, id);
        match first_with_id(rest, id) {
            Some(node) => {
                let at = choose|at: int|
                    {
                        &&& 0 <= at < rest.len()
                        &&& #[trigger] rest[at] == node
                        &&& node.id == id
                        &&& forall|j: int| 0 <= j < at ==> (#[trigger] rest[j]).id != id
                    };
                assert(nodes[at + 1] == node);
                assert forall|j: int| 0 <= j < at + 1 implies (#[trigger] nodes[j]).id != id by {
                    if j > 0 {
                        assert(rest[j - 1] == nodes[j]);
                    }
                }
            },
            None => {
                assert forall|j: int| 0 <= j < nodes.len() implies (#[trigger] nodes[j]).id
                    != id by {
                    if j > 0 {
                        assert(rest[j - 1] == nodes[j]);
                    }
                }
            },
        }
    } else if nodes.len() > 0 {
        assert(nodes[0] == nodes.first());
    }
}

/// The first node with an identifier in one sequence followed by another is
/// the first in the former, or else the first in the latter.
pub proof fn lemma_first_with_id_concat<T>(front: Seq<Tree<T>>, back: Seq<Tree<T>>, id: ID)
    ensures
        first_with_id(front + back, id) == match first_with_id(front, id) {
            Some(node) => Some(node),
            None => first_with_id(back, id),
        },
    decreases front.len(),
{
    if front.len() == 0 {
        assert(front + back =~= back);
    } else {
        assert((front + back).first() == front.first());
        assert((front + back).drop_first() =~= front.drop_first() + back);
        lemma_first_with_id_concat(front.drop_first(), back, id);
    }
}

/// Among the nodes of several trees in pre-order, the first with an
/// identifier is the one that a search finds in the first tree that holds
/// the identifier.
pub proof fn lemma_first_in_preorder_from<T>(trees: Seq<Tree<T>>, id: ID, from: nat)
    requires
        from <= trees.len(),
    ensures
        first_with_id(preorder_from(trees, from), id) == (if first_holding(trees, id, from)
            < trees.len() {
            trees[first_holding(trees, id, from) as int].find(id)
        } else {
            None
        }),
    decreases trees, trees.len() - from,
{
    if from < trees.len() {
        let tree = trees[from as int];
        tree.lemma_find(id);
        tree.lemma_find_is_first_in_preorder(id);
        lemma_first_in_preorder_from(trees, id, from + 1);
        lemma_first_with_id_concat(tree.preorder(), preorder_from(trees, from + 1), id);
    }
}

impl<T> Tree<T> {
    /// A child added at position zero stands before the children that the
    /// node had; one added at the position that is their number stands
    /// behind them.
    pub proof fn lemma_with_child_at_ends(self, child: Tree<T>)
        ensures
            self.with_child(0, child).children == seq![child] + self.children,
            self.with_child(self.children.len() as int, child).children == self.children.push(
                child,
            ),
    {
        assert(self.children.insert(0, child) =~= seq![child] + self.children);
        assert(self.children.insert(self.children.len() as int, child) =~= self.children.push(
            child,
        ));
    }

    /// What a search finds is the first node with the identifier in the
    /// pre-order of the tree.
    pub proof fn lemma_find_is_first_in_preorder(self, id: ID)
        ensures
            self.find(id) == first_with_id(self.preorder(), id),
        decreases self, 0nat,
    {
        let below = preorder_from(self.children, 0);
        assert((seq![self] + below).first() == self);
        assert((seq![self] + below).drop_first() =~= below);
        if self.id != id {
            lemma_first_in_preorder_from(self.children, id, 0);
        }
    }

    /// A search finds a node exactly if the tree has one with the
    /// identifier, and the node found has that identifier.
    pub proof fn lemma_find(self, id: ID)
        ensures
            self.find(id) is Some <==> self.contains(id),
            self.find(id) matches Some(node) ==> node.id == id,
        decreases self,
    {
        lemma_first_holding(self.children, id, 0);
        if self.id != id && self.holder(id) < self.children.len() {
            self.children[self.holder(id) as int].lemma_find(id);
        }
    }

    /// Replacing the first node with an identifier that the tree does not
    /// have changes nothing.
    pub proof fn lemma_replace_absent(self, id: ID, node: Tree<T>)
        requires
            !self.contains(id),
        ensures
            self.replace_first(id, node) == self,
    {
        lemma_first_holding(self.children, id, 0);
    }

    /// Replacing the first node with identifier `id` by itself changes
    /// nothing.
    pub proof fn lemma_replace_same(self, id: ID)
        ensures
            self.find(id) matches Some(node) ==> self.replace_first(id, node) == self,
        decreases self,
    {
        lemma_first_holding(self.children, id, 0);
        if self.id != id && self.holder(id) < self.children.len() {
            let at = self.holder(id) as int;
            self.children[at].lemma_replace_same(id);
            if let Some(node) = self.find(id) {
                assert(self.replace_first(id, node).children =~= self.children);
            }
        }
    }

    /// After the first node with identifier `id` was replaced by a node with
    /// the same identifier, a search for `id` finds the replacement.
    pub proof fn lemma_replace_then_find(self, id: ID, node: Tree<T>)
        requires
            self.contains(id),
            node.id == id,
        ensures
            self.replace_first(id, node).find(id) == Some(node),
            self.replace_first(id, node).contains(id),
        decreases self,
    {
        lemma_first_holding(self.children, id, 0);
        if self.id != id {
            let at = self.holder(id);
            let child = self.children[at as int];
            child.lemma_replace_then_find(id, node);
            let after = self.replace_first(id, node);
            assert(after.children[at as int] == child.replace_first(id, node));
            lemma_first_holding_is(after.children, id, 0, at);
        }
    }
}

impl<T: std::fmt::Display> Tree<T> {
    /// Whether `text` is the tree in its canonical textual form: the text
    /// that `Display` gives for the payload of the root is the label, the
    /// canonical forms of the children, in order, are the parts, and
    /// [`layout`] puts them together.
    pub open spec fn prints_as(self, text: Seq<char>) -> bool
        decreases self,
    {
        exists|label: String, parts: Seq<Seq<char>>|
            #![trigger layout(label@, parts)]
            {
                &&& to_string_from_display_ensures::<T>(&self.value, label)
                &&& parts.len() == self.children.len()
                &&& forall|i: int|
                    0 <= i < parts.len() ==> (#[trigger] self.children[i]).prints_as(parts[i])
                &&& text == layout(label@, parts)
            }
    }

    /// Where `Display` gives each payload the text that `text_of` gives it,
    /// a tree has one canonical textual form, its rendering with `text_of`.
    pub proof fn lemma_prints_as_rendering(
        self,
        text_of: spec_fn(T) -> Seq<char>,
        text: Seq<char>,
    )
        requires
            forall|value: T, label: String| #[trigger]
                to_string_from_display_ensures::<T>(&value, label) ==> label@ == text_of(value),
            self.prints_as(text),
        ensures
            text == self.rendering(text_of),
        decreases self,
    {
        let (label, parts) = choose|label: String, parts: Seq<Seq<char>>|
            #![trigger layout(label@, parts)]
            {
                &&& to_string_from_display_ensures::<T>(&self.value, label)
                &&& parts.len() == self.children.len()
                &&& forall|i: int|
                    0 <= i < parts.len() ==> (#[trigger] self.children[i]).prints_as(parts[i])
                &&& text == layout(label@, parts)
            };
        let forms = self.child_renderings(text_of);
        assert forall|i: int| 0 <= i < parts.len() implies parts[i] == forms[i] by {
            self.children[i].lemma_prints_as_rendering(text_of, parts[i]);
        }
        assert(parts =~= forms);
    }
}

} // verus!
