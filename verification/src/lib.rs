//! In-memory containers with machine-checked contracts.
//!
//! * [`Syntree`] is an n-ary tree whose nodes are addressed by an [`ID`]: a
//!   node is looked up in pre-order, and new nodes are appended, prepended
//!   or inserted among the children of the node that was found. A call
//!   either succeeds completely or leaves the tree untouched.
//! * [`Stack`] is a last-in-first-out container of integers with two
//!   interchangeable representations, `Vec<i32>` and [`ListStack`].
//!
//! The contracts speak of mathematical values: a tree is viewed as a
//! [`model::Tree`], a stack as the sequence of the values it holds. The
//! modules [`model`] and [`stack`] also prove what follows from the
//! contracts, such as that a search finds the first node in pre-order and
//! that popping returns what was pushed in reverse.

use vstd::prelude::*;

pub mod model;
pub mod stack;
pub mod syntree;
pub mod text;

pub use stack::ListStack;
pub use syntree::Syntree;
pub use syntree::ID;

verus! {

/// A last-in-first-out container of `i32` values.
///
/// Every operation is total. What a stack holds is described by
/// [`Stack::contents`], oldest value first, so the top of the stack is the
/// last element of that sequence. Any two implementations are
/// indistinguishable through this interface, because the contents alone
/// decide every result.
pub trait Stack: Sized {
    /// The values held, in the order in which they were pushed.
    spec fn contents(&self) -> Seq<i32>;

    /// An empty stack.
    fn init() -> (stack: Self)
        ensures
            stack.contents() == Seq::<i32>::empty(),
    ;

    /// Puts `i` on top of the stack.
    fn push_val(&mut self, i: i32)
        ensures
            final(self).contents() == old(self).contents().push(i),
    ;

    /// The value on top, or `None` for an empty stack.
    fn top_val(&self) -> (top: Option<&i32>)
        ensures
            match top {
                Some(value) => self.contents().len() > 0 && *value == self.contents().last(),
                None => self.contents().len() == 0,
            },
    ;

    /// Removes the value on top and returns it. An empty stack stays empty
    /// and yields `None`.
    fn pop_val(&mut self) -> (popped: Option<i32>)
        ensures
            match popped {
                Some(value) => {
                    &&& old(self).contents().len() > 0
                    &&& value == old(self).contents().last()
                    &&& final(self).contents() == old(self).contents().drop_last()
                },
                None => {
                    &&& old(self).contents().len() == 0
                    &&& final(self).contents() == old(self).contents()
                },
            },
    ;

    /// Whether the stack holds no value.
    fn is_empty(&self) -> (empty: bool)
        ensures
            empty == (self.contents().len() == 0),
    ;
}

} // verus!
