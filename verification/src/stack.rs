//! The two representations of [`Stack`], a growable buffer and a chain of
//! owned cells, and what holds of every stack: values come off in the
//! reverse of the order in which they were pushed.

use crate::Stack;
use vstd::prelude::*;

verus! {

/// A growable buffer as a stack: the top is the last element.
impl Stack for Vec<i32> {
    /// The elements of the buffer.
    open spec fn contents(&self) -> Seq<i32> {
        self@
    }

    fn init() -> (stack: Self) {
        Vec::new()
    }

    fn push_val(&mut self, i: i32) {
        self.push(i)
    }

    fn top_val(&self) -> (top: Option<&i32>) {
        if self.len() == 0 {
            None
        } else {
            Some(&self[self.len() - 1])
        }
    }

    fn pop_val(&mut self) -> (popped: Option<i32>) {
        self.pop()
    }

    fn is_empty(&self) -> (empty: bool) {
        self.len() == 0
    }
}

/// A stack as a chain of cells: each cell owns one value and, optionally, the
/// rest of the stack below it. Every value of this type is a stack; a cell
/// whose rest is absent and one whose rest is `Nil` both have nothing below.
#[derive(Debug)]
pub enum ListStack {
    /// A cell with the value on top and the stack below it.
    Val(i32, Option<Box<ListStack>>),
    /// The empty stack.
    Nil,
}

impl ListStack {
    /// The values of the chain, deepest cell first.
    pub open spec fn values(self) -> Seq<i32>
        decreases self,
    {
        match self {
            ListStack::Nil => Seq::empty(),
            ListStack::Val(value, None) => seq![value],
            ListStack::Val(value, Some(below)) => below.values().push(value),
        }
    }
}

impl Stack for ListStack {
    /// The values of the chain, deepest cell first.
    open spec fn contents(&self) -> Seq<i32> {
        self.values()
    }

    fn init() -> (stack: Self) {
        ListStack::Nil
    }

    /// The new cell takes over the whole chain as its rest; nothing is
    /// copied.
    fn push_val(&mut self, i: i32) {
        match self {
            ListStack::Val(_value, _other) => {
                let mut below = ListStack::Nil;
                std::mem::swap(self, &mut below);
                *self = ListStack::Val(i, Some(Box::new(below)));
            },
            ListStack::Nil => *self = ListStack::Val(i, None),
        }
    }

    fn top_val(&self) -> (top: Option<&i32>) {
        match self {
            ListStack::Val(value, _other) => Some(value),
            ListStack::Nil => None,
        }
    }

    /// The rest of the top cell is taken out of it and becomes the stack.
    fn pop_val(&mut self) -> (popped: Option<i32>) {
        match self {
            ListStack::Val(value, other) => {
                let popped_value = *value;
                match other.take() {
                    None => *self = ListStack::Nil,
                    Some(other) => *self = *other,
                }
                Some(popped_value)
            },
            ListStack::Nil => None,
        }
    }

    fn is_empty(&self) -> (empty: bool) {
        match self {
            ListStack::Val(_value, _other) => false,
            ListStack::Nil => true,
        }
    }
}

impl Drop for ListStack {
    /// Releases the chain cell by cell in a loop, so that the depth of the
    /// call stack does not grow with the length of the chain.
    fn drop(&mut self)
        opens_invariants none
        no_unwind
    {
        let mut rest: Option<Box<ListStack>> = None;
        match self {
            ListStack::Val(_value, other) => std::mem::swap(other, &mut rest),
            ListStack::Nil => {},
        }
        loop
            decreases
                    (match rest {
                        Some(cell) => 1 + cell.values().len(),
                        None => 0,
                    }),
        {
            match rest {
                None => {
                    break ;
                },
                Some(mut cell) => {
                    let mut next: Option<Box<ListStack>> = None;
                    match &mut *cell {
                        ListStack::Val(_value, other) => std::mem::swap(other, &mut next),
                        ListStack::Nil => {},
                    }
                    rest = next;
                },
            }
        }
    }
}

/// What a stack holds after the values of `values` were pushed on it, first
/// to last, when it held `start` before.
pub open spec fn pushed_all(start: Seq<i32>, values: Seq<i32>) -> Seq<i32>
    decreases values.len(),
{
    if values.len() == 0 {
        start
    } else {
        pushed_all(start.push(values.first()), values.drop_first())
    }
}

/// The values that come off a stack holding `contents`, in the order in
/// which they come, when it is popped until it is empty.
pub open spec fn popped_all(contents: Seq<i32>) -> Seq<i32>
    decreases contents.len(),
{
    if contents.len() == 0 {
        Seq::empty()
    } else {
        seq![contents.last()] + popped_all(contents.drop_last())
    }
}

/// Pushes the values of `values` on `stack`, first to last.
pub fn push_all<S: Stack>(stack: &mut S, values: &[i32])
    ensures
        final(stack).contents() == pushed_all(old(stack).contents(), values@),
{
    let mut i: usize = 0;
    assert(values@.skip(0) =~= values@);
    while i < values.len()
        invariant
            i <= values.len(),
            pushed_all(stack.contents(), values@.skip(i as int)) == pushed_all(
                old(stack).contents(),
                values@,
            ),
        decreases values.len() - i,
    {
        proof {
            let rest = values@.skip(i as int);
            assert(rest.first() == values@[i as int]);
            assert(rest.drop_first() =~= values@.skip(i + 1));
        }
        stack.push_val(values[i]);
        i += 1;
    }
}

/// Pops `stack` until it is empty, one value after the other in a loop, and
/// returns the values in the order in which they came off.
pub fn pop_all<S: Stack>(stack: &mut S) -> (popped: Vec<i32>)
    ensures
        final(stack).contents() == Seq::<i32>::empty(),
        popped@ == popped_all(old(stack).contents()),
{
    let mut popped: Vec<i32> = Vec::new();
    loop
        invariant
            popped@ + popped_all(stack.contents()) == popped_all(old(stack).contents()),
        ensures
            stack.contents().len() == 0,
            popped@ == popped_all(old(stack).contents()),
        decreases stack.contents().len(),
    {
        let ghost held = stack.contents();
        let ghost before = popped@;
        match stack.pop_val() {
            Some(value) => {
                popped.push(value);
                assert(popped@ + popped_all(held.drop_last()) =~= before + popped_all(held));
            },
            None => {
                assert(before + popped_all(held) =~= before);
                break ;
            },
        }
    }
    assert(stack.contents() =~= Seq::<i32>::empty());
    popped
}

/// Pushing a sequence of values puts them on the stack in their order.
pub proof fn lemma_pushed_all(start: Seq<i32>, values: Seq<i32>)
    ensures
        pushed_all(start, values) == start + values,
    decreases values.len(),
{
    if values.len() == 0 {
        assert(start + values =~= start);
    } else {
        lemma_pushed_all(start.push(values.first()), values.drop_first());
        assert(start.push(values.first()) + values.drop_first() =~= start + values);
    }
}

/// Popping a stack until it is empty yields what it held, last pushed first.
pub proof fn lemma_popped_all(contents: Seq<i32>)
    ensures
        popped_all(contents) == contents.reverse(),
    decreases contents.len(),
{
    if contents.len() == 0 {
        assert(contents.reverse() =~= Seq::<i32>::empty());
    } else {
        lemma_popped_all(contents.drop_last());
        assert(seq![contents.last()] + contents.drop_last().reverse() =~= contents.reverse());
    }
}

/// Pushing any values on an empty stack and then popping until it is empty
/// yields the values in reverse. The stack's representation plays no part:
/// the contents decide every result of the interface.
pub proof fn lemma_pops_reverse_pushes(values: Seq<i32>)
    ensures
        popped_all(pushed_all(Seq::empty(), values)) == values.reverse(),
{
    lemma_pushed_all(Seq::empty(), values);
    assert(Seq::<i32>::empty() + values =~= values);
    lemma_popped_all(values);
}

} // verus!
