use syntree::stack::{pop_all, push_all};
use syntree::{ListStack, Stack};

fn pops<S: Stack>(stack: &mut S) -> Vec<i32> {
    let mut out = Vec::new();
    while let Some(value) = stack.pop_val() {
        out.push(value);
    }
    out
}

fn push_then_pop<S: Stack>(values: &[i32]) -> Vec<i32> {
    let mut stack = S::init();
    for value in values {
        stack.push_val(*value);
    }
    pops(&mut stack)
}

fn three_values<S: Stack>() {
    let mut stack = S::init();
    assert!(stack.is_empty());
    stack.push_val(1);
    stack.push_val(2);
    assert_eq!(stack.top_val(), Some(&2));
    assert!(!stack.is_empty());
    stack.push_val(-3);
    assert_eq!(stack.pop_val(), Some(-3));
    assert_eq!(stack.pop_val(), Some(2));
    assert_eq!(stack.top_val(), Some(&1));
    assert_eq!(stack.pop_val(), Some(1));
    assert!(stack.is_empty());
    assert_eq!(stack.pop_val(), None);
    assert_eq!(stack.top_val(), None);
    assert!(stack.is_empty());
}

#[test]
fn three_values_on_the_chain() {
    three_values::<ListStack>();
}

#[test]
fn three_values_on_the_buffer() {
    three_values::<Vec<i32>>();
}

#[test]
fn empty_stacks_yield_nothing() {
    let mut chain = ListStack::init();
    assert_eq!(chain.top_val(), None);
    assert_eq!(chain.pop_val(), None);
    assert!(chain.is_empty());

    let mut buffer = <Vec<i32> as Stack>::init();
    assert_eq!(buffer.top_val(), None);
    assert_eq!(buffer.pop_val(), None);
    assert!(Stack::is_empty(&buffer));
}

#[test]
fn top_leaves_the_stack_as_it_is() {
    let mut chain = ListStack::init();
    chain.push_val(4);
    chain.push_val(5);
    assert_eq!(chain.top_val(), Some(&5));
    assert_eq!(chain.top_val(), Some(&5));
    assert_eq!(pops(&mut chain), vec![5, 4]);
}

#[test]
fn push_keeps_what_was_pushed_before() {
    let mut chain = ListStack::init();
    chain.push_val(10);
    chain.push_val(20);
    chain.push_val(30);
    assert_eq!(chain.pop_val(), Some(30));
    chain.push_val(40);
    assert_eq!(pops(&mut chain), vec![40, 20, 10]);
}

#[test]
fn pops_reverse_pushes() {
    let values = [7, -1, 0, 7, i32::MAX, i32::MIN, 3];
    let reversed: Vec<i32> = values.iter().rev().copied().collect();
    assert_eq!(push_then_pop::<ListStack>(&values), reversed);
    assert_eq!(push_then_pop::<Vec<i32>>(&values), reversed);
    assert_eq!(push_then_pop::<ListStack>(&[]), Vec::<i32>::new());
    assert_eq!(push_then_pop::<Vec<i32>>(&[]), Vec::<i32>::new());
}

#[test]
fn both_stacks_answer_alike() {
    let mut chain = ListStack::init();
    let mut buffer = <Vec<i32> as Stack>::init();
    let mut seed: u32 = 12345;
    for step in 0..2000 {
        seed = seed.wrapping_mul(1664525).wrapping_add(1013904223);
        if seed % 3 == 0 {
            assert_eq!(chain.pop_val(), buffer.pop_val());
        } else {
            chain.push_val(step);
            buffer.push_val(step);
        }
        assert_eq!(chain.top_val(), buffer.top_val());
        assert_eq!(chain.is_empty(), Stack::is_empty(&buffer));
    }
    assert_eq!(pops(&mut chain), pops(&mut buffer));
}

#[test]
fn a_cell_over_an_empty_rest_holds_one_value() {
    let mut chain = ListStack::Val(9, Some(Box::new(ListStack::Nil)));
    assert!(!chain.is_empty());
    assert_eq!(chain.top_val(), Some(&9));
    assert_eq!(chain.pop_val(), Some(9));
    assert!(chain.is_empty());
    assert_eq!(chain.pop_val(), None);
}

#[test]
fn a_chain_written_by_hand_pops_from_the_top() {
    let below = ListStack::Val(1, None);
    let mut chain = ListStack::Val(2, Some(Box::new(below)));
    chain.push_val(3);
    assert_eq!(pops(&mut chain), vec![3, 2, 1]);
}

#[test]
fn push_and_pop_many_times() {
    let mut chain = ListStack::init();
    for i in 1..20_000_000 {
        chain.push_val(i);
        assert_eq!(chain.pop_val(), Some(i));
    }
    assert!(chain.is_empty());
}

#[test]
fn a_long_chain_is_released_without_deep_calls() {
    let mut chain = ListStack::init();
    for i in 0..2_000_000 {
        chain.push_val(i);
    }
    assert_eq!(chain.top_val(), Some(&1_999_999));
    drop(chain);
}

#[test]
fn push_all_pushes_first_to_last() {
    let mut chain = ListStack::init();
    chain.push_val(0);
    push_all(&mut chain, &[1, 2, 3]);
    assert_eq!(chain.top_val(), Some(&3));
    assert_eq!(pops(&mut chain), vec![3, 2, 1, 0]);

    let mut buffer = vec![0];
    push_all(&mut buffer, &[1, 2, 3]);
    assert_eq!(buffer, vec![0, 1, 2, 3]);
    push_all(&mut buffer, &[]);
    assert_eq!(buffer, vec![0, 1, 2, 3]);
}

#[test]
fn pop_all_empties_the_stack() {
    let mut chain = ListStack::init();
    push_all(&mut chain, &[5, 6, 7, 8]);
    assert_eq!(pop_all(&mut chain), vec![8, 7, 6, 5]);
    assert!(chain.is_empty());
    assert_eq!(pop_all(&mut chain), Vec::<i32>::new());

    let mut buffer = vec![5, 6, 7, 8];
    assert_eq!(pop_all(&mut buffer), vec![8, 7, 6, 5]);
    assert!(buffer.is_empty());
}
