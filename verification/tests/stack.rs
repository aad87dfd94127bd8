use std::fmt::Debug;
use std::time::Instant;
use syntree::{ListStack, Stack};

fn fill_and_clear_impl<T: Stack + Debug>(mut stack: T) {
    stack.push_val(1);
    assert_eq!(stack.top_val(), Some(&1));

    stack.push_val(2);
    assert_eq!(stack.top_val(), Some(&2));

    stack.push_val(-3);
    assert_eq!(stack.top_val(), Some(&-3));

    println!("{:?}", stack);

    let mut comparison = vec![1, 2, -3];
    while let Some(val) = stack.pop_val() {
        assert_eq!(comparison.pop().unwrap(), val);
    }

    assert!(stack.is_empty())
}

#[test]
fn fill_and_clear() {
    println!("Testing ListStack");
    fill_and_clear_impl(ListStack::init());
    println!("Testing Vec<T>");
    fill_and_clear_impl(Vec::init());
}

const BENCHMARK_SIZE: i32 = 10_000_000;

fn bench<T: Stack>(mut stack: T) -> (u128, u128) {
    let start = Instant::now();
    for i in 1..BENCHMARK_SIZE {
        stack.push_val(i);
    }
    println!("Pushed all elements");
    let pushed = start.elapsed().as_millis();
    let start = Instant::now();
    while stack.pop_val().is_some() {}
    println!("Popped all elements");
    let popped = start.elapsed().as_millis();
    (pushed, popped)
}

#[test]
fn benchmark() {
    let (pushed, popped) = bench(ListStack::init());
    println!(
        "Own implementation took {}ms for push and {} for pop.",
        pushed, popped
    );

    let (pushed, popped) = bench(Vec::init());
    println!(
        "Vec wrapper took {}ms for push and {} for pop.",
        pushed, popped
    );
}
