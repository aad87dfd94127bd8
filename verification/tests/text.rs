use syntree::text::{compose, decimal_text};

#[test]
fn numbers_in_decimal() {
    assert_eq!(decimal_text(0), "0");
    assert_eq!(decimal_text(7), "7");
    assert_eq!(decimal_text(9), "9");
    assert_eq!(decimal_text(10), "10");
    assert_eq!(decimal_text(305), "305");
    assert_eq!(decimal_text(1000), "1000");
    assert_eq!(decimal_text(1234567890), "1234567890");
    assert_eq!(decimal_text(usize::MAX), usize::MAX.to_string());
}

#[test]
fn a_label_without_parts_stands_alone() {
    assert_eq!(compose(String::from("leaf"), &Vec::new()), "leaf");
    assert_eq!(compose(String::new(), &Vec::new()), "");
}

#[test]
fn parts_stand_in_brackets_with_commas() {
    let one = vec![String::from("a")];
    assert_eq!(compose(String::from("x"), &one), "x-[a]");
    let three = vec![String::from("a"), String::from("b-[c]"), String::new()];
    assert_eq!(compose(String::from("x"), &three), "x-[a,b-[c],]");
    let empty_label = vec![String::from("a"), String::from("b")];
    assert_eq!(compose(String::new(), &empty_label), "-[a,b]");
}
