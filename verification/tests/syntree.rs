use std::fmt::Display;
use syntree::{Syntree, ID};

#[test]
fn fill_tree() -> Result<(), String> {
    let mut tree = Syntree::new(0, ID(0));

    for child in 1..3 {
        let child_id = ID(child);
        let mut child = Syntree::new(child, child_id);
        for grandchild in 1..3 {
            let id = grandchild * 10;
            child.prepend_node(child_id, Syntree::new(id, ID(id)))?;
        }
        tree.push_node(ID(0), child)?;
    }
    println!("{}", tree.to_string());
    assert_eq!(String::from("0-[1-[20,10],2-[20,10]]"), tree.print());
    Ok(())
}

#[test]
fn fill_tree_words() -> Result<(), String> {
    let mut tree = Syntree::new(to_s("root"), ID(0));

    for (child_id, child) in ["first", "second", "third"].iter().map(to_s).enumerate() {
        let child_id = ID(child_id);
        let mut child = Syntree::new(child, child_id);
        if child_id.0 == 0 {
            let descendant = Syntree::new(to_s("A"), ID(4));
            child.push_node(child_id, descendant)?;
            let descendant = Syntree::new(to_s("B"), ID(5));
            child.push_node(ID(4), descendant)?;
            let descendant = Syntree::new(to_s("C"), ID(6));
            child.push_node(ID(5), descendant)?;
        }
        tree.push_node(ID(0), child)?;
    }
    println!("{}", tree.to_string());
    assert_eq!(
        String::from("root-[first-[A-[B-[C]]],second,third]"),
        tree.print()
    );
    Ok(())
}

fn to_s<T: Display>(value: T) -> String {
    format!("{}", value)
}

#[test]
fn node_id_not_found() -> Result<(), String> {
    let mut tree = Syntree::new(0, ID(0));
    let child_id = ID(1);
    let child = Syntree::new(1, child_id);
    tree.push_node(ID(0), child)?;

    let child_id = ID(2);
    let child = Syntree::new(3, child_id);
    assert!(tree.push_node(ID(5), child).is_err());
    Ok(())
}
