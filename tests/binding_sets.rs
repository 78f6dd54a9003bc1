use expr_node::bindings::{carry_values, collect_bindings, index_of, slot_mapping};
use expr_node::parser::parse;

fn strings(v: &[&str]) -> Vec<String> {
    v.iter().map(|s| s.to_string()).collect()
}

fn bindings(text: &str) -> Vec<String> {
    collect_bindings(&parse(text).unwrap())
}

#[test]
fn bindings_follow_first_occurrence() {
    assert_eq!(bindings("b+a"), strings(&["b", "a"]));
    assert_eq!(bindings("c*(b-a)+b"), strings(&["c", "b", "a"]));
    assert_eq!(bindings("-z+y"), strings(&["z", "y"]));
}

#[test]
fn repeated_variable_shares_one_slot() {
    assert_eq!(bindings("a+a"), strings(&["a"]));
    assert_eq!(bindings("a*a-a/a"), strings(&["a"]));
}

#[test]
fn constants_bind_nothing() {
    assert_eq!(bindings("1+2*3"), Vec::<String>::new());
}

#[test]
fn index_of_finds_first_match() {
    let list = strings(&["x", "y", "z"]);
    assert_eq!(index_of(&list, &"y".to_string()), Some(1));
    assert_eq!(index_of(&list, &"w".to_string()), None);
    assert_eq!(index_of(&Vec::new(), &"x".to_string()), None);
}

#[test]
fn slot_mapping_tracks_names() {
    let old = strings(&["a", "b"]);
    let new = strings(&["b", "c"]);
    assert_eq!(slot_mapping(&old, &new), vec![None, Some(0)]);
    assert_eq!(slot_mapping(&new, &new), vec![Some(0), Some(1)]);
    assert_eq!(slot_mapping(&strings(&["a", "b"]), &strings(&["b", "a"])), vec![Some(1), Some(0)]);
}

#[test]
fn values_carry_by_name() {
    let old = strings(&["a", "b"]);
    let new = strings(&["b", "c"]);
    assert_eq!(carry_values(&old, &vec![1.5, 2.5], &new, 0.0), vec![2.5, 0.0]);
    assert_eq!(carry_values(&old, &vec![7, 8], &strings(&["b", "a"]), 0), vec![8, 7]);
}
