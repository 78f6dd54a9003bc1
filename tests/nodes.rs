use std::collections::BTreeSet;

use expr_node::canvas::{Error, Node};
use expr_node::node::ExprNode;
use expr_node::parser::ParseError;
use expr_node::wiring::{plan_migration, Command, Endpoint, Wire};

fn wire(node: usize, slot: usize) -> Wire {
    Wire { remote: Endpoint { node, output: 0 }, slot }
}

fn apply(store: &mut BTreeSet<(usize, usize, usize)>, cmds: &[Command]) {
    for c in cmds {
        match c {
            Command::DropInputs(s) => store.retain(|w| w.2 != *s),
            Command::Disconnect(w) => {
                store.remove(&(w.remote.node, w.remote.output, w.slot));
            }
            Command::Connect(w) => {
                store.insert((w.remote.node, w.remote.output, w.slot));
            }
        }
    }
}

fn wires_of(store: &BTreeSet<(usize, usize, usize)>) -> Vec<Wire> {
    store
        .iter()
        .map(|&(node, output, slot)| Wire { remote: Endpoint { node, output }, slot })
        .collect()
}

fn names(n: &ExprNode<f64>) -> Vec<String> {
    n.bindings().clone()
}

#[test]
fn new_node_is_constant_zero() {
    let n: ExprNode<f64> = ExprNode::new();
    assert_eq!(n.binding_count(), 0);
    assert_eq!(n.text(), "");
    assert!(matches!(n.ast(), expr_node::ast::Expr::Val(t) if t == "0"));
}

#[test]
fn edit_migrates_surviving_connections() {
    let mut n: ExprNode<f64> = ExprNode::new();
    let mut store = BTreeSet::new();
    let cmds = n.apply_text_edit("a+b", &wires_of(&store), 0.0).unwrap();
    assert!(cmds.is_empty());
    store.insert((10, 0, 1));
    store.insert((20, 0, 2));
    store.insert((30, 0, 0));
    n.set_binding_value(1, 4.0);
    n.set_binding_value(2, 5.0);

    let cmds = n.apply_text_edit("b+c", &wires_of(&store), 0.0).unwrap();
    apply(&mut store, &cmds);
    assert_eq!(names(&n), vec!["b".to_string(), "c".to_string()]);
    assert_eq!(n.values(), &vec![5.0, 0.0]);
    let expected: BTreeSet<_> = [(20, 0, 1), (30, 0, 0)].into_iter().collect();
    assert_eq!(store, expected);
    assert_eq!(n.binding_name(1), "b");
    assert_eq!(n.binding_value(1), 5.0);
    assert_eq!(n.binding_value(2), 0.0);
}

#[test]
fn swapped_bindings_keep_a_shared_remote() {
    let mut n: ExprNode<f64> = ExprNode::new();
    n.apply_text_edit("a+b", &Vec::new(), 0.0).unwrap();
    let mut store = BTreeSet::new();
    store.insert((7, 0, 1));
    store.insert((7, 0, 2));
    store.insert((8, 1, 2));
    let cmds = n.apply_text_edit("b*a", &wires_of(&store), 0.0).unwrap();
    apply(&mut store, &cmds);
    let expected: BTreeSet<_> = [(7, 0, 1), (7, 0, 2), (8, 1, 1)].into_iter().collect();
    assert_eq!(store, expected);
}

#[test]
fn malformed_edit_changes_nothing() {
    let mut n: ExprNode<f64> = ExprNode::new();
    n.apply_text_edit("x*y", &Vec::new(), 0.0).unwrap();
    n.set_binding_value(2, 3.0);
    let store: BTreeSet<_> = [(1, 0, 1), (2, 0, 2)].into_iter().collect();
    for (text, kind) in [
        ("2+", ParseError::UnexpectedToken),
        ("(1+2", ParseError::UnclosedParen),
        ("1 2", ParseError::TrailingInput),
        ("", ParseError::EmptyInput),
    ] {
        assert_eq!(n.apply_text_edit(text, &wires_of(&store), 0.0), Err(kind));
        assert_eq!(n.text(), "x*y");
        assert_eq!(names(&n), vec!["x".to_string(), "y".to_string()]);
        assert_eq!(n.values(), &vec![0.0, 3.0]);
    }
}

#[test]
fn repeating_an_edit_is_idempotent() {
    let mut n: ExprNode<f64> = ExprNode::new();
    let mut store: BTreeSet<_> = [(1, 0, 1), (2, 0, 2), (3, 0, 3)].into_iter().collect();
    n.apply_text_edit("a+b+c", &Vec::new(), 0.0).unwrap();
    n.set_binding_value(1, 1.0);
    n.set_binding_value(3, 3.0);
    let cmds = n.apply_text_edit("c-a", &wires_of(&store), 0.0).unwrap();
    apply(&mut store, &cmds);
    let first = (names(&n), n.values().clone(), store.clone());
    let cmds = n.apply_text_edit("c-a", &wires_of(&store), 0.0).unwrap();
    assert!(cmds.is_empty());
    apply(&mut store, &cmds);
    assert_eq!((names(&n), n.values().clone(), store.clone()), first);
    assert_eq!(first.1, vec![3.0, 1.0]);
}

#[test]
fn plan_orders_drops_before_moves() {
    let cmds = plan_migration(&vec![None, Some(0)], &vec![wire(5, 1), wire(6, 2), wire(9, 0)]);
    assert_eq!(
        cmds,
        vec![
            Command::DropInputs(1),
            Command::Disconnect(wire(6, 2)),
            Command::Connect(wire(6, 1)),
        ]
    );
}

#[test]
fn canvas_node_keeps_its_name() {
    let n = Node::new("Node C");
    assert_eq!(n.name(), "Node C");
    assert_eq!(Node::new("").name(), "");
}

#[test]
fn import_error_message() {
    let e = Error::DotParserError("bad token".to_string());
    assert_eq!(e.message(), "Error parsing DOT graph: [bad token]");
}

#[test]
fn restore_reparses_and_carries_values() {
    let saved_names = vec!["b".to_string(), "a".to_string()];
    let n = ExprNode::restore("a*b+c", &saved_names, &vec![2.0, 1.0], 0.0).unwrap();
    assert_eq!(names(&n), vec!["a".to_string(), "b".to_string(), "c".to_string()]);
    assert_eq!(n.values(), &vec![1.0, 2.0, 0.0]);
    assert_eq!(n.text(), "a*b+c");
    assert!(matches!(
        ExprNode::restore("a*", &saved_names, &vec![2.0, 1.0], 0.0),
        Err(ParseError::UnexpectedToken)
    ));
}

#[test]
fn new_names_start_at_fresh_value() {
    let mut n: ExprNode<i64> = ExprNode::new();
    n.apply_text_edit("p", &Vec::new(), -1).unwrap();
    n.set_binding_value(1, 42);
    n.apply_text_edit("q+p", &Vec::new(), -1).unwrap();
    assert_eq!(n.values(), &vec![-1, 42]);
    assert_eq!(n.binding_count(), 2);
    assert_eq!(n.binding_name(2), "p");
}

#[test]
fn edit_issues_drop_then_move() {
    let mut n: ExprNode<f64> = ExprNode::new();
    n.apply_text_edit("a+b", &Vec::new(), 0.0).unwrap();
    let wires = vec![wire(10, 1), wire(20, 2), wire(30, 0)];
    let cmds = n.apply_text_edit("b+c", &wires, 0.0).unwrap();
    assert_eq!(
        cmds,
        vec![
            Command::DropInputs(1),
            Command::Disconnect(wire(20, 2)),
            Command::Connect(wire(20, 1)),
        ]
    );
}

#[test]
fn swap_issues_no_drop() {
    let mut n: ExprNode<f64> = ExprNode::new();
    n.apply_text_edit("a+b", &Vec::new(), 0.0).unwrap();
    n.set_binding_value(1, 1.0);
    n.set_binding_value(2, 2.0);
    let cmds = n.apply_text_edit("b+a", &vec![wire(10, 1), wire(20, 2)], 0.0).unwrap();
    assert_eq!(
        cmds,
        vec![
            Command::Disconnect(wire(10, 1)),
            Command::Disconnect(wire(20, 2)),
            Command::Connect(wire(10, 2)),
            Command::Connect(wire(20, 1)),
        ]
    );
    assert_eq!(n.values(), &vec![2.0, 1.0]);
}

#[test]
fn unchanged_bindings_issue_nothing() {
    let mut n: ExprNode<f64> = ExprNode::new();
    n.apply_text_edit("a*b", &Vec::new(), 0.0).unwrap();
    let cmds = n.apply_text_edit("a-b/2", &vec![wire(1, 1), wire(2, 2), wire(3, 0)], 0.0).unwrap();
    assert!(cmds.is_empty());
}
