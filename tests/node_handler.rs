use bdd::diagram::{BinaryDecisionDiagram, BinaryIndex, Link, Parent};
use bdd::export::Statement;
use bdd::node_handler::{Element, NodeHandler};

fn single_x() -> (BinaryDecisionDiagram<String>, Link) {
    let mut d = BinaryDecisionDiagram::new();
    let x = d.add_node("x".to_string(), Link::Leaf(false), Link::Leaf(true));
    d.add_root(x);
    (d, x)
}

#[test]
fn single_node_exports_expected_text() {
    let (d, x) = single_x();
    let text = NodeHandler(x).to_dot(&d);
    assert_eq!(
        text,
        "digraph{\n0 [label=\"false\"]\n1 [label=\"true\"]\n2 [label=\"x\"]\n2 -> 0 [label=\"0\"]\n2 -> 1 [label=\"1\"]\n}\n"
    );
}

#[test]
fn two_nodes_export_child_once() {
    let mut d = BinaryDecisionDiagram::new();
    let y = d.add_node("y".to_string(), Link::Leaf(false), Link::Leaf(false));
    let x = d.add_node("x".to_string(), y, Link::Leaf(true));
    d.add_root(x);
    let text = NodeHandler(x).to_dot(&d);
    assert_eq!(
        text,
        "digraph{\n0 [label=\"false\"]\n1 [label=\"true\"]\n2 [label=\"x\"]\n3 [label=\"y\"]\n2 -> 3 [label=\"0\"]\n2 -> 1 [label=\"1\"]\n3 -> 0 [label=\"0\"]\n3 -> 0 [label=\"1\"]\n}\n"
    );
    assert_eq!(text.matches("[label=\"y\"]").count(), 1);
    assert_eq!(text.matches("3 -> 0 ").count(), 2);
}

#[test]
fn shared_node_is_described_once() {
    let mut d = BinaryDecisionDiagram::new();
    let s = d.add_node("s".to_string(), Link::Leaf(false), Link::Leaf(true));
    let b = d.add_node("b".to_string(), s, Link::Leaf(false));
    let c = d.add_node("c".to_string(), s, Link::Leaf(true));
    let a = d.add_node("a".to_string(), b, c);
    let sts = NodeHandler(a).export(&d);
    assert_eq!(sts.len(), 12);
    let labels_of_s = sts
        .iter()
        .filter(|st| matches!(st, Statement::Label { node: 0, .. }))
        .count();
    assert_eq!(labels_of_s, 1);
    assert!(sts
        .iter()
        .all(|st| !matches!(st, Statement::Label { index: 0, .. } | Statement::Label { index: 1, .. })));
    let text = NodeHandler(a).to_dot(&d);
    assert_eq!(text.matches("[label=\"false\"]").count(), 1);
    assert_eq!(text.matches("[label=\"true\"]").count(), 1);
    assert_eq!(
        text,
        "digraph{\n0 [label=\"false\"]\n1 [label=\"true\"]\n2 [label=\"a\"]\n3 [label=\"b\"]\n4 [label=\"c\"]\n2 -> 3 [label=\"0\"]\n2 -> 4 [label=\"1\"]\n5 [label=\"s\"]\n3 -> 5 [label=\"0\"]\n3 -> 0 [label=\"1\"]\n5 -> 0 [label=\"0\"]\n5 -> 1 [label=\"1\"]\n4 -> 5 [label=\"0\"]\n4 -> 1 [label=\"1\"]\n}\n"
    );
}

#[test]
fn terminal_root_exports_only_the_opening() {
    let d: BinaryDecisionDiagram<String> = BinaryDecisionDiagram::new();
    assert!(NodeHandler(Link::Leaf(true)).export(&d).is_empty());
    assert_eq!(
        NodeHandler(Link::Leaf(true)).to_dot(&d),
        "digraph{\n0 [label=\"false\"]\n1 [label=\"true\"]\n}\n"
    );
}

#[test]
fn many_levels_use_multi_digit_indices() {
    let mut d = BinaryDecisionDiagram::new();
    let mut top = Link::Leaf(true);
    for k in 0..10 {
        top = d.add_node(format!("v{}", k), Link::Leaf(false), top);
    }
    let text = NodeHandler(top).to_dot(&d);
    assert!(text.contains("11 [label=\"v0\"]\n"));
    assert!(text.contains("10 -> 11 [label=\"1\"]\n"));
    assert!(text.contains("11 -> 1 [label=\"1\"]\n"));
    assert_eq!(text.matches("[label=\"0\"]").count(), 10);
}

#[test]
fn edges_keep_low_and_high_sides() {
    let mut d = BinaryDecisionDiagram::new();
    let x = d.add_node("x".to_string(), Link::Leaf(true), Link::Leaf(false));
    let sts = NodeHandler(x).export(&d);
    assert_eq!(
        sts,
        vec![
            Statement::Label { index: 2, node: 0 },
            Statement::Edge { from: 2, to: 1, side: BinaryIndex::Left },
            Statement::Edge { from: 2, to: 0, side: BinaryIndex::Right },
        ]
    );
}

#[test]
fn child_of_terminal_is_none() {
    let d: BinaryDecisionDiagram<String> = BinaryDecisionDiagram::new();
    let leaf = NodeHandler(Link::Leaf(false));
    assert_eq!(leaf.get_child(&d, BinaryIndex::Left), None);
    assert_eq!(leaf.get_child(&d, BinaryIndex::Right), None);
    assert!(leaf.is_leaf());
}

#[test]
fn child_and_element_of_node() {
    let mut d = BinaryDecisionDiagram::new();
    let y = d.add_node(7u32, Link::Leaf(false), Link::Leaf(true));
    let x = d.add_node(3u32, y, Link::Leaf(false));
    let h = NodeHandler(x);
    assert!(!h.is_leaf());
    assert_eq!(h.get_child(&d, BinaryIndex::Left), Some(NodeHandler(y)));
    assert_eq!(h.get_child(&d, BinaryIndex::Right), Some(NodeHandler(Link::Leaf(false))));
    assert_eq!(h.get_element(&d), Element::Variable(&3u32));
    assert_eq!(NodeHandler(y).get_element(&d), Element::Variable(&7u32));
    assert_eq!(NodeHandler(Link::Leaf(true)).get_element(&d), Element::Binary(true));
}

#[test]
fn parents_track_edges_and_roots() {
    let mut d = BinaryDecisionDiagram::new();
    let y = d.add_node('y', Link::Leaf(false), Link::Leaf(false));
    let x = d.add_node('x', y, Link::Leaf(true));
    d.add_root(x);
    d.add_root(x);
    assert_eq!(d.get_roots(), &vec![x]);
    assert_eq!(NodeHandler(x).get_parents(&d), &vec![Parent::Root]);
    assert_eq!(NodeHandler(y).get_parents(&d), &vec![Parent::Node(1)]);
    let false_parents = NodeHandler(Link::Leaf(false)).get_parents(&d);
    assert_eq!(false_parents, &vec![Parent::Node(0)]);
    assert_eq!(NodeHandler(Link::Leaf(true)).get_parents(&d), &vec![Parent::Node(1)]);
}

#[test]
fn retarget_moves_the_back_reference() {
    let mut d = BinaryDecisionDiagram::new();
    let y = d.add_node('y', Link::Leaf(false), Link::Leaf(true));
    let x = d.add_node('x', y, Link::Leaf(true));
    d.retarget(1, BinaryIndex::Left, Link::Leaf(false));
    assert!(NodeHandler(y).get_parents(&d).is_empty());
    assert!(NodeHandler(Link::Leaf(false)).get_parents(&d).contains(&Parent::Node(1)));
    assert_eq!(
        NodeHandler(x).get_child(&d, BinaryIndex::Left),
        Some(NodeHandler(Link::Leaf(false)))
    );
}

#[test]
fn retarget_keeps_parent_still_reached_by_other_edge() {
    let mut d = BinaryDecisionDiagram::new();
    let y = d.add_node('y', Link::Leaf(false), Link::Leaf(true));
    let _x = d.add_node('x', y, y);
    assert_eq!(NodeHandler(y).get_parents(&d), &vec![Parent::Node(1)]);
    d.retarget(1, BinaryIndex::Right, Link::Leaf(true));
    assert_eq!(NodeHandler(y).get_parents(&d), &vec![Parent::Node(1)]);
    d.retarget(1, BinaryIndex::Left, Link::Leaf(true));
    assert!(NodeHandler(y).get_parents(&d).is_empty());
    assert_eq!(NodeHandler(Link::Leaf(true)).get_parents(&d).len(), 2);
}

#[test]
fn new_diagram_is_empty() {
    let d: BinaryDecisionDiagram<u8> = BinaryDecisionDiagram::new();
    assert_eq!(d.node_len(), 0);
    assert!(d.get_roots().is_empty());
}
