use crt_core::expr::Expr;
use crt_core::graph::{
    flatten, flatten_expr, get_node_count, get_relationship_count, insert_all, insert_sorted, Edge,
    Leaf, Node, NodeId, NodeKind, Relation,
};
use crt_core::parser::{parse_crt, Entity, Link, CRT};
use std::collections::BTreeMap;

fn e(id: u32) -> Expr {
    Expr::EntityRef(id)
}

fn not(inner: Expr) -> Expr {
    Expr::Not(Box::new(inner))
}

fn leaf(id: u32, negated: bool) -> Leaf {
    Leaf { id, negated }
}

fn edge(source: u32, target: u32, relation: Relation, sn: bool, tn: bool) -> Edge {
    Edge {
        source: NodeId::Entity(source),
        target,
        relation,
        source_negated: sn,
        target_negated: tn,
    }
}

fn start(target: u32, negated: bool) -> Edge {
    Edge {
        source: NodeId::Start,
        target,
        relation: Relation::If,
        source_negated: false,
        target_negated: negated,
    }
}

fn start_node() -> Node {
    Node { id: NodeId::Start, label: "IF".to_string(), kind: NodeKind::Start }
}

#[test]
fn double_negation_gives_the_plain_leaf() {
    assert_eq!(flatten_expr(&not(not(e(5)))), vec![leaf(5, false)]);
    assert_eq!(flatten_expr(&not(not(e(5)))), flatten_expr(&e(5)));
    assert_eq!(flatten_expr(&not(e(5))), vec![leaf(5, true)]);
    assert_eq!(flatten_expr(&not(not(not(e(5))))), vec![leaf(5, true)]);
}

#[test]
fn negation_reaches_every_conjunct() {
    let expr = not(Expr::And(vec![e(2), not(e(1)), e(2)]));
    assert_eq!(flatten_expr(&expr), vec![leaf(2, true), leaf(1, false), leaf(2, true)]);
}

#[test]
fn leaves_are_sorted_and_deduplicated() {
    let mut set = Vec::new();
    insert_all(
        &mut set,
        &vec![leaf(3, true), leaf(1, false), leaf(3, false), leaf(3, true), leaf(1, false)],
    );
    assert_eq!(set, vec![leaf(1, false), leaf(3, false), leaf(3, true)]);
    let mut derived = vec![leaf(3, true), leaf(1, false), leaf(3, false), leaf(3, true)];
    derived.sort();
    derived.dedup();
    assert_eq!(set, derived);
    insert_sorted(&mut set, leaf(2, true));
    insert_sorted(&mut set, leaf(0, false));
    insert_sorted(&mut set, leaf(9, false));
    insert_sorted(&mut set, leaf(2, true));
    assert_eq!(
        set,
        vec![leaf(0, false), leaf(1, false), leaf(2, true), leaf(3, false), leaf(3, true), leaf(9, false)]
    );
}

#[test]
fn and_expands_to_one_edge_per_conjunct() {
    let tree = parse_crt("E1. a\nE2. b\nE3. c\nL1. (E1 AND E2) → E3\n").unwrap();
    let graph = flatten(&tree);
    assert_eq!(
        graph.edges,
        vec![
            edge(1, 3, Relation::And, false, false),
            edge(2, 3, Relation::And, false, false),
            start(1, false),
            start(2, false),
        ]
    );
    let links: Vec<&Edge> = graph.edges.iter().filter(|x| x.relation != Relation::If).collect();
    assert_eq!(links.len(), 2);
}

#[test]
fn nodes_are_the_root_and_the_entities() {
    let tree = parse_crt("E7. seven\nE2. two\nL1. E7 → E2\n").unwrap();
    let graph = flatten(&tree);
    assert_eq!(
        graph.nodes,
        vec![
            start_node(),
            Node { id: NodeId::Entity(2), label: "two".to_string(), kind: NodeKind::Normal },
            Node { id: NodeId::Entity(7), label: "seven".to_string(), kind: NodeKind::Normal },
        ]
    );
}

#[test]
fn empty_tree_gives_only_the_root() {
    let graph = flatten(&CRT { entities: BTreeMap::new(), links: Vec::new() });
    assert_eq!(graph.nodes, vec![start_node()]);
    assert_eq!(graph.edges, Vec::<Edge>::new());
}

#[test]
fn cartesian_product_carries_each_polarity() {
    let tree = parse_crt("E1. a\nE2. b\nE3. c\nE4. d\nL1. NOT E2 AND E1 → E4 AND NOT E3\n").unwrap();
    let graph = flatten(&tree);
    assert_eq!(
        graph.edges,
        vec![
            edge(1, 3, Relation::And, false, true),
            edge(1, 4, Relation::And, false, false),
            edge(2, 3, Relation::And, true, true),
            edge(2, 4, Relation::And, true, false),
            start(1, false),
            start(2, true),
        ]
    );
}

#[test]
fn negated_conjunction_is_then_not_and() {
    let tree = parse_crt("E1. a\nE2. b\nE3. c\nL1. NOT (E1 AND E2) → E3\n").unwrap();
    let graph = flatten(&tree);
    assert_eq!(graph.edges[0], edge(1, 3, Relation::Then, true, false));
    assert_eq!(graph.edges[1], edge(2, 3, Relation::Then, true, false));
}

#[test]
fn chain_gives_edges_pair_by_pair() {
    let tree = parse_crt("E1. a\nE2. b\nE3. c\nL1. E1 → E2 → E3\n").unwrap();
    let graph = flatten(&tree);
    assert_eq!(
        graph.edges,
        vec![
            edge(1, 2, Relation::Then, false, false),
            edge(2, 3, Relation::Then, false, false),
            start(1, false),
        ]
    );
}

#[test]
fn start_edges_go_to_sources_that_are_never_targets() {
    let text = "E1. a\nE2. b\nE3. c\nE4. d\nL1. E1 → E2\nL2. E2 → E3\nL3. E4 → E3\nL4. E1 → E3\n";
    let graph = flatten(&parse_crt(text).unwrap());
    let starts: Vec<Edge> =
        graph.edges.iter().filter(|x| x.relation == Relation::If).cloned().collect();
    assert_eq!(starts, vec![start(1, false), start(4, false)]);
    assert!(graph.edges.iter().all(|x| (x.source == NodeId::Start) == (x.relation == Relation::If)));
}

#[test]
fn start_edges_are_judged_by_leaf_not_by_number() {
    let text = "E1. a\nE2. b\nL1. E1 → NOT E2\nL2. E2 → E1\nL3. NOT E1 → E2\n";
    let graph = flatten(&parse_crt(text).unwrap());
    let starts: Vec<Edge> =
        graph.edges.iter().filter(|x| x.relation == Relation::If).cloned().collect();
    assert_eq!(starts, vec![start(1, true)]);
}

#[test]
fn links_keep_document_order() {
    let text = "E1. a\nE2. b\nE3. c\nL9. E3 → E1\nL2. E1 → E2\n";
    let graph = flatten(&parse_crt(text).unwrap());
    assert_eq!(
        graph.edges,
        vec![
            edge(3, 1, Relation::Then, false, false),
            edge(1, 2, Relation::Then, false, false),
            start(3, false),
        ]
    );
}

#[test]
fn repeated_endpoint_gives_one_edge() {
    let tree = parse_crt("E1. a\nE2. b\nL1. E1 AND E1 → E2 AND E2\n").unwrap();
    let graph = flatten(&tree);
    assert_eq!(graph.edges, vec![edge(1, 2, Relation::And, false, false), start(1, false)]);
}

#[test]
fn flatten_takes_a_tree_built_by_hand() {
    let mut entities = BTreeMap::new();
    entities.insert(1, Entity { id: 1, text: "a".to_string() });
    let tree = CRT { entities, links: vec![Link { id: 1, segments: vec![e(1)] }] };
    let graph = flatten(&tree);
    assert_eq!(graph.nodes.len(), 2);
    assert_eq!(graph.edges, Vec::<Edge>::new());
}

#[test]
fn flatten_twice_gives_the_same_graph() {
    let tree = parse_crt("E1. a\nE2. b\nE3. c\nL1. (E1 AND NOT E2) → E3 → E1\n").unwrap();
    assert_eq!(flatten(&tree), flatten(&tree));
}

#[test]
fn counts_of_nodes_and_relationships() {
    let text = "E1. a\nE2. b\nE3. c\nL1. E1 → E2\nL2. E2 → E3\n";
    assert_eq!(get_node_count(text), 3);
    assert_eq!(get_relationship_count(text), 2);
    assert_eq!(get_node_count("E1. a\nE1. b\n"), 0);
    assert_eq!(get_relationship_count("L1. E1 → E2\n"), 0);
    assert_eq!(get_node_count(""), 0);
}
