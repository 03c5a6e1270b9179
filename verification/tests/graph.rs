//! Neighborhoods and how they are drawn.

use std::collections::HashSet;

use raft::graph::{neighborhood, to_dot, to_mermaid, GraphFormat, Subgraph};
use raft::store::{Edge, Index, Node};

fn empty() -> Index {
    Index { nodes: Vec::new(), notes: Vec::new(), edges: Vec::new() }
}

fn node(index: &mut Index, kind: &str, name: &str) -> i64 {
    let id = index.nodes.len() as i64 + 1;
    index.nodes.push(Node {
        id,
        kind: kind.to_string(),
        name: name.to_string(),
        path: None,
        meta: "{}".to_string(),
    });
    id
}

fn edge(index: &mut Index, src: i64, dst: i64, relation: &str, weight: i128) {
    index.edges.push(Edge {
        src,
        dst,
        kind: relation.to_string(),
        provenance: "indexer".to_string(),
        weight,
        rationale: None,
    });
}

fn pens(sub: &Subgraph) -> Vec<String> {
    sub.edges.iter().map(|_| "0.5".to_string()).collect()
}

#[test]
fn format_parse() {
    assert_eq!(GraphFormat::parse("dot"), Some(GraphFormat::Dot));
    assert_eq!(GraphFormat::parse("MERMAID"), Some(GraphFormat::Mermaid));
    assert_eq!(GraphFormat::parse("svg"), None);
}

#[test]
fn neighborhood_respects_depth() {
    let mut index = empty();
    let a = node(&mut index, "project", "alpha");
    let b = node(&mut index, "entity", "beta");
    let c = node(&mut index, "entity", "gamma");
    let d = node(&mut index, "entity", "delta");
    edge(&mut index, a, b, "mentions", 1000);
    edge(&mut index, b, c, "mentions", 1000);
    edge(&mut index, c, d, "mentions", 1000);

    let sub = neighborhood(&index, "alpha", 1, 0).unwrap();
    let ids: HashSet<i64> = sub.nodes.iter().map(|n| n.id).collect();
    assert_eq!(ids, HashSet::from([a, b]));

    let sub2 = neighborhood(&index, "alpha", 2, 0).unwrap();
    assert_eq!(sub2.nodes.len(), 3);
}

#[test]
fn neighborhood_filters_by_weight() {
    let mut index = empty();
    let a = node(&mut index, "project", "alpha");
    let strong = node(&mut index, "entity", "strong");
    let weak = node(&mut index, "entity", "weak");
    edge(&mut index, a, strong, "mentions", 2000);
    edge(&mut index, a, weak, "mentions", 300);

    let sub = neighborhood(&index, "alpha", 1, 500).unwrap();
    let names: HashSet<&str> = sub.nodes.iter().map(|n| n.name.as_str()).collect();
    assert!(names.contains("strong"));
    assert!(!names.contains("weak"));
}

#[test]
fn unknown_start_is_none() {
    assert!(neighborhood(&empty(), "nope", 2, 0).is_none());
}

#[test]
fn dot_and_mermaid_render_start_and_edges() {
    let mut index = empty();
    let a = node(&mut index, "project", "alpha");
    let b = node(&mut index, "entity", "beta");
    edge(&mut index, a, b, "mentions", 1000);
    let sub = neighborhood(&index, "alpha", 1, 0).unwrap();

    let dot = to_dot(&sub, &pens(&sub));
    assert!(dot.starts_with("digraph raft {"));
    assert!(dot.contains("doublecircle"));
    assert!(dot.contains("-> n"));
    assert!(dot.contains("alpha") && dot.contains("beta"));

    let mmd = to_mermaid(&sub);
    assert!(mmd.starts_with("graph LR"));
    assert!(mmd.contains("-->"));
    assert!(mmd.contains("alpha") && mmd.contains("beta"));
}

#[test]
fn neighborhood_follows_edges_both_ways_and_counts_hops() {
    let mut index = empty();
    let a = node(&mut index, "project", "alpha");
    let n = node(&mut index, "note", "/n/today.md");
    let b = node(&mut index, "entity", "beta");
    edge(&mut index, n, a, "mentions", 1000);
    edge(&mut index, n, b, "mentions", 1000);

    let sub = neighborhood(&index, "alpha", 2, 0).unwrap();
    let seen: Vec<(i64, usize)> = sub.nodes.iter().map(|x| (x.id, x.distance)).collect();
    assert_eq!(seen, vec![(a, 0), (n, 1), (b, 2)]);
    assert_eq!(sub.start, a);
    assert_eq!(sub.edges.len(), 2);

    let near = neighborhood(&index, "alpha", 1, 0).unwrap();
    assert_eq!(near.edges.len(), 1);
}

#[test]
fn dot_is_exact() {
    let mut index = empty();
    let a = node(&mut index, "project", "al\"pha");
    let n = node(&mut index, "note", "/n/today.md");
    edge(&mut index, n, a, "mentions", 2000);
    let sub = neighborhood(&index, "al\"pha", 1, 0).unwrap();
    assert_eq!(
        to_dot(&sub, &vec!["1.0".to_string()]),
        "digraph raft {\n  rankdir=LR;\n  node [style=filled, fontname=\"monospace\"];\n  \
         n1 [label=\"al\\\"pha\", fillcolor=\"#a6e3a1\", shape=doublecircle];\n  \
         n2 [label=\"today.md\", fillcolor=\"#f9e2af\", shape=box];\n  \
         n2 -> n1 [label=\"mentions\", penwidth=1.0];\n}\n"
    );
    assert!(to_mermaid(&sub).contains("al&quot;pha"));
}
