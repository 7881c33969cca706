use kraph::al_graph::ALGraph;
use kraph::{Graph, NodeIx};

fn graph_from(size: u32, edges: &[(u32, u32, u64)]) -> ALGraph {
    let mut g = ALGraph::new(size);
    for &(from, to, w) in edges {
        assert!(from < size && to < size, "edge endpoint out of range");
        g.add_edge(NodeIx(from), NodeIx(to), w);
    }
    g
}

#[test]
fn size_reports_node_count() {
    let g = ALGraph::new(7);
    assert_eq!(g.size(), NodeIx(7));
    let empty = ALGraph::new(0);
    assert_eq!(empty.size(), NodeIx(0));
}

#[test]
fn edge_weight_lookup_is_undirected() {
    let g = graph_from(6, &[(2, 5, 7), (0, 1, 3)]);
    assert_eq!(g.get_edge_weight(NodeIx(2), NodeIx(5)), Some(7));
    assert_eq!(g.get_edge_weight(NodeIx(5), NodeIx(2)), Some(7));
    assert_eq!(g.get_edge_weight(NodeIx(0), NodeIx(1)), Some(3));
    assert_eq!(g.get_edge_weight(NodeIx(1), NodeIx(2)), None);
    assert_eq!(g.get_edge_weight(NodeIx(3), NodeIx(4)), None);
}

#[test]
fn get_edges_lists_incident_edges() {
    let g = graph_from(4, &[(0, 1, 10), (2, 0, 20), (1, 2, 30)]);
    let mut around0: Vec<(u32, u64)> = g.get_edges(NodeIx(0)).iter().map(|p| (p.0 .0, p.1)).collect();
    around0.sort();
    assert_eq!(around0, vec![(1, 10), (2, 20)]);
    let around3: Vec<(u32, u64)> = g.get_edges(NodeIx(3)).iter().map(|p| (p.0 .0, p.1)).collect();
    assert_eq!(around3, vec![]);
    // a node beyond the graph has no incident edges rather than failing
    let beyond: Vec<(u32, u64)> = g.get_edges(NodeIx(9)).iter().map(|p| (p.0 .0, p.1)).collect();
    assert_eq!(beyond, vec![]);
}

#[test]
fn all_edges_round_trip_regardless_of_order() {
    let edges_a = [(0u32, 1u32, 5u64), (3, 2, 6), (1, 3, 7)];
    let edges_b = [(1u32, 3u32, 7u64), (0, 1, 5), (2, 3, 6)];
    let ga = graph_from(4, &edges_a);
    let gb = graph_from(4, &edges_b);
    let mut all_a: Vec<(u32, u32, u64)> =
        ga.get_all_edges().iter().map(|t| (t.0 .0, t.1 .0, t.2)).collect();
    let mut all_b: Vec<(u32, u32, u64)> =
        gb.get_all_edges().iter().map(|t| (t.0 .0, t.1 .0, t.2)).collect();
    // each inserted edge appears exactly once, canonicalized with the lower
    // endpoint first
    assert_eq!(all_a.len(), 3);
    assert_eq!(all_b.len(), 3);
    for &(lo, hi, _) in all_a.iter() {
        assert!(lo <= hi);
    }
    all_a.sort();
    all_b.sort();
    assert_eq!(all_a, all_b);
    assert_eq!(all_a, vec![(0, 1, 5), (1, 3, 7), (2, 3, 6)]);
}

#[test]
fn edge_list_builder_round_trips() {
    let list = vec![
        (NodeIx(3), NodeIx(1), 7u64),
        (NodeIx(0), NodeIx(2), 5),
        (NodeIx(2), NodeIx(1), 9),
    ];
    let g = ALGraph::from_edge_list(4, &list);
    assert_eq!(g.size(), NodeIx(4));
    let all: Vec<(u32, u32, u64)> = g.get_all_edges().iter().map(|t| (t.0 .0, t.1 .0, t.2)).collect();
    // each inserted edge exactly once, canonicalized, in insertion order
    assert_eq!(all, vec![(1, 3, 7), (0, 2, 5), (1, 2, 9)]);
}

#[test]
fn node_payloads_default_and_update() {
    let mut g = ALGraph::new(3);
    assert_eq!(g.get_node(NodeIx(0)), Some(0));
    assert_eq!(g.get_node(NodeIx(2)), Some(0));
    assert_eq!(g.get_node(NodeIx(3)), None);
    assert!(g.set_node(NodeIx(1), 42));
    assert_eq!(g.get_node(NodeIx(1)), Some(42));
    assert!(!g.set_node(NodeIx(3), 9));
    assert_eq!(g.get_node(NodeIx(3)), None);
}
