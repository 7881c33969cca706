use kraph::al_graph::ALGraph;
use kraph::algo::mst::{kruskal, prim};
use kraph::algo::{brute_force, count_components, double_mst, nearest_neighbor};
use kraph::{Graph, NodeIx};

fn graph_from(size: u32, edges: &[(u32, u32, u64)]) -> ALGraph {
    let mut g = ALGraph::new(size);
    for &(from, to, w) in edges {
        assert!(from < size && to < size, "edge endpoint out of range");
        g.add_edge(NodeIx(from), NodeIx(to), w);
    }
    g
}

/// The four-node complete graph used as the concrete scenario.
fn square_graph() -> ALGraph {
    graph_from(
        4,
        &[(0, 1, 1), (0, 2, 4), (0, 3, 3), (1, 2, 2), (1, 3, 5), (2, 3, 1)],
    )
}

/// A complete graph over `n` nodes with deterministic pseudo-varied weights.
fn complete_graph(n: u32) -> ALGraph {
    let mut g = ALGraph::new(n);
    for i in 0..n {
        for j in (i + 1)..n {
            let w = ((i as u64 * 7 + j as u64 * 13) % 19) + 1;
            g.add_edge(NodeIx(i), NodeIx(j), w);
        }
    }
    g
}

#[test]
fn single_edge_graph_mst_and_components() {
    let g = graph_from(2, &[(0, 1, 9)]);
    assert_eq!(count_components(g), 1);
    let g = graph_from(2, &[(0, 1, 9)]);
    assert_eq!(kruskal(&g), 9);
    assert_eq!(prim(&g, NodeIx(0)).get_weight(), 9);
    assert_eq!(prim(&g, NodeIx(1)).get_weight(), 9);
}

#[test]
fn edgeless_nodes_are_their_own_components() {
    let g = ALGraph::new(5);
    assert_eq!(count_components(g), 5);
    let g = ALGraph::new(5);
    assert_eq!(kruskal(&g), 0);
    let tree = prim(&g, NodeIx(0));
    assert_eq!(tree.get_weight(), 0);
    assert_eq!(tree.get_edges(NodeIx(0)).len(), 0);
    assert_eq!(ALGraph::new(0).size(), NodeIx(0));
}

#[test]
fn component_count_of_two_islands() {
    let g = graph_from(6, &[(0, 1, 1), (1, 2, 1), (3, 4, 1), (4, 5, 1)]);
    assert_eq!(count_components(g), 2);
    let g2 = graph_from(6, &[(0, 1, 1), (1, 2, 1), (3, 4, 1), (4, 5, 1)]);
    assert_eq!(kraph::algos::count_components(g2), 2);
    let ring = graph_from(4, &[(0, 1, 1), (1, 2, 1), (2, 3, 1), (3, 0, 1)]);
    assert_eq!(count_components(ring), 1);
}

#[test]
fn kruskal_and_prim_agree_on_the_square_graph() {
    let g = square_graph();
    assert_eq!(kruskal(&g), 4);
    let tree = prim(&g, NodeIx(0));
    assert_eq!(tree.get_weight(), 4);
    assert_eq!(tree.get_start_ix(), NodeIx(0));
}

#[test]
fn kruskal_and_prim_agree_on_other_connected_graphs() {
    let sparse = graph_from(
        5,
        &[(0, 1, 4), (1, 2, 2), (2, 3, 9), (3, 4, 1), (4, 0, 7), (1, 3, 3)],
    );
    let kw = kruskal(&sparse);
    let pw = prim(&sparse, NodeIx(2)).get_weight();
    assert_eq!(kw, pw);
    assert_eq!(kw, 4 + 2 + 3 + 1);
    for n in 2..8u32 {
        let g = complete_graph(n);
        let kw = kruskal(&g);
        for s in 0..n {
            assert_eq!(prim(&g, NodeIx(s)).get_weight(), kw);
        }
    }
}

#[test]
fn mst_depth_first_traversal_walks_each_edge_once() {
    let g = square_graph();
    let tree = prim(&g, NodeIx(0));
    assert_eq!(tree.get_edges(NodeIx(0)).as_slice(), &[(NodeIx(1), 1)]);
    assert_eq!(tree.get_edges(NodeIx(1)).as_slice(), &[(NodeIx(2), 2)]);
    assert_eq!(tree.get_edges(NodeIx(2)).as_slice(), &[(NodeIx(3), 1)]);
    let mut it = tree.dfs();
    let mut walked: Vec<(u32, u32, u64)> = Vec::new();
    while let Some((from, to, w)) = it.next() {
        walked.push((from.0, to.0, w));
    }
    assert_eq!(walked, vec![(0, 1, 1), (1, 2, 2), (2, 3, 1)]);
}

#[test]
fn brute_force_finds_the_minimum_tour_of_the_square_graph() {
    // tours from node 0: 0-1-2-3-0 and its reverse cost 1+2+1+3, every
    // other order costs more
    let g = square_graph();
    assert_eq!(brute_force(&g, NodeIx(0), false), 7);
    assert_eq!(brute_force(&g, NodeIx(0), true), 7);
    assert_eq!(brute_force(&g, NodeIx(2), false), 7);
}

#[test]
fn brute_force_on_a_triangle_sums_all_edges() {
    let g = graph_from(3, &[(0, 1, 5), (1, 2, 8), (0, 2, 2)]);
    assert_eq!(brute_force(&g, NodeIx(0), false), 15);
    assert_eq!(brute_force(&g, NodeIx(0), true), 15);
}

#[test]
fn pruning_never_changes_the_brute_force_result() {
    for n in 2..9u32 {
        let g = complete_graph(n);
        for s in 0..n {
            let plain = brute_force(&g, NodeIx(s), false);
            let pruned = brute_force(&g, NodeIx(s), true);
            assert_eq!(plain, pruned);
        }
    }
}

#[test]
fn nearest_neighbor_walks_greedily_on_the_square_graph() {
    let g = square_graph();
    // 0 -> 1 (1), 1 -> 2 (2), 2 -> 3 (1), closing 3 -> 0 (3)
    assert_eq!(nearest_neighbor(&g, NodeIx(0)), 7);
}

#[test]
fn double_tree_stays_between_mst_and_twice_mst() {
    let g = square_graph();
    let mst_weight = prim(&g, NodeIx(0)).get_weight();
    let dt = double_mst(&g, NodeIx(0));
    assert_eq!(dt, 7);
    assert!(dt >= mst_weight);
    assert!(dt <= 2 * mst_weight);
    for n in 2..9u32 {
        // a metric-like complete graph: weights from coordinates on a line
        let mut g = ALGraph::new(n);
        for i in 0..n {
            for j in (i + 1)..n {
                let d = (j - i) as u64;
                g.add_edge(NodeIx(i), NodeIx(j), d);
            }
        }
        let mst_weight = prim(&g, NodeIx(0)).get_weight();
        for s in 0..n {
            let dt = double_mst(&g, NodeIx(s));
            assert!(dt >= mst_weight);
            assert!(dt <= 2 * mst_weight);
        }
    }
}

#[test]
fn heuristics_are_no_better_than_the_exact_answer() {
    for n in 3..8u32 {
        let g = complete_graph(n);
        let exact = brute_force(&g, NodeIx(0), true);
        assert!(nearest_neighbor(&g, NodeIx(0)) >= exact);
        assert!(double_mst(&g, NodeIx(0)) >= exact);
    }
}
