//! General facts that hold of the graph model and the algorithms' results,
//! stated and proved once so that every caller can rely on them.
use vstd::prelude::*;

verus! {

use crate::{
    EdgeModel, component_count, edge_joins, has_edge, has_edge_with, is_component_leader, is_path,
    min_nat, max_nat, reaches, lemma_reaches_refl, lemma_reaches_step,
};
use crate::algo::mst::{
    ids_init, insert_sorted, is_target, is_tree_path, kruskal_run, kruskal_step, sort_edges,
    targets_distinct, tree_edge, tree_reaches, tree_weight, row_weight,
};

/// In a graph without edges no two distinct nodes reach each other: a path
/// longer than one node needs an edge.
pub proof fn lemma_edgeless_reaches(n: nat, a: nat, b: nat)
    requires
        reaches(Seq::<EdgeModel>::empty(), n, a, b),
    ensures
        a == b,
{
    let es = Seq::<EdgeModel>::empty();
    let p = choose|p: Seq<nat>| is_path(es, n, p) && p.first() == a && p.last() == b;
    if p.len() > 1 {
        let i: int = 0;
        assert(has_edge(es, p[i], p[i + 1]));
        assert(false);
    }
}

/// In a graph of `n` nodes and no edges every node leads its own component,
/// so the component count is exactly `n`.
pub proof fn lemma_edgeless_component_count(n: nat, m: nat)
    requires
        m <= n,
    ensures
        component_count(Seq::<EdgeModel>::empty(), n, m) == m,
    decreases m,
{
    let es = Seq::<EdgeModel>::empty();
    if m > 0 {
        lemma_edgeless_component_count(n, (m - 1) as nat);
        assert(is_component_leader(es, n, (m - 1) as nat)) by {
            if exists|j: nat| j < (m - 1) as nat && #[trigger] reaches(es, n, j, (m - 1) as nat) {
                let j = choose|j: nat|
                    j < (m - 1) as nat && #[trigger] reaches(es, n, j, (m - 1) as nat);
                lemma_edgeless_reaches(n, j, (m - 1) as nat);
            }
        }
    }
}

/// On a graph without edges Kruskal's accumulated weight is zero.
pub proof fn lemma_edgeless_kruskal(n: nat)
    ensures
        kruskal_run(sort_edges(Seq::<EdgeModel>::empty()), ids_init(n)).1 == 0,
{
    assert(sort_edges(Seq::<EdgeModel>::empty()) == Seq::<EdgeModel>::empty());
}

/// A spanning tree that spans only its own root carries no edge and weighs
/// nothing: what Prim reports when the start node is isolated.
pub proof fn lemma_isolated_start_tree_weight(av: Seq<Seq<(nat, u64)>>)
    requires
        forall|j: nat| !is_target(av, j),
    ensures
        tree_weight(av) == 0,
    decreases av.len(),
{
    if av.len() > 0 {
        assert forall|j: nat| !is_target(av.drop_last(), j) by {
            if is_target(av.drop_last(), j) {
                let (p, q) = choose|p: int, q: int|
                    0 <= p < av.drop_last().len() && 0 <= q < av.drop_last()[p].len() && (
                    #[trigger] av.drop_last()[p][q]).0 == j;
                assert(av[p][q].0 == j);
                assert(is_target(av, j));
            }
        }
        lemma_isolated_start_tree_weight(av.drop_last());
        assert(av.last().len() == 0) by {
            if av.last().len() > 0 {
                assert(av[av.len() - 1][0].0 == av.last()[0].0);
                assert(is_target(av, av.last()[0].0));
            }
        }
    }
}

/// Inserting an edge extends the model by exactly one entry: a canonical
/// edge that joins the two inserted endpoints with the inserted weight, with
/// every earlier edge kept unchanged — so enumerating the edges after a
/// build yields exactly the inserted edges, each once, in insertion order.
pub proof fn lemma_insert_round_trip(es: Seq<EdgeModel>, from: nat, to: nat, w: u64)
    ensures
        ({
            let es2 = es.push(
                (EdgeModel { lo: min_nat(from, to), hi: max_nat(from, to), w: w }),
            );
            &&& es2.len() == es.len() + 1
            &&& edge_joins(es2.last(), from, to)
            &&& es2.last().w == w
            &&& forall|k: int| 0 <= k < es.len() ==> es2[k] == es[k]
        }),
{
}

/// On the two-node graph with one edge, the component count is one and
/// Kruskal's total weight is that edge's weight.
pub proof fn lemma_single_edge_graph(w: u64)
    ensures
        component_count(seq![(EdgeModel { lo: 0, hi: 1, w: w })], 2, 2) == 1,
        kruskal_run(
            sort_edges(seq![(EdgeModel { lo: 0, hi: 1, w: w })]),
            ids_init(2),
        ).1 == w,
{
    let e = EdgeModel { lo: 0, hi: 1, w: w };
    let es = seq![e];
    // node 0 leads; node 1 is reached from node 0 over the edge
    assert(edge_joins(es[0], 0, 1));
    assert(has_edge(es, 0, 1));
    let p = seq![0 as nat, 1 as nat];
    assert(p[0] < 2 && p[1] < 2);
    assert(has_edge(es, p[0], p[1]));
    assert(is_path(es, 2, p));
    assert(p.first() == 0 && p.last() == 1);
    assert(reaches(es, 2, 0, 1));
    assert(is_component_leader(es, 2, 0)) by {
        if exists|j: nat| j < 0 && reaches(es, 2, j, 0) {
            let j = choose|j: nat| j < 0 && reaches(es, 2, j, 0);
        }
    }
    assert(!is_component_leader(es, 2, 1));
    assert(component_count(es, 2, 0) == 0);
    assert(component_count(es, 2, 1) == 1);
    assert(component_count(es, 2, 2) == 1);
    // Kruskal takes the one edge: the two endpoint sets are distinct
    let srt = sort_edges(es);
    assert(es.drop_last() =~= Seq::<EdgeModel>::empty());
    assert(srt == insert_sorted(e, sort_edges(Seq::<EdgeModel>::empty())));
    assert(srt == seq![e]);
    let ids = ids_init(2);
    assert(ids[0] == 0 && ids[1] == 1);
    let st = kruskal_step(e, ids);
    assert(st.1);
    assert(srt.drop_first() =~= Seq::<EdgeModel>::empty());
    assert(kruskal_run(srt, ids).1 == kruskal_run(srt.drop_first(), st.0).1 + w);
}

/// On the two-node graph with one edge, every spanning tree with the shape
/// Prim reports — rooted at either node, spanning what the root reaches,
/// made of graph edges, no node a child twice — consists of exactly that
/// edge, so its weight is the edge's weight.
pub proof fn lemma_single_edge_prim_weight(av: Seq<Seq<(nat, u64)>>, start: nat, w: u64)
    requires
        start < 2,
        av.len() == 2,
        forall|p: int, q: int|
            0 <= p < 2 && 0 <= q < av[p].len() ==> (#[trigger] av[p][q]).0 < 2 && av[p][q].0
                != start,
        targets_distinct(av),
        forall|p: int, q: int|
            0 <= p < 2 && 0 <= q < av[p].len() ==> has_edge_with(
                seq![(EdgeModel { lo: 0, hi: 1, w: w })],
                p as nat,
                (#[trigger] av[p][q]).0,
                av[p][q].1,
            ),
        forall|j: nat|
            j < 2 ==> ((j == start || is_target(av, j)) <==> reaches(
                seq![(EdgeModel { lo: 0, hi: 1, w: w })],
                2,
                start,
                j,
            )),
        forall|j: nat| #[trigger] is_target(av, j) ==> tree_reaches(av, start, j),
    ensures
        tree_weight(av) == w,
        av[start as int] =~= seq![(((1 - start) as nat, w))],
        av[1 - start as int] =~= Seq::<(nat, u64)>::empty(),
{
    let es = seq![(EdgeModel { lo: 0, hi: 1, w: w })];
    let other: nat = (1 - start) as nat;
    assert(edge_joins(es[0], start, other));
    assert(has_edge(es, start, other));
    lemma_reaches_refl(es, 2, start);
    lemma_reaches_step(es, 2, start, start, other);
    assert(is_target(av, other));
    let (p0, q0) = choose|p: int, q: int|
        0 <= p < av.len() && 0 <= q < av[p].len() && (#[trigger] av[p][q]).0 == other;
    assert(av[p0].len() == 1) by {
        if av[p0].len() >= 2 {
            let qx: int = if q0 == 0 {
                1
            } else {
                0
            };
            assert(av[p0][qx].0 < 2 && av[p0][qx].0 != start);
            assert(av[p0][qx].0 == other);
            assert(av[p0][qx].0 != av[p0][q0].0);
        }
    }
    let p1: int = 1 - p0;
    assert(av[p1].len() == 0) by {
        if av[p1].len() > 0 {
            assert(av[p1][0].0 == other);
            assert(av[p1][0].0 != av[p0][q0].0);
        }
    }
    // the tree hangs from the root, so its one edge leaves the root
    assert(p0 == start as int) by {
        if p0 != start as int {
            assert(av[start as int].len() == 0);
            assert(tree_reaches(av, start, other));
            let pth = choose|pth: Seq<nat>|
                is_tree_path(av, pth) && pth.first() == start && pth.last() == other;
            assert(pth.len() >= 2) by {
                if pth.len() == 1 {
                    assert(pth.first() == pth.last());
                }
            }
            let i: int = 0;
            assert(tree_edge(av, pth[i], pth[i + 1]));
            let q = choose|q: int|
                0 <= q < av[pth[0] as int].len() && (#[trigger] av[pth[0] as int][q]).0 == pth[1];
            assert(false);
        }
    }
    assert(has_edge_with(es, p0 as nat, other, av[p0][q0].1));
    let k = choose|k: int|
        0 <= k < es.len() && edge_joins(#[trigger] es[k], p0 as nat, other) && es[k].w
            == av[p0][q0].1;
    assert(av[p0][q0].1 == w);
    assert(q0 == 0);
    assert(av.drop_last() =~= seq![av[0]]);
    assert(seq![av[0]].drop_last() =~= Seq::<Seq<(nat, u64)>>::empty());
    assert(av.last() == av[1]);
    assert(tree_weight(av) == tree_weight(av.drop_last()) + row_weight(av[1]));
    assert(seq![av[0]].last() == av[0]);
    assert(tree_weight(seq![av[0]]) == tree_weight(Seq::<Seq<(nat, u64)>>::empty()) + row_weight(
        av[0],
    ));
    if p0 == 0 {
        assert(av[0].drop_last() =~= Seq::<(nat, u64)>::empty());
        assert(av[0].last() == av[p0][q0]);
        assert(row_weight(av[0].drop_last()) == 0);
        assert(row_weight(av[0]) == row_weight(av[0].drop_last()) + av[0].last().1);
        assert(row_weight(av[0]) == w);
        assert(row_weight(av[1]) == 0);
    } else {
        assert(av[1].drop_last() =~= Seq::<(nat, u64)>::empty());
        assert(av[1].last() == av[p0][q0]);
        assert(row_weight(av[1].drop_last()) == 0);
        assert(row_weight(av[1]) == row_weight(av[1].drop_last()) + av[1].last().1);
        assert(row_weight(av[1]) == w);
        assert(row_weight(av[0]) == 0);
    }
}

} // verus!
