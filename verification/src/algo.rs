//! Algorithms over a graph: connected-component counting and the
//! traveling-salesperson solvers.
use vstd::prelude::*;

pub mod mst;

verus! {

use crate::{
    Graph, NodeIx, component_count, has_edge, incident, is_component_leader, reaches,
    lemma_reaches_refl, lemma_reaches_step, lemma_reaches_trans, lemma_reach_in_closed,
    lemma_incident_sound, lemma_incident_has_edge, lemma_incident_in_range,
    complete, weights_fit, path_weight, edge_weight, edge_weight_or_zero, is_tour, tour_weight,
    max_weight, lemma_edge_weight_some, lemma_edge_weight_le_max, lemma_path_weight_bounds,
    lemma_max_weight_each, lemma_edge_weight_is_real, lemma_path_weight_prefix, has_edge_with,
    edge_joins, EdgeModel,
};
use crate::algo::mst::{
    child_triples, is_target, prim_result, tree_edge, tree_reaches, lemma_tree_reach_in_closed,
};

/// The number of `false` entries of a visited map.
pub open spec fn count_false(s: Seq<bool>) -> nat
    decreases s.len(),
{
    if s.len() == 0 {
        0
    } else {
        count_false(s.drop_last()) + if s.last() {
            0 as nat
        } else {
            1 as nat
        }
    }
}

/// A freshly built visited map is all unvisited.
pub proof fn lemma_count_false_new(n: nat)
    ensures
        count_false(Seq::new(n, |k: int| false)) == n,
    decreases n,
{
    if n > 0 {
        assert(Seq::new(n, |k: int| false).drop_last() =~= Seq::new((n - 1) as nat, |k: int| false));
        lemma_count_false_new((n - 1) as nat);
    }
}

/// Marking an unvisited entry lowers the number of unvisited entries by one.
pub proof fn lemma_count_false_update(s: Seq<bool>, i: int)
    requires
        0 <= i < s.len(),
        !s[i],
    ensures
        count_false(s.update(i, true)) + 1 == count_false(s),
    decreases s.len(),
{
    let t = s.update(i, true);
    if i == s.len() - 1 {
        assert(t.drop_last() =~= s.drop_last());
    } else {
        assert(t.drop_last() =~= s.drop_last().update(i, true));
        lemma_count_false_update(s.drop_last(), i);
    }
}

/// Some entry of the stack holds node `x`.
pub open spec fn stack_has(s: Seq<NodeIx>, x: nat) -> bool {
    exists|k: int| 0 <= k < s.len() && (#[trigger] s[k]).0 as nat == x
}

/// The number of connected components of the graph, by iterative flood fill:
/// every node not yet reached from a lower node seeds a new component, whose
/// nodes are then all marked through an explicit stack.
pub fn count_components<G: Graph>(graph: G) -> (count: u32)
    requires
        graph.wf_spec(),
    ensures
        count as nat == component_count(graph.edges_spec(), graph.nodes_spec(), graph.nodes_spec()),
{
    let ghost es = graph.edges_spec();
    let ghost n = graph.nodes_spec();
    proof {
        graph.edges_in_range();
    }
    let size = graph.size().0;
    let mut visited: Vec<bool> = Vec::new();
    let mut i: u32 = 0;
    while i < size
        invariant
            i <= size,
            visited@ =~= Seq::new(i as nat, |k: int| false),
        decreases size - i,
    {
        visited.push(false);
        i = i + 1;
    }
    let mut count: u32 = 0;
    let mut ix: u32 = 0;
    while ix < size
        invariant
            ix <= size,
            size as nat == n,
            n == graph.nodes_spec(),
            es == graph.edges_spec(),
            graph.wf_spec(),
            forall|k: int| 0 <= k < es.len() ==> (#[trigger] es[k]).lo < n && es[k].hi < n,
            visited@.len() == n,
            count as nat == component_count(es, n, ix as nat),
            count <= ix,
            forall|j: nat|
                j < n ==> (visited@[j as int] <==> exists|s: nat|
                    s < ix && #[trigger] reaches(es, n, s, j)),
        decreases size - ix,
    {
        let ghost pre0 = visited@;
        if !visited[ix as usize] {
            let ghost seed = ix as nat;
            proof {
                lemma_reaches_refl(es, n, seed);
            }
            visited[ix as usize] = true;
            let ghost pre = visited@;
            let mut stack: Vec<NodeIx> = Vec::new();
            stack.push(NodeIx(ix));
            proof {
                assert(stack@[0].0 as nat == seed);
                assert forall|x: nat, y: nat|
                    x < n && y < n && visited@[x as int] && !stack_has(stack@, x)
                        && #[trigger] has_edge(es, x, y) implies visited@[y as int] by {
                    if x == seed {
                        assert(stack_has(stack@, x));
                    } else {
                        assert(pre0[x as int]);
                        let s = choose|s: nat| s < ix as nat && #[trigger] reaches(es, n, s, x);
                        lemma_reaches_step(es, n, s, x, y);
                        assert(reaches(es, n, s, y));
                        assert(pre0[y as int]);
                    }
                }
            }
            while stack.len() != 0
                invariant
                    size as nat == n,
                    n == graph.nodes_spec(),
                    es == graph.edges_spec(),
                    graph.wf_spec(),
                    forall|k: int| 0 <= k < es.len() ==> (#[trigger] es[k]).lo < n && es[k].hi < n,
                    visited@.len() == n,
                    seed < n,
                    visited@[seed as int],
                    pre == pre0.update(seed as int, true),
                    // every stacked node is a reached, marked node
                    forall|k: int|
                        0 <= k < stack@.len() ==> (#[trigger] stack@[k]).0 < n && reaches(
                            es,
                            n,
                            seed,
                            stack@[k].0 as nat,
                        ) && visited@[stack@[k].0 as int],
                    // marked nodes were marked before this seed or are reached from it
                    forall|j: nat|
                        j < n && visited@[j as int] ==> pre[j as int] || reaches(es, n, seed, j),
                    // marking only grows
                    forall|j: int| 0 <= j < n && pre[j] ==> visited@[j],
                    // a marked node off the stack has all neighbors marked
                    forall|x: nat, y: nat|
                        x < n && y < n && visited@[x as int] && !stack_has(stack@, x)
                            && #[trigger] has_edge(es, x, y) ==> visited@[y as int],
                decreases count_false(visited@) + stack@.len(),
            {
                let ghost s_entry = stack@;
                let current = stack.pop().unwrap();
                proof {
                    assert(s_entry =~= stack@.push(current));
                }
                let ghost cur = current.0 as nat;
                let adj = graph.get_edges(current);
                proof {
                    lemma_incident_sound(es, cur);
                    lemma_incident_in_range(es, n, cur);
                    assert(adj@.map_values(|p: (NodeIx, u64)| (p.0.0 as nat, p.1)) == incident(
                        es,
                        cur,
                    ));
                    assert(adj@.len() == incident(es, cur).len());
                    assert forall|t: int|
                        0 <= t < adj@.len() implies (#[trigger] adj@[t]).0.0 < n && has_edge(
                        es,
                        cur,
                        adj@[t].0.0 as nat,
                    ) by {
                        assert(adj@.map_values(|p: (NodeIx, u64)| (p.0.0 as nat, p.1))[t] == (
                            adj@[t].0.0 as nat,
                            adj@[t].1,
                        ));
                        assert(incident(es, cur)[t] == (adj@[t].0.0 as nat, adj@[t].1));
                        assert(incident(es, cur)[t].0 < n);
                        assert(has_edge(es, cur, incident(es, cur)[t].0));
                    }
                }
                let ghost m0 = count_false(visited@) + stack@.len();
                let mut q: usize = 0;
                while q < adj.len()
                    invariant
                        size as nat == n,
                        n == graph.nodes_spec(),
                        es == graph.edges_spec(),
                        graph.wf_spec(),
                        forall|k: int|
                            0 <= k < es.len() ==> (#[trigger] es[k]).lo < n && es[k].hi < n,
                        q <= adj@.len(),
                        adj@.map_values(|p: (NodeIx, u64)| (p.0.0 as nat, p.1)) == incident(
                            es,
                            cur,
                        ),
                        forall|t: int| 0 <= t < adj@.len() ==> (#[trigger] adj@[t]).0.0 < n,
                        forall|t: int|
                            0 <= t < adj@.len() ==> has_edge(
                                es,
                                cur,
                                (#[trigger] adj@[t]).0.0 as nat,
                            ),
                        visited@.len() == n,
                        seed < n,
                        cur < n,
                        visited@[seed as int],
                        visited@[cur as int],
                        reaches(es, n, seed, cur),
                        pre == pre0.update(seed as int, true),
                        forall|k: int|
                            0 <= k < stack@.len() ==> (#[trigger] stack@[k]).0 < n && reaches(
                                es,
                                n,
                                seed,
                                stack@[k].0 as nat,
                            ) && visited@[stack@[k].0 as int],
                        forall|j: nat|
                            j < n && visited@[j as int] ==> pre[j as int] || reaches(
                                es,
                                n,
                                seed,
                                j,
                            ),
                        forall|j: int| 0 <= j < n && pre[j] ==> visited@[j],
                        // neighbors already handled are marked
                        forall|t: int| 0 <= t < q ==> visited@[(#[trigger] adj@[t]).0.0 as int],
                        // closure holds except possibly at the popped node
                        forall|x: nat, y: nat|
                            x < n && y < n && visited@[x as int] && !stack_has(
                                stack@.push(current),
                                x,
                            ) && #[trigger] has_edge(es, x, y) ==> visited@[y as int],
                        count_false(visited@) + stack@.len() <= m0,
                    decreases adj@.len() - q,
                {
                    let (nb, _w) = adj[q];
                    if !visited[nb.0 as usize] {
                        let ghost vb = visited@;
                        let ghost sb = stack@;
                        proof {
                            lemma_count_false_update(visited@, nb.0 as int);
                            lemma_reaches_step(es, n, seed, cur, nb.0 as nat);
                        }
                        visited[nb.0 as usize] = true;
                        stack.push(nb);
                        proof {
                            assert forall|x: nat, y: nat|
                                x < n && y < n && visited@[x as int] && !stack_has(
                                    stack@.push(current),
                                    x,
                                ) && #[trigger] has_edge(es, x, y) implies visited@[y as int] by {
                                assert(stack@ == sb.push(nb));
                                assert(stack@.push(current)[sb.len() as int].0 as nat
                                    == nb.0 as nat);
                                assert(x != nb.0 as nat);
                                assert(vb[x as int]);
                                assert(!stack_has(sb.push(current), x)) by {
                                    if stack_has(sb.push(current), x) {
                                        let k = choose|k: int|
                                            0 <= k < sb.push(current).len() && (#[trigger] sb.push(
                                                current,
                                            )[k]).0 as nat == x;
                                        if k < sb.len() {
                                            assert(stack@.push(current)[k].0 as nat == x);
                                        } else {
                                            assert(stack@.push(current)[
                                                stack@.push(current).len() - 1].0 as nat == x);
                                        }
                                    }
                                }
                                assert(vb[y as int]);
                            }
                        }
                    }
                    q = q + 1;
                }
                proof {
                    // the popped node's neighbors are now all marked, so the
                    // closure holds again for the whole stack
                    assert forall|x: nat, y: nat|
                        x < n && y < n && visited@[x as int] && !stack_has(stack@, x)
                            && #[trigger] has_edge(es, x, y) implies visited@[y as int] by {
                        if x == cur {
                            lemma_incident_has_edge(es, cur, y);
                            let t = choose|t: int|
                                0 <= t < incident(es, cur).len() && (#[trigger] incident(
                                    es,
                                    cur,
                                )[t]).0 == y;
                            assert(adj@[t].0.0 as nat == y);
                            assert(visited@[adj@[t].0.0 as int]);
                        } else {
                            assert(!stack_has(stack@.push(current), x)) by {
                                if stack_has(stack@.push(current), x) {
                                    let k = choose|k: int|
                                        0 <= k < stack@.push(current).len() && (
                                        #[trigger] stack@.push(current)[k]).0 as nat == x;
                                    if k < stack@.len() {
                                        assert(stack@[k].0 as nat == x);
                                    } else {
                                        assert(stack@.push(current)[k] == current);
                                    }
                                }
                            }
                        }
                    }
                }
            }
            count = count + 1;
            proof {
                assert(!pre0[seed as int]);
                assert(is_component_leader(es, n, seed)) by {
                    if exists|j: nat| j < seed && reaches(es, n, j, seed) {
                        let j = choose|j: nat| j < seed && #[trigger] reaches(es, n, j, seed);
                        assert(pre0[seed as int]);
                    }
                }
                assert(component_count(es, n, ix as nat + 1) == component_count(es, n, ix as nat)
                    + 1);
                // everything reached from this seed is now marked; everything
                // reached from an earlier seed was marked before
                assert forall|j: nat|
                    j < n implies (visited@[j as int] <==> exists|s: nat|
                    s < ix as nat + 1 && #[trigger] reaches(es, n, s, j)) by {
                    if visited@[j as int] {
                        if pre[j as int] && j != seed {
                            assert(pre0[j as int]);
                            let s = choose|s: nat| s < ix as nat && #[trigger] reaches(es, n, s, j);
                            assert(s < ix as nat + 1 && reaches(es, n, s, j));
                        } else {
                            assert(reaches(es, n, seed, j));
                            assert(seed < ix as nat + 1);
                        }
                    }
                    if exists|s: nat| s < ix as nat + 1 && #[trigger] reaches(es, n, s, j) {
                        let s = choose|s: nat|
                            s < ix as nat + 1 && #[trigger] reaches(es, n, s, j);
                        if s < ix as nat {
                            assert(pre0[j as int]);
                            assert(pre[j as int]);
                            assert(visited@[j as int]);
                        } else {
                            assert forall|x: nat, y: nat|
                                x < n && y < n && visited@[x as int] && #[trigger] has_edge(
                                    es,
                                    x,
                                    y,
                                ) implies visited@[y as int] by {
                                assert(!stack_has(Seq::<NodeIx>::empty(), x));
                            }
                            lemma_reach_in_closed(es, n, visited@, seed, j);
                        }
                    }
                }
            }
        } else {
            proof {
                let s0 = choose|s: nat| s < ix as nat && #[trigger] reaches(es, n, s, ix as nat);
                assert(reaches(es, n, s0, ix as nat));
                assert(!is_component_leader(es, n, ix as nat));
                assert(component_count(es, n, ix as nat + 1) == component_count(es, n, ix as nat));
                assert forall|j: nat|
                    j < n implies (visited@[j as int] <==> exists|s: nat|
                    s < ix as nat + 1 && #[trigger] reaches(es, n, s, j)) by {
                    if visited@[j as int] {
                        let s = choose|s: nat| s < ix as nat && #[trigger] reaches(es, n, s, j);
                        assert(s < ix as nat + 1 && reaches(es, n, s, j));
                    }
                    if exists|s: nat| s < ix as nat + 1 && #[trigger] reaches(es, n, s, j) {
                        let s = choose|s: nat|
                            s < ix as nat + 1 && #[trigger] reaches(es, n, s, j);
                        if s == ix as nat {
                            lemma_reaches_trans(es, n, s0, ix as nat, j);
                            assert(reaches(es, n, s0, j));
                        }
                        assert(visited@[j as int]);
                    }
                }
            }
        }
        ix = ix + 1;
    }
    count
}

/// Unmarking a visited entry raises the number of unvisited entries by one.
proof fn lemma_count_false_clear(s: Seq<bool>, i: int)
    requires
        0 <= i < s.len(),
        s[i],
    ensures
        count_false(s.update(i, false)) == count_false(s) + 1,
    decreases s.len(),
{
    let t = s.update(i, false);
    if i == s.len() - 1 {
        assert(t.drop_last() =~= s.drop_last());
    } else {
        assert(t.drop_last() =~= s.drop_last().update(i, false));
        lemma_count_false_clear(s.drop_last(), i);
    }
}

/// A visited map with every entry marked has no unvisited entries.
proof fn lemma_count_false_zero(s: Seq<bool>)
    requires
        forall|j: int| 0 <= j < s.len() ==> s[j],
    ensures
        count_false(s) == 0,
    decreases s.len(),
{
    if s.len() > 0 {
        assert(forall|j: int| 0 <= j < s.len() - 1 ==> #[trigger] s.drop_last()[j] == s[j]);
        lemma_count_false_zero(s.drop_last());
    }
}

/// Marking can only lower the number of unvisited entries.
proof fn lemma_count_false_mono(a: Seq<bool>, b: Seq<bool>)
    requires
        a.len() == b.len(),
        forall|j: int| 0 <= j < a.len() && a[j] ==> b[j],
    ensures
        count_false(b) <= count_false(a),
    decreases a.len(),
{
    if a.len() > 0 {
        assert(forall|j: int| 0 <= j < a.len() - 1 ==> #[trigger] a.drop_last()[j] == a[j]);
        assert(forall|j: int| 0 <= j < b.len() - 1 ==> #[trigger] b.drop_last()[j] == b[j]);
        lemma_count_false_mono(a.drop_last(), b.drop_last());
    }
}

/// The visited map with every child of the given edges marked.
pub open spec fn mark_targets(seen: Seq<bool>, ts: Seq<(nat, nat, u64)>) -> Seq<bool> {
    Seq::new(
        seen.len(),
        |j: int| seen[j] || exists|k: int| 0 <= k < ts.len() && ((#[trigger] ts[k]).1 as int) == j,
    )
}

/// Marking the distinct, fresh children of the given edges lowers the number
/// of unvisited entries by exactly the number of edges.
proof fn lemma_count_false_mark(seen: Seq<bool>, ts: Seq<(nat, nat, u64)>)
    requires
        forall|k1: int, k2: int|
            0 <= k1 < k2 < ts.len() ==> (#[trigger] ts[k1]).1 != (#[trigger] ts[k2]).1,
        forall|k: int|
            0 <= k < ts.len() ==> ((#[trigger] ts[k]).1 as int) < seen.len() && !seen[ts[k].1 as int],
    ensures
        count_false(mark_targets(seen, ts)) + ts.len() == count_false(seen),
    decreases ts.len(),
{
    if ts.len() == 0 {
        assert(mark_targets(seen, ts) =~= seen);
    } else {
        let t = ts.last().1 as int;
        let seen2 = seen.update(t, true);
        lemma_count_false_update(seen, t);
        assert forall|j: int|
            0 <= j < seen.len() implies mark_targets(seen, ts)[j] == mark_targets(
            seen2,
            ts.drop_last(),
        )[j] by {
            if j == t {
                assert(((#[trigger] ts[ts.len() - 1]).1 as int) == j);
                assert(mark_targets(seen, ts)[j]);
            } else {
                if exists|k: int| 0 <= k < ts.len() && ((#[trigger] ts[k]).1 as int) == j {
                    let k = choose|k: int| 0 <= k < ts.len() && ((#[trigger] ts[k]).1 as int) == j;
                    assert(k < ts.len() - 1);
                    assert((ts.drop_last()[k].1 as int) == j);
                }
                if exists|k: int|
                    0 <= k < ts.drop_last().len() && ((#[trigger] ts.drop_last()[k]).1 as int)
                        == j {
                    let k = choose|k: int|
                        0 <= k < ts.drop_last().len() && ((#[trigger] ts.drop_last()[k]).1 as int)
                            == j;
                    assert((ts[k].1 as int) == j);
                }
            }
        }
        assert(mark_targets(seen, ts) =~= mark_targets(seen2, ts.drop_last()));
        assert forall|k: int|
            0 <= k < ts.drop_last().len() implies ((#[trigger] ts.drop_last()[k]).1 as int)
            < seen2.len() && !seen2[ts.drop_last()[k].1 as int] by {
            assert(ts[k] == ts.drop_last()[k]);
            assert(ts[k].1 != ts[ts.len() - 1].1);
        }
        lemma_count_false_mark(seen2, ts.drop_last());
    }
}

/// The total weight of a sequence of weighted hops.
pub open spec fn hops_weight(hs: Seq<(nat, nat, u64)>) -> int
    decreases hs.len(),
{
    if hs.len() == 0 {
        0
    } else {
        hops_weight(hs.drop_last()) + hs.last().2
    }
}

/// Some pending walk edge points at node `x`.
spec fn walk_stack_has(sv: Seq<(nat, nat, u64)>, x: int) -> bool {
    exists|k: int| 0 <= k < sv.len() && ((#[trigger] sv[k]).1 as int) == x
}

/// The tree edges of one adjacency row whose children are still unseen, in
/// list order, each counted once, together with the map after marking them.
pub open spec fn fresh_push(row: Seq<(nat, u64)>, seen: Seq<bool>, c: nat) -> (
    Seq<(nat, nat, u64)>,
    Seq<bool>,
)
    decreases row.len(),
{
    if row.len() == 0 {
        (Seq::<(nat, nat, u64)>::empty(), seen)
    } else {
        let e = row[0];
        if (e.0 as int) < seen.len() && !seen[e.0 as int] {
            let r = fresh_push(row.drop_first(), seen.update(e.0 as int, true), c);
            (seq![(c, e.0, e.1)] + r.0, r.1)
        } else {
            fresh_push(row.drop_first(), seen, c)
        }
    }
}

/// Descending one row marks exactly as many nodes as it pushes edges, and
/// pushing nothing changes nothing.
proof fn lemma_fresh_push_count(row: Seq<(nat, u64)>, seen: Seq<bool>, c: nat)
    ensures
        count_false(fresh_push(row, seen, c).1) + fresh_push(row, seen, c).0.len() == count_false(
            seen,
        ),
        fresh_push(row, seen, c).1.len() == seen.len(),
        fresh_push(row, seen, c).0.len() == 0 ==> fresh_push(row, seen, c).1 == seen,
    decreases row.len(),
{
    if row.len() > 0 {
        let e = row[0];
        if (e.0 as int) < seen.len() && !seen[e.0 as int] {
            lemma_count_false_update(seen, e.0 as int);
            lemma_fresh_push_count(row.drop_first(), seen.update(e.0 as int, true), c);
        } else {
            lemma_fresh_push_count(row.drop_first(), seen, c);
        }
    }
}

/// When a row's children are all unseen and pairwise distinct — as a
/// well-formed tree's are — descending it pushes every edge and marks every
/// child.
proof fn lemma_fresh_push_all(row: Seq<(nat, u64)>, seen: Seq<bool>, c: nat)
    requires
        forall|k: int|
            0 <= k < row.len() ==> ((#[trigger] row[k]).0 as int) < seen.len()
                && !seen[row[k].0 as int],
        forall|k1: int, k2: int|
            0 <= k1 < k2 < row.len() ==> (#[trigger] row[k1]).0 != (#[trigger] row[k2]).0,
    ensures
        fresh_push(row, seen, c).0 == row.map_values(|e: (nat, u64)| (c, e.0, e.1)),
        fresh_push(row, seen, c).1 == mark_targets(
            seen,
            row.map_values(|e: (nat, u64)| (c, e.0, e.1)),
        ),
    decreases row.len(),
{
    let ct = row.map_values(|e: (nat, u64)| (c, e.0, e.1));
    if row.len() == 0 {
        assert(fresh_push(row, seen, c).0 =~= ct);
        assert(fresh_push(row, seen, c).1 =~= mark_targets(seen, ct));
    } else {
        let e = row[0];
        let seen2 = seen.update(e.0 as int, true);
        let rest = row.drop_first();
        assert forall|k: int|
            0 <= k < rest.len() implies ((#[trigger] rest[k]).0 as int) < seen2.len()
            && !seen2[rest[k].0 as int] by {
            assert(rest[k] == row[k + 1]);
            assert(row[k + 1].0 != row[0].0);
        }
        assert forall|k1: int, k2: int|
            0 <= k1 < k2 < rest.len() implies (#[trigger] rest[k1]).0 != (#[trigger] rest[k2]).0 by {
            assert(rest[k1] == row[k1 + 1] && rest[k2] == row[k2 + 1]);
            assert(row[k1 + 1].0 != row[k2 + 1].0);
        }
        lemma_fresh_push_all(rest, seen2, c);
        let rct = rest.map_values(|e2: (nat, u64)| (c, e2.0, e2.1));
        assert(fresh_push(row, seen, c).0 =~= ct) by {
            assert(fresh_push(row, seen, c).0 == seq![(c, e.0, e.1)] + rct);
            assert forall|k: int| 0 <= k < ct.len() implies ct[k] == (seq![(c, e.0, e.1)]
                + rct)[k] by {
                if k > 0 {
                    assert(ct[k] == (c, row[k].0, row[k].1));
                    assert(rct[k - 1] == (c, rest[k - 1].0, rest[k - 1].1));
                    assert(rest[k - 1] == row[k]);
                }
            }
        }
        assert(fresh_push(row, seen, c).1 =~= mark_targets(seen, ct)) by {
            assert(fresh_push(row, seen, c).1 == mark_targets(seen2, rct));
            assert forall|j: int|
                0 <= j < seen.len() implies mark_targets(seen2, rct)[j] == mark_targets(
                seen,
                ct,
            )[j] by {
                if j == e.0 as int {
                    assert((ct[0].1 as int) == j);
                    assert(mark_targets(seen, ct)[j]);
                } else {
                    if exists|k: int| 0 <= k < rct.len() && ((#[trigger] rct[k]).1 as int) == j {
                        let k = choose|k: int|
                            0 <= k < rct.len() && ((#[trigger] rct[k]).1 as int) == j;
                        assert((ct[k + 1].1 as int) == j);
                    }
                    if exists|k: int| 0 <= k < ct.len() && ((#[trigger] ct[k]).1 as int) == j {
                        let k = choose|k: int|
                            0 <= k < ct.len() && ((#[trigger] ct[k]).1 as int) == j;
                        assert(k > 0);
                        assert((rct[k - 1].1 as int) == j);
                    }
                }
            }
        }
    }
}

/// What descending one row pushes: edges from `c` to children that were
/// unseen and are marked afterwards, each child once, each edge from the
/// row.
proof fn lemma_fresh_push_facts(row: Seq<(nat, u64)>, seen: Seq<bool>, c: nat)
    ensures
        fresh_push(row, seen, c).1.len() == seen.len(),
        forall|j: int| 0 <= j < seen.len() && seen[j] ==> fresh_push(row, seen, c).1[j],
        forall|k: int|
            0 <= k < fresh_push(row, seen, c).0.len() ==> {
                let t = #[trigger] fresh_push(row, seen, c).0[k];
                &&& t.0 == c
                &&& (t.1 as int) < seen.len()
                &&& !seen[t.1 as int]
                &&& fresh_push(row, seen, c).1[t.1 as int]
                &&& exists|q: int| 0 <= q < row.len() && #[trigger] row[q] == (t.1, t.2)
            },
        forall|k1: int, k2: int|
            0 <= k1 < k2 < fresh_push(row, seen, c).0.len() ==> (#[trigger] fresh_push(
                row,
                seen,
                c,
            ).0[k1]).1 != (#[trigger] fresh_push(row, seen, c).0[k2]).1,
    decreases row.len(),
{
    if row.len() > 0 {
        let e = row[0];
        let fp = fresh_push(row, seen, c);
        if (e.0 as int) < seen.len() && !seen[e.0 as int] {
            let seen2 = seen.update(e.0 as int, true);
            lemma_fresh_push_facts(row.drop_first(), seen2, c);
            let r = fresh_push(row.drop_first(), seen2, c);
            assert(fp.0 == seq![(c, e.0, e.1)] + r.0);
            assert(fp.0[0] == (c, e.0, e.1));
            assert forall|j: int| 0 <= j < seen.len() && seen[j] implies fp.1[j] by {
                assert(seen2[j]);
            }
            assert forall|k: int|
                0 <= k < fp.0.len() implies {
                let t = #[trigger] fp.0[k];
                &&& t.0 == c
                &&& (t.1 as int) < seen.len()
                &&& !seen[t.1 as int]
                &&& fp.1[t.1 as int]
                &&& exists|q: int| 0 <= q < row.len() && #[trigger] row[q] == (t.1, t.2)
            } by {
                if k == 0 {
                    assert(row[0] == (fp.0[0].1, fp.0[0].2));
                    assert(seen2[e.0 as int]);
                } else {
                    assert(fp.0[k] == r.0[k - 1]);
                    let q = choose|q: int|
                        0 <= q < row.drop_first().len() && #[trigger] row.drop_first()[q] == (
                            r.0[k - 1].1,
                            r.0[k - 1].2,
                        );
                    assert(row[q + 1] == (fp.0[k].1, fp.0[k].2));
                }
            }
            assert forall|k1: int, k2: int|
                0 <= k1 < k2 < fp.0.len() implies (#[trigger] fp.0[k1]).1 != (
            #[trigger] fp.0[k2]).1 by {
                if k1 == 0 {
                    assert(fp.0[k2] == r.0[k2 - 1]);
                    assert(!seen2[r.0[k2 - 1].1 as int]);
                } else {
                    assert(fp.0[k1] == r.0[k1 - 1] && fp.0[k2] == r.0[k2 - 1]);
                }
            }
        } else {
            lemma_fresh_push_facts(row.drop_first(), seen, c);
            assert forall|k: int|
                0 <= k < fp.0.len() implies {
                let t = #[trigger] fp.0[k];
                &&& t.0 == c
                &&& (t.1 as int) < seen.len()
                &&& !seen[t.1 as int]
                &&& fp.1[t.1 as int]
                &&& exists|q: int| 0 <= q < row.len() && #[trigger] row[q] == (t.1, t.2)
            } by {
                let q = choose|q: int|
                    0 <= q < row.drop_first().len() && #[trigger] row.drop_first()[q] == (
                        fp.0[k].1,
                        fp.0[k].2,
                    );
                assert(row[q + 1] == (fp.0[k].1, fp.0[k].2));
            }
        }
    }
}

/// The double-tree walk, step by step over the pending-edge stack: walk a
/// pending tree edge when its source is first used, else shortcut from the
/// last toured node to its child over the direct graph edge; put the child's
/// own unseen tree edges on the stack; close back to `start` when nothing is
/// pending. `None` when a needed shortcut or closing edge is missing.
pub open spec fn dt_run(
    es: Seq<EdgeModel>,
    av: Seq<Seq<(nat, u64)>>,
    stack: Seq<(nat, nat, u64)>,
    seen: Seq<bool>,
    visited: Seq<bool>,
    last: nat,
    start: nat,
    acc: int,
) -> Option<int>
    decreases count_false(seen), stack.len(),
    via dt_run_dec
{
    if stack.len() == 0 {
        match edge_weight(es, last, start) {
            Some(w) => Some(acc + w),
            None => None::<int>,
        }
    } else {
        let e = stack.last();
        let fp = fresh_push(av[e.1 as int], seen, e.1);
        let stack2 = stack.drop_last() + fp.0;
        if (e.0 as int) < visited.len() && !visited[e.0 as int] {
            dt_run(
                es,
                av,
                stack2,
                fp.1,
                visited.update(e.0 as int, true),
                e.1,
                start,
                acc + e.2,
            )
        } else {
            match edge_weight(es, last, e.1) {
                Some(w) => dt_run(es, av, stack2, fp.1, visited, e.1, start, acc + w),
                None => None::<int>,
            }
        }
    }
}

#[via_fn]
proof fn dt_run_dec(
    es: Seq<EdgeModel>,
    av: Seq<Seq<(nat, u64)>>,
    stack: Seq<(nat, nat, u64)>,
    seen: Seq<bool>,
    visited: Seq<bool>,
    last: nat,
    start: nat,
    acc: int,
) {
    if stack.len() > 0 {
        let e = stack.last();
        lemma_fresh_push_count(av[e.1 as int], seen, e.1);
    }
}

/// A map over `n` nodes marking only node `x`.
pub open spec fn only_marked(n: nat, x: nat) -> Seq<bool> {
    Seq::new(n, |j: int| j == x as int)
}

/// A map over `n` nodes marking nothing.
pub open spec fn none_marked(n: nat) -> Seq<bool> {
    Seq::new(n, |j: int| false)
}

/// On a complete graph the double-tree walk always closes: every shortcut
/// steps between two distinct nodes, and the closing hop leaves a node other
/// than the start.
proof fn lemma_dt_run_closes(
    es: Seq<EdgeModel>,
    av: Seq<Seq<(nat, u64)>>,
    stack: Seq<(nat, nat, u64)>,
    seen: Seq<bool>,
    visited: Seq<bool>,
    last: nat,
    start: nat,
    acc: int,
    n: nat,
)
    requires
        complete(es, n),
        av.len() == n,
        seen.len() == n,
        start < n,
        last < n,
        forall|p: int, q: int|
            0 <= p < n && 0 <= q < av[p].len() ==> ((#[trigger] av[p][q]).0 < n && av[p][q].0
                != start),
        forall|k: int|
            0 <= k < stack.len() ==> ((#[trigger] stack[k]).1 < n && stack[k].1 != start
                && seen[stack[k].1 as int] && stack[k].1 != last),
        forall|k1: int, k2: int|
            0 <= k1 < k2 < stack.len() ==> (#[trigger] stack[k1]).1 != (#[trigger] stack[k2]).1,
        stack.len() >= 1 || last != start,
    ensures
        dt_run(es, av, stack, seen, visited, last, start, acc) is Some,
    decreases count_false(seen), stack.len(),
{
    if stack.len() == 0 {
        assert(has_edge(es, last, start));
        lemma_edge_weight_some(es, last, start);
    } else {
        let e = stack.last();
        let row = av[e.1 as int];
        let fp = fresh_push(row, seen, e.1);
        lemma_fresh_push_facts(row, seen, e.1);
        lemma_fresh_push_count(row, seen, e.1);
        let stack2 = stack.drop_last() + fp.0;
        assert forall|k: int|
            0 <= k < stack2.len() implies ((#[trigger] stack2[k]).1 < n && stack2[k].1 != start
            && fp.1[stack2[k].1 as int] && stack2[k].1 != e.1) by {
            if k < stack.len() - 1 {
                assert(stack2[k] == stack[k]);
                assert(stack[k].1 != stack[stack.len() - 1].1);
                assert(seen[stack[k].1 as int]);
            } else {
                assert(stack2[k] == fp.0[k - (stack.len() - 1)]);
                let t = fp.0[k - (stack.len() - 1)];
                let q = choose|q: int| 0 <= q < row.len() && #[trigger] row[q] == (t.1, t.2);
                assert(av[e.1 as int][q].0 == t.1);
                assert(t.1 < n && t.1 != start);
                assert(!seen[t.1 as int] && seen[e.1 as int]);
            }
        }
        assert forall|k1: int, k2: int|
            0 <= k1 < k2 < stack2.len() implies (#[trigger] stack2[k1]).1 != (
        #[trigger] stack2[k2]).1 by {
            let b0 = stack.len() - 1;
            if k1 < b0 && k2 < b0 {
                assert(stack2[k1] == stack[k1] && stack2[k2] == stack[k2]);
            } else if k1 < b0 && k2 >= b0 {
                assert(stack2[k1] == stack[k1]);
                assert(stack2[k2] == fp.0[k2 - b0]);
                assert(seen[stack[k1].1 as int]);
                assert(!seen[fp.0[k2 - b0].1 as int]);
            } else {
                assert(stack2[k1] == fp.0[k1 - b0] && stack2[k2] == fp.0[k2 - b0]);
            }
        }
        if (e.0 as int) < visited.len() && !visited[e.0 as int] {
            lemma_dt_run_closes(
                es,
                av,
                stack2,
                fp.1,
                visited.update(e.0 as int, true),
                e.1,
                start,
                acc + e.2,
                n,
            );
        } else {
            assert(last != e.1);
            assert(has_edge(es, last, e.1));
            lemma_edge_weight_some(es, last, e.1);
            let w = edge_weight(es, last, e.1)->Some_0;
            lemma_dt_run_closes(es, av, stack2, fp.1, visited, e.1, start, acc + w, n);
        }
    }
}

/// What the double-tree approximation computes: the walk over Prim's tree
/// from the start node's initial state — the root's unseen children pending,
/// no node toured yet.
pub open spec fn dt_result(es: Seq<EdgeModel>, n: nat, start: nat) -> Option<int> {
    let av = crate::algo::mst::prim_result(es, n, start).0;
    let fp = fresh_push(av[start as int], only_marked(n, start), start);
    dt_run(es, av, fp.0, fp.1, none_marked(n), start, start, 0)
}

/// On a complete graph whose Prim tree is well formed and hangs at least one
/// child under the root — which `prim`'s own contract gives of every
/// complete graph with two or more nodes — the double-tree walk closes: the
/// approximation's precondition holds.
pub proof fn lemma_dt_ready(es: Seq<EdgeModel>, n: nat, start: nat)
    requires
        complete(es, n),
        start < n,
        prim_result(es, n, start).0.len() == n,
        forall|p: int, q: int|
            0 <= p < n && 0 <= q < prim_result(es, n, start).0[p].len() ==> ((#[trigger] prim_result(
                es,
                n,
                start,
            ).0[p][q]).0 < n && prim_result(es, n, start).0[p][q].0 != start),
        prim_result(es, n, start).0[start as int].len() >= 1,
    ensures
        dt_result(es, n, start) is Some,
{
    let av = prim_result(es, n, start).0;
    let base = only_marked(n, start);
    let row = av[start as int];
    let fp = fresh_push(row, base, start);
    lemma_fresh_push_facts(row, base, start);
    lemma_fresh_push_count(row, base, start);
    assert(fp.0.len() >= 1) by {
        assert(av[start as int][0].0 < n && av[start as int][0].0 != start);
        assert((row[0].0 as int) < base.len() && !base[row[0].0 as int]);
    }
    assert forall|k: int|
        0 <= k < fp.0.len() implies ((#[trigger] fp.0[k]).1 < n && fp.0[k].1 != start
        && fp.1[fp.0[k].1 as int]) by {
        let t = fp.0[k];
        let q = choose|q: int| 0 <= q < row.len() && #[trigger] row[q] == (t.1, t.2);
        assert(av[start as int][q].0 == t.1);
    }
    lemma_dt_run_closes(es, av, fp.0, fp.1, none_marked(n), start, start, 0, n);
}

/// The double-tree traveling-salesperson approximation: build Prim's
/// spanning tree from the start node, walk it depth-first, pay each tree
/// edge whose source is newly reached, shortcut past repeated sources
/// through a direct graph edge, and close the walk back to the start node.
/// The result is exactly the walk's value; the graph must admit the
/// shortcut and closing edges the walk needs, which the precondition states
/// as the walk spec succeeding.
pub fn double_mst<G: Graph>(graph: &G, start_ix: NodeIx) -> (r: u64)
    requires
        graph.wf_spec(),
        (start_ix.0 as nat) < graph.nodes_spec(),
        weights_fit(graph.edges_spec(), graph.nodes_spec()),
        dt_result(graph.edges_spec(), graph.nodes_spec(), start_ix.0 as nat) is Some,
    ensures
        // exactly the double-tree walk over Prim's tree
        Some(r as int) == dt_result(graph.edges_spec(), graph.nodes_spec(), start_ix.0 as nat),
        // the result is also the weight of a sequence of hops along real
        // graph edges that visits every node reachable from the start and
        // ends back at the start
        exists|hops: Seq<(nat, nat, u64)>|
            (#[trigger] hops_weight(hops)) == r as int && hops.len() >= 1 && (forall|i: int|
                0 <= i < hops.len() ==> has_edge_with(
                    graph.edges_spec(),
                    (#[trigger] hops[i]).0,
                    hops[i].1,
                    hops[i].2,
                )) && hops[hops.len() - 1].1 == start_ix.0 as nat && (forall|j: nat|
                j < graph.nodes_spec() && reaches(
                    graph.edges_spec(),
                    graph.nodes_spec(),
                    start_ix.0 as nat,
                    j,
                ) && j != start_ix.0 as nat ==> exists|i: int|
                    0 <= i < hops.len() && ((#[trigger] hops[i]).1) == j),
{
    let ghost es = graph.edges_spec();
    let ghost n = graph.nodes_spec();
    let ghost start = start_ix.0 as nat;
    proof {
        lemma_max_weight_each(es);
    }
    let tree = mst::prim(graph, start_ix);
    let ghost av = tree.adj();
    let size = graph.size();
    let mut visited: Vec<bool> = Vec::new();
    let mut i: u32 = 0;
    while i < size.0
        invariant
            i <= size.0,
            visited@ =~= Seq::new(i as nat, |j: int| false),
        decreases size.0 - i,
    {
        visited.push(false);
        i = i + 1;
    }
    let mut result: u64 = 0;
    let mut last_node = start_ix;
    let mut it = tree.dfs();
    let ghost base = only_marked(n, start);
    let ghost mut seen = mark_targets(base, it.stack_view());
    let ghost mut pmap = base;
    let ghost mut hops: Seq<(nat, nat, u64)> = Seq::empty();
    let ghost mut yields: nat = 0;
    let ghost dt0 = dt_result(es, n, start);
    proof {
        assert(base =~= Seq::new(n, |j: int| false).update(start as int, true));
        lemma_count_false_new(n);
        lemma_count_false_update(Seq::new(n, |j: int| false), start as int);
        let ct = child_triples(av, start);
        assert forall|k: int| 0 <= k < ct.len() implies ((#[trigger] ct[k]).0 == start && ct[k].1
            == av[start as int][k].0 && ct[k].2 == av[start as int][k].1) by {}
        assert forall|k1: int, k2: int|
            0 <= k1 < k2 < ct.len() implies (#[trigger] ct[k1]).1 != (#[trigger] ct[k2]).1 by {
            assert(av[start as int][k1].0 != av[start as int][k2].0);
        }
        assert forall|k: int|
            0 <= k < ct.len() implies ((#[trigger] ct[k]).1 as int) < base.len()
                && !base[ct[k].1 as int] by {
            assert(av[start as int][k].0 < n && av[start as int][k].0 != start);
        }
        lemma_count_false_mark(base, ct);
        assert forall|j: nat|
            j < n implies ((j == start || is_target(av, j)) <==> reaches(es, n, start, j)) by {
            assert((j == start || is_target(tree.adj(), j)) <==> reaches(es, n, start, j));
        }
        // at the outset the root is finished, its children are the pending
        // edges, and nothing else is marked
        assert forall|p: int, q2: int|
            0 <= p < n && 0 <= q2 < av[p].len() && base[p] implies mark_targets(base, ct)[(
        #[trigger] av[p][q2]).0 as int] by {
            assert(p == start as int);
            assert(((#[trigger] ct[q2]).1 as int) == av[p][q2].0 as int);
        }
        assert forall|x: int|
            0 <= x < n && mark_targets(base, ct)[x] && !base[x] implies walk_stack_has(
            it.stack_view(),
            x,
        ) by {
            let k = choose|k: int| 0 <= k < ct.len() && ((#[trigger] ct[k]).1 as int) == x;
            assert((it.stack_view()[k].1 as int) == x);
        }
        // the starting state is the walk spec's starting state
        let row = av[start as int];
        assert forall|k: int|
            0 <= k < row.len() implies ((#[trigger] row[k]).0 as int) < base.len()
                && !base[row[k].0 as int] by {
            assert(ct[k].1 == row[k].0);
        }
        assert forall|k1: int, k2: int|
            0 <= k1 < k2 < row.len() implies (#[trigger] row[k1]).0 != (#[trigger] row[k2]).0 by {
            assert(ct[k1].1 == row[k1].0 && ct[k2].1 == row[k2].0);
        }
        lemma_fresh_push_all(row, base, start);
        assert(row.map_values(|e: (nat, u64)| (start, e.0, e.1)) =~= ct);
        assert(fresh_push(row, base, start).0 == it.stack_view());
        assert(fresh_push(row, base, start).1 == seen);
        assert(av == crate::algo::mst::prim_result(es, n, start).0);
        assert(visited@ =~= none_marked(n));
        assert(dt_run(es, av, it.stack_view(), seen, visited@, start, start, 0) == dt0);
    }
    loop
        invariant
            graph.wf_spec(),
            es == graph.edges_spec(),
            n == graph.nodes_spec(),
            start == start_ix.0 as nat,
            start < n,
            weights_fit(es, n),
            max_weight(es) >= 0,
            forall|k: int| 0 <= k < es.len() ==> ((#[trigger] es[k]).w as int) <= max_weight(es),
            it.tree() == tree,
            tree.wf(n),
            av == tree.adj(),
            av.len() == n,
            tree.start_spec() == start,
            forall|p: int, q: int|
                0 <= p < n && 0 <= q < av[p].len() ==> (#[trigger] av[p][q]).0 < n && av[p][q].0
                    != start,
            crate::algo::mst::targets_distinct(av),
            forall|p: int, q: int|
                0 <= p < n && 0 <= q < av[p].len() ==> has_edge_with(
                    es,
                    p as nat,
                    (#[trigger] av[p][q]).0,
                    av[p][q].1,
                ),
            forall|j: nat| #[trigger] is_target(av, j) ==> tree_reaches(av, start, j),
            forall|j: nat|
                j < n ==> ((j == start || is_target(av, j)) <==> reaches(es, n, start, j)),
            visited@.len() == n,
            seen.len() == n,
            pmap.len() == n,
            pmap[start as int],
            seen[start as int],
            // a finished node's children are all marked
            forall|p: int, q: int|
                0 <= p < n && 0 <= q < av[p].len() && pmap[p] ==> seen[(#[trigger] av[p][q]).0
                    as int],
            // a marked, unfinished node is pointed at by a pending edge
            forall|x: int|
                0 <= x < n && #[trigger] seen[x] && !pmap[x] ==> walk_stack_has(
                    it.stack_view(),
                    x,
                ),
            // every finished node other than the root was walked to
            forall|x: int|
                0 <= x < n && #[trigger] pmap[x] && x != start as int ==> (exists|i: int|
                    0 <= i < hops.len() && ((#[trigger] hops[i]).1 as int) == x),
            forall|k: int|
                0 <= k < it.stack_view().len() ==> {
                    let e = #[trigger] it.stack_view()[k];
                    &&& e.0 < n
                    &&& e.1 < n
                    &&& e.1 != start
                    &&& seen[e.1 as int]
                    &&& !pmap[e.1 as int]
                    &&& exists|q: int| 0 <= q < av[e.0 as int].len() && av[e.0 as int][q] == (e.1, e.2)
                },
            forall|k1: int, k2: int|
                0 <= k1 < k2 < it.stack_view().len() ==> (#[trigger] it.stack_view()[k1]).1 != (
                #[trigger] it.stack_view()[k2]).1,
            forall|x: int| 0 <= x < n && pmap[x] ==> seen[x],
            forall|p: int, q: int|
                0 <= p < n && 0 <= q < av[p].len() && seen[(#[trigger] av[p][q]).0 as int]
                    ==> pmap[p],
            yields + count_false(seen) + it.stack_view().len() == n - 1,
            (last_node.0 as nat) < n,
            result as int == hops_weight(hops),
            hops.len() == yields,
            forall|i2: int|
                0 <= i2 < hops.len() ==> has_edge_with(
                    es,
                    (#[trigger] hops[i2]).0,
                    hops[i2].1,
                    hops[i2].2,
                ),
            result as int <= yields * max_weight(es),
            dt0 == dt_result(es, n, start),
            dt0 is Some,
            dt_run(es, av, it.stack_view(), seen, visited@, last_node.0 as nat, start, result as int)
                == dt0,
        ensures
            it.stack_view().len() == 0,
            (last_node.0 as nat) < n,
            result as int == hops_weight(hops),
            hops.len() == yields,
            forall|i2: int|
                0 <= i2 < hops.len() ==> has_edge_with(
                    es,
                    (#[trigger] hops[i2]).0,
                    hops[i2].1,
                    hops[i2].2,
                ),
            result as int <= yields * max_weight(es),
            yields <= n - 1,
            es == graph.edges_spec(),
            n == graph.nodes_spec(),
            start == start_ix.0 as nat,
            max_weight(es) >= 0,
            weights_fit(es, n),
            dt0 == dt_result(es, n, start),
            dt0 is Some,
            dt_run(es, av, it.stack_view(), seen, visited@, last_node.0 as nat, start, result as int)
                == dt0,
            // the walk reached every node the start reaches
            forall|j: nat|
                j < n && reaches(es, n, start, j) && j != start ==> (exists|i: int|
                    0 <= i < hops.len() && ((#[trigger] hops[i]).1) == j),
        decreases count_false(seen), it.stack_view().len(),
    {
        let ghost sv0 = it.stack_view();
        let ghost seen0 = seen;
        let ghost pmap0 = pmap;
        let ghost hops0 = hops;
        let ghost visd0 = visited@;
        let ghost last0 = last_node;
        let ghost res0 = result;
        let nxt = it.next();
        match nxt {
            None => {
                proof {
                    // the stack is empty, so the finished set is closed
                    // under tree edges and covers everything below the root
                    assert forall|x: nat, y: nat|
                        #[trigger] tree_edge(av, x, y) && pmap[x as int] implies pmap[y as int] by {
                        let q = choose|q: int|
                            0 <= q < av[x as int].len() && (#[trigger] av[x as int][q]).0 == y;
                        assert(y < n);
                        assert(seen[y as int]);
                        assert(!walk_stack_has(it.stack_view(), y as int));
                    }
                    assert forall|j: nat|
                        j < n && reaches(es, n, start, j) && j != start implies (exists|i: int|
                        0 <= i < hops.len() && ((#[trigger] hops[i]).1) == j) by {
                        assert(is_target(av, j));
                        assert(tree_reaches(av, start, j));
                        lemma_tree_reach_in_closed(av, pmap, start, j);
                        assert(pmap[j as int]);
                    }
                }
                break ;
            },
            Some((from_ix, to_ix, w)) => {
                let ghost e = sv0.last();
                let ghost to = to_ix.0 as nat;
                let ghost from = from_ix.0 as nat;
                proof {
                    assert(e == (from, to, w));
                    assert(e.1 < n && !pmap[e.1 as int] && seen[e.1 as int]);
                }
                let ghost ct = child_triples(av, to);
                proof {
                    // the popped node's children are fresh: a seen child's
                    // parent would already be finished, but this node is not
                    assert forall|k: int| 0 <= k < ct.len() implies ((#[trigger] ct[k]).1 as int)
                        < seen.len() && !seen[ct[k].1 as int] && ct[k].1 < n && ct[k].1 != start
                        && (exists|q: int|
                        0 <= q < av[ct[k].0 as int].len() && av[ct[k].0 as int][q] == (
                        ct[k].1,
                        ct[k].2,
                        )) && ct[k].0 == to by {
                        assert(av[to as int].map_values(|e2: (nat, u64)| (to, e2.0, e2.1))[k] == (
                            to,
                            av[to as int][k].0,
                            av[to as int][k].1,
                        ));
                        assert(ct[k] == (to, av[to as int][k].0, av[to as int][k].1));
                        assert(av[to as int][k].0 < n && av[to as int][k].0 != start);
                        assert(av[ct[k].0 as int][k] == (ct[k].1, ct[k].2));
                        if seen[av[to as int][k].0 as int] {
                            assert(pmap[to as int]);
                        }
                    }
                    assert forall|k1: int, k2: int|
                        0 <= k1 < k2 < ct.len() implies (#[trigger] ct[k1]).1 != (
                    #[trigger] ct[k2]).1 by {
                        assert(ct[k1].1 == av[to as int][k1].0);
                        assert(ct[k2].1 == av[to as int][k2].0);
                    }
                    lemma_count_false_mark(seen, ct);
                    // the walk spec pushes exactly these fresh children
                    let row = av[to as int];
                    assert forall|k: int|
                        0 <= k < row.len() implies ((#[trigger] row[k]).0 as int) < seen.len()
                            && !seen[row[k].0 as int] by {
                        assert(ct[k].1 == row[k].0);
                        assert(!seen[ct[k].1 as int]);
                    }
                    assert forall|k1: int, k2: int|
                        0 <= k1 < k2 < row.len() implies (#[trigger] row[k1]).0 != (
                    #[trigger] row[k2]).0 by {
                        assert(ct[k1].1 == row[k1].0 && ct[k2].1 == row[k2].0);
                    }
                    lemma_fresh_push_all(row, seen, to);
                    assert(row.map_values(|e2: (nat, u64)| (to, e2.0, e2.1)) =~= ct);
                    assert(fresh_push(row, seen, to).0 == ct);
                    assert(fresh_push(row, seen, to).1 == mark_targets(seen, ct));
                }
                let add: u64 = if !visited[from_ix.0 as usize] {
                    visited[from_ix.0 as usize] = true;
                    proof {
                        let q0 = choose|q: int|
                            0 <= q < av[from as int].len() && av[from as int][q] == (to, w);
                        assert(av[from as int][q0] == (to, w));
                        assert(has_edge_with(es, from, to, w));
                        hops = hops.push((from, to, w));
                    }
                    w
                } else {
                    proof {
                        // the walk's own closure condition supplies the
                        // shortcut edge
                        assert(edge_weight(es, last_node.0 as nat, to) is Some) by {
                            if edge_weight(es, last0.0 as nat, to) is None {
                                assert(dt_run(
                                    es,
                                    av,
                                    sv0,
                                    seen0,
                                    visd0,
                                    last0.0 as nat,
                                    start,
                                    res0 as int,
                                ) == None::<int>);
                            }
                        }
                        lemma_edge_weight_is_real(es, last_node.0 as nat, to);
                    }
                    let a = graph.get_edge_weight(last_node, to_ix).unwrap();
                    proof {
                        hops = hops.push((last_node.0 as nat, to, a));
                    }
                    a
                };
                proof {
                    // weight bookkeeping and overflow
                    assert(hops.drop_last() =~= hops0);
                    assert(hops.last().2 == add);
                    assert(hops.drop_last().len() == yields);
                    let hw = hops.last();
                    assert(has_edge_with(es, hw.0, hw.1, hw.2));
                    let kk = choose|k: int|
                        0 <= k < es.len() && edge_joins(#[trigger] es[k], hw.0, hw.1) && es[k].w
                            == hw.2;
                    assert(es[kk].w == hw.2);
                    assert(add as int <= max_weight(es));
                    assert(yields <= n - 1);
                    assert(result as int + add as int <= (yields + 1) * max_weight(es))
                        by (nonlinear_arith)
                        requires
                            result as int <= yields * max_weight(es),
                            add as int <= max_weight(es),
                    ;
                    assert((yields + 1) * max_weight(es) <= (n + 1) * max_weight(es))
                        by (nonlinear_arith)
                        requires
                            yields + 1 <= n + 1,
                            max_weight(es) >= 0,
                    ;
                }
                result = result + add;
                last_node = to_ix;
                proof {
                    yields = yields + 1;
                    pmap = pmap.update(to as int, true);
                    seen = mark_targets(seen0, ct);
                    // the stack lost the walked edge and gained the children
                    assert(it.stack_view() == sv0.drop_last() + ct);
                    assert forall|k: int|
                        0 <= k < it.stack_view().len() implies {
                        let e2 = #[trigger] it.stack_view()[k];
                        &&& e2.0 < n
                        &&& e2.1 < n
                        &&& e2.1 != start
                        &&& seen[e2.1 as int]
                        &&& !pmap[e2.1 as int]
                        &&& exists|q: int|
                            0 <= q < av[e2.0 as int].len() && av[e2.0 as int][q] == (e2.1, e2.2)
                    } by {
                        if k < sv0.len() - 1 {
                            assert(it.stack_view()[k] == sv0[k]);
                            assert(sv0[k].1 != sv0[sv0.len() - 1].1);
                            assert(seen[sv0[k].1 as int]);
                        } else {
                            let e2 = ct[k - (sv0.len() - 1)];
                            assert(it.stack_view()[k] == e2);
                            assert(seen[e2.1 as int]) by {
                                assert(mark_targets(seen0, ct)[e2.1 as int]);
                            }
                            assert(!seen0[e2.1 as int]);
                            assert(e2.1 != to);
                            assert(!pmap[e2.1 as int]);
                        }
                    }
                    assert forall|k1: int, k2: int|
                        0 <= k1 < k2 < it.stack_view().len() implies (
                    #[trigger] it.stack_view()[k1]).1 != (#[trigger] it.stack_view()[k2]).1 by {
                        let b0 = sv0.len() - 1;
                        if k1 < b0 && k2 < b0 {
                            assert(it.stack_view()[k1] == sv0[k1]);
                            assert(it.stack_view()[k2] == sv0[k2]);
                        } else if k1 < b0 && k2 >= b0 {
                            assert(it.stack_view()[k1] == sv0[k1]);
                            assert(it.stack_view()[k2] == ct[k2 - b0]);
                            assert(seen0[sv0[k1].1 as int]);
                            assert(!seen0[ct[k2 - b0].1 as int]);
                        } else {
                            assert(it.stack_view()[k1] == ct[k1 - b0]);
                            assert(it.stack_view()[k2] == ct[k2 - b0]);
                        }
                    }
                    assert forall|p: int, q: int|
                        0 <= p < n && 0 <= q < av[p].len() && seen[(#[trigger] av[p][q]).0 as int]
                        implies pmap[p] by {
                        if !seen0[av[p][q].0 as int] {
                            // newly marked: it is one of the children, whose
                            // common parent was just finished
                            let k = choose|k: int|
                                0 <= k < ct.len() && ((#[trigger] ct[k]).1 as int)
                                    == av[p][q].0 as int;
                            assert(ct[k].1 == av[to as int][k].0);
                            assert(av[p][q].0 == av[to as int][k].0);
                            if p != to as int || q != k {
                                assert(false);
                            }
                        }
                    }
                    // the finished node's children are now all marked
                    assert forall|p: int, q: int|
                        0 <= p < n && 0 <= q < av[p].len() && pmap[p] implies seen[(
                    #[trigger] av[p][q]).0 as int] by {
                        if p == to as int {
                            assert(((#[trigger] ct[q]).1 as int) == av[p][q].0 as int);
                        } else {
                            assert(pmap0[p]);
                            assert(seen0[av[p][q].0 as int]);
                        }
                    }
                    // marked, unfinished nodes keep a pending edge
                    assert forall|x: int|
                        0 <= x < n && #[trigger] seen[x] && !pmap[x] implies walk_stack_has(
                        it.stack_view(),
                        x,
                    ) by {
                        if seen0[x] {
                            assert(x != to as int);
                            assert(walk_stack_has(sv0, x));
                            let k = choose|k: int|
                                0 <= k < sv0.len() && ((#[trigger] sv0[k]).1 as int) == x;
                            assert(k != sv0.len() - 1);
                            assert(it.stack_view()[k] == sv0[k]);
                        } else {
                            let k = choose|k: int|
                                0 <= k < ct.len() && ((#[trigger] ct[k]).1 as int) == x;
                            assert(it.stack_view()[sv0.len() - 1 + k] == ct[k]);
                        }
                    }
                    // the newly finished node was just walked to
                    assert forall|x: int|
                        0 <= x < n && #[trigger] pmap[x] && x != start as int implies (exists|
                        i: int,
                    |
                        0 <= i < hops.len() && ((#[trigger] hops[i]).1 as int) == x) by {
                        if x == to as int {
                            assert((hops[hops.len() - 1].1 as int) == x);
                        } else {
                            assert(pmap0[x]);
                            let i = choose|i: int|
                                0 <= i < hops0.len() && ((#[trigger] hops0[i]).1 as int) == x;
                            assert(hops[i] == hops0[i]);
                        }
                    }
                    assert(hops_weight(hops) == hops_weight(hops.drop_last()) + add);
                    // the walk spec takes exactly this step
                    assert(dt_run(
                        es,
                        av,
                        it.stack_view(),
                        seen,
                        visited@,
                        to,
                        start,
                        result as int,
                    ) == dt0) by {
                        assert(fresh_push(av[to as int], seen0, to) == (ct, seen));
                        assert(it.stack_view() == sv0.drop_last() + ct);
                        assert(sv0.last() == (from, to, w));
                        if !visd0[from as int] {
                            assert(visited@ == visd0.update(from as int, true));
                            assert(result as int == res0 as int + w);
                        } else {
                            assert(visited@ == visd0);
                            assert(add as int == edge_weight_or_zero(es, last0.0 as nat, to));
                            assert(result as int == res0 as int + add);
                        }
                        assert(dt_run(es, av, sv0, seen0, visd0, last0.0 as nat, start, res0 as int)
                            == dt_run(es, av, it.stack_view(), seen, visited@, to, start, result as int));
                    }
                }
            },
        }
    }
    proof {
        // the walk's own closure condition supplies the closing edge
        assert(edge_weight(es, last_node.0 as nat, start) is Some) by {
            if edge_weight(es, last_node.0 as nat, start) is None {
                assert(dt_run(
                    es,
                    av,
                    it.stack_view(),
                    seen,
                    visited@,
                    last_node.0 as nat,
                    start,
                    result as int,
                ) == None::<int>);
            }
        }
        crate::lemma_edge_weight_is_real(es, last_node.0 as nat, start);
        let w3 = edge_weight(es, last_node.0 as nat, start)->Some_0;
        let kk = choose|k: int|
            0 <= k < es.len() && edge_joins(#[trigger] es[k], last_node.0 as nat, start)
                && es[k].w == w3;
        assert(es[kk].w == w3);
        assert(w3 as int <= max_weight(es));
        assert(result as int + w3 as int <= (yields + 1) * max_weight(es)) by (nonlinear_arith)
            requires
                result as int <= yields * max_weight(es),
                w3 as int <= max_weight(es),
        ;
        assert((yields + 1) * max_weight(es) <= (n + 1) * max_weight(es)) by (nonlinear_arith)
            requires
                yields + 1 <= n + 1,
                max_weight(es) >= 0,
        ;
    }
    let ghost res_pre = result;
    let closing = graph.get_edge_weight(last_node, start_ix).unwrap();
    let result = result + closing;
    proof {
        // the walk closes here, so the result is exactly its value
        assert(dt_run(
            es,
            av,
            it.stack_view(),
            seen,
            visited@,
            last_node.0 as nat,
            start,
            res_pre as int,
        ) == Some(res_pre as int + closing));
        assert(Some(result as int) == dt0);
        let fin = hops.push((last_node.0 as nat, start, closing));
        assert(fin.drop_last() =~= hops);
        assert(hops_weight(fin) == result as int);
        assert(fin.len() >= 1);
        assert(has_edge_with(es, last_node.0 as nat, start, closing));
        assert forall|i2: int|
            0 <= i2 < fin.len() implies has_edge_with(
            es,
            (#[trigger] fin[i2]).0,
            fin[i2].1,
            fin[i2].2,
        ) by {
            if i2 < hops.len() {
                assert(fin[i2] == hops[i2]);
            }
        }
        assert(fin[fin.len() - 1].1 == start);
        assert forall|j: nat|
            j < n && reaches(es, n, start, j) && j != start implies (exists|i: int|
            0 <= i < fin.len() && ((#[trigger] fin[i]).1) == j) by {
            let i = choose|i: int| 0 <= i < hops.len() && ((#[trigger] hops[i]).1) == j;
            assert(fin[i] == hops[i]);
        }
    }
    result
}

/// The cheapest admissible entry of an incident-edge listing, the earliest
/// listed winning ties: the neighbor the greedy heuristic moves to next.
pub open spec fn nn_pick(inc: Seq<(nat, u64)>, visited: Seq<bool>) -> Option<(nat, u64)>
    decreases inc.len(),
{
    if inc.len() == 0 {
        None::<(nat, u64)>
    } else {
        let rest = nn_pick(inc.drop_first(), visited);
        let e = inc[0];
        if (e.0 as int) < visited.len() && !visited[e.0 as int] {
            match rest {
                None => Some(e),
                Some(r) => if e.1 <= r.1 {
                    Some(e)
                } else {
                    Some(r)
                },
            }
        } else {
            rest
        }
    }
}

/// What the greedy pick returns is an unvisited listed neighbor.
proof fn lemma_nn_pick_admissible(inc: Seq<(nat, u64)>, visited: Seq<bool>)
    ensures
        nn_pick(inc, visited) matches Some(e) ==> ((e.0 as int) < visited.len() && !visited[e.0 as int]
            && exists|q: int| 0 <= q < inc.len() && #[trigger] inc[q] == e),
    decreases inc.len(),
{
    if inc.len() > 0 {
        lemma_nn_pick_admissible(inc.drop_first(), visited);
        if nn_pick(inc, visited) is Some {
            let e = nn_pick(inc, visited)->Some_0;
            if (inc[0].0 as int) < visited.len() && !visited[inc[0].0 as int] && (nn_pick(
                inc.drop_first(),
                visited,
            ) is None || e == inc[0]) {
                assert(inc[0] == e);
            } else {
                let q = choose|q: int|
                    0 <= q < inc.drop_first().len() && #[trigger] inc.drop_first()[q] == e;
                assert(inc[q + 1] == e);
            }
        }
    }
}

/// The earlier candidate against the best of the rest: the earlier one wins
/// ties.
pub open spec fn nn_combine(best: Option<(nat, u64)>, rest: Option<(nat, u64)>) -> Option<
    (nat, u64),
> {
    match best {
        None => rest,
        Some(b) => match rest {
            None => Some(b),
            Some(r) => if r.1 < b.1 {
                Some(r)
            } else {
                Some(b)
            },
        },
    }
}

/// One greedy walk: repeatedly move to the cheapest unvisited neighbor of
/// the current node (the first-listed incident edge wins ties), accumulate
/// the edge weights, and when no move remains close back to `start`; `None`
/// when the closing edge is missing.
pub open spec fn nn_run(
    es: Seq<EdgeModel>,
    visited: Seq<bool>,
    current: nat,
    start: nat,
    acc: int,
) -> Option<int>
    decreases count_false(visited),
    via nn_run_decreases
{
    match nn_pick(incident(es, current), visited) {
        Some(e) => nn_run(es, visited.update(e.0 as int, true), e.0, start, acc + e.1),
        None => match edge_weight(es, current, start) {
            Some(w) => Some(acc + w),
            None => None::<int>,
        },
    }
}

#[via_fn]
proof fn nn_run_decreases(
    es: Seq<EdgeModel>,
    visited: Seq<bool>,
    current: nat,
    start: nat,
    acc: int,
) {
    match nn_pick(incident(es, current), visited) {
        Some(e) => {
            lemma_nn_pick_admissible(incident(es, current), visited);
            lemma_count_false_update(visited, e.0 as int);
        },
        None => {},
    }
}

/// The greedy pick fails only when every listed neighbor is visited.
proof fn lemma_nn_pick_none(inc: Seq<(nat, u64)>, visited: Seq<bool>)
    requires
        nn_pick(inc, visited) is None,
    ensures
        forall|q: int|
            0 <= q < inc.len() ==> !((((#[trigger] inc[q]).0 as int) < visited.len())
                && !visited[inc[q].0 as int]),
    decreases inc.len(),
{
    if inc.len() > 0 {
        assert(nn_pick(inc.drop_first(), visited) is None);
        lemma_nn_pick_none(inc.drop_first(), visited);
        assert forall|q: int|
            0 <= q < inc.len() implies !((((#[trigger] inc[q]).0 as int) < visited.len())
            && !visited[inc[q].0 as int]) by {
            if q > 0 {
                assert(inc.drop_first()[q - 1] == inc[q]);
            }
        }
    }
}

/// On a complete graph with at least two nodes the greedy walk always
/// closes: it can only run out of moves at a node other than the start,
/// which the closing edge joins back to the start. So the heuristic's
/// precondition holds of every such graph.
pub proof fn lemma_nn_run_closes(
    es: Seq<EdgeModel>,
    n: nat,
    vis: Seq<bool>,
    current: nat,
    start: nat,
    acc: int,
)
    requires
        complete(es, n),
        n >= 2,
        vis.len() == n,
        start < n,
        current < n,
        vis[start as int],
        vis[current as int],
        current == start ==> exists|j: nat| j < n && !vis[j as int],
    ensures
        nn_run(es, vis, current, start, acc) is Some,
    decreases count_false(vis),
{
    let inc = incident(es, current);
    match nn_pick(inc, vis) {
        Some(e) => {
            lemma_nn_pick_admissible(inc, vis);
            lemma_count_false_update(vis, e.0 as int);
            assert(e.0 != start);
            lemma_nn_run_closes(es, n, vis.update(e.0 as int, true), e.0, start, acc + e.1);
        },
        None => {
            lemma_nn_pick_none(inc, vis);
            assert(current != start) by {
                if current == start {
                    let j = choose|j: nat| j < n && !vis[j as int];
                    assert(j != current);
                    assert(has_edge(es, current, j));
                    lemma_incident_has_edge(es, current, j);
                    let q = choose|q: int|
                        0 <= q < inc.len() && (#[trigger] inc[q]).0 == j;
                    assert(!(((inc[q].0 as int) < vis.len()) && !vis[inc[q].0 as int]));
                }
            }
            assert(has_edge(es, current, start));
            lemma_edge_weight_some(es, current, start);
        },
    }
}

/// On a complete graph with at least two nodes, the heuristic's starting
/// state always leads to a closed tour.
pub proof fn lemma_nn_ready(es: Seq<EdgeModel>, n: nat, start: nat)
    requires
        complete(es, n),
        n >= 2,
        start < n,
    ensures
        nn_run(
            es,
            Seq::new(n, |j: int| false).update(start as int, true),
            start,
            start,
            0,
        ) is Some,
{
    let vis = Seq::new(n, |j: int| false).update(start as int, true);
    let other: nat = if start == 0 {
        1
    } else {
        0
    };
    assert(!vis[other as int]);
    lemma_nn_run_closes(es, n, vis, start, start, 0);
}

/// The nearest-neighbor traveling-salesperson heuristic: from the start
/// node, repeatedly move to the cheapest unvisited neighbor (the edge
/// inserted first wins ties), accumulating each edge's weight, and close the
/// tour back to the start node. The graph must admit the closing edge that
/// the greedy walk ends at.
pub fn nearest_neighbor<G: Graph>(graph: &G, start_ix: NodeIx) -> (r: u64)
    requires
        graph.wf_spec(),
        (start_ix.0 as nat) < graph.nodes_spec(),
        weights_fit(graph.edges_spec(), graph.nodes_spec()),
        nn_run(
            graph.edges_spec(),
            Seq::new(graph.nodes_spec(), |j: int| false).update(start_ix.0 as int, true),
            start_ix.0 as nat,
            start_ix.0 as nat,
            0,
        ) is Some,
    ensures
        Some(r as int) == nn_run(
            graph.edges_spec(),
            Seq::new(graph.nodes_spec(), |j: int| false).update(start_ix.0 as int, true),
            start_ix.0 as nat,
            start_ix.0 as nat,
            0,
        ),
{
    let ghost es = graph.edges_spec();
    let ghost n = graph.nodes_spec();
    let ghost start = start_ix.0 as nat;
    let ghost vis0 = Seq::new(n, |j: int| false).update(start_ix.0 as int, true);
    proof {
        graph.edges_in_range();
        lemma_max_weight_each(es);
        lemma_count_false_new(n);
        lemma_count_false_update(Seq::new(n, |j: int| false), start as int);
    }
    let size = graph.size();
    let mut visited: Vec<bool> = Vec::new();
    let mut i: u32 = 0;
    while i < size.0
        invariant
            i <= size.0,
            visited@ =~= Seq::new(i as nat, |j: int| false),
        decreases size.0 - i,
    {
        visited.push(false);
        i = i + 1;
    }
    visited[start_ix.0 as usize] = true;
    proof {
        assert(visited@ =~= vis0);
    }
    let mut current_node = start_ix;
    let mut result: u64 = 0;
    let ghost mut mc: nat = 1;
    loop
        invariant
            graph.wf_spec(),
            es == graph.edges_spec(),
            n == graph.nodes_spec(),
            start == start_ix.0 as nat,
            start < n,
            n <= u32::MAX,
            weights_fit(es, n),
            max_weight(es) >= 0,
            forall|k: int| 0 <= k < es.len() ==> ((#[trigger] es[k]).w as int) <= max_weight(es),
            forall|k: int| 0 <= k < es.len() ==> (#[trigger] es[k]).lo < n && es[k].hi < n,
            visited@.len() == n,
            (current_node.0 as nat) < n,
            visited@[current_node.0 as int],
            mc + count_false(visited@) == n,
            1 <= mc <= n,
            result as int <= (mc - 1) * max_weight(es),
            nn_run(es, vis0, start, start, 0) == nn_run(
                es,
                visited@,
                current_node.0 as nat,
                start,
                result as int,
            ),
        ensures
            es == graph.edges_spec(),
            n == graph.nodes_spec(),
            start == start_ix.0 as nat,
            (current_node.0 as nat) < n,
            result as int <= (n - 1) * max_weight(es),
            max_weight(es) >= 0,
            weights_fit(es, n),
            nn_run(es, vis0, start, start, 0) == nn_run(
                es,
                visited@,
                current_node.0 as nat,
                start,
                result as int,
            ),
            nn_pick(incident(es, current_node.0 as nat), visited@) is None,
        decreases count_false(visited@),
    {
        let ghost cur = current_node.0 as nat;
        let adj = graph.get_edges(current_node);
        let ghost inc = incident(es, cur);
        proof {
            lemma_incident_sound(es, cur);
            lemma_incident_in_range(es, n, cur);
            assert(adj@.map_values(|p: (NodeIx, u64)| (p.0.0 as nat, p.1)) == inc);
            assert forall|t: int| 0 <= t < adj@.len() implies inc[t] == (
                (#[trigger] adj@[t]).0.0 as nat,
                adj@[t].1,
            ) && (adj@[t].0.0 as nat) < n by {
                assert(adj@.map_values(|p: (NodeIx, u64)| (p.0.0 as nat, p.1))[t] == (
                    adj@[t].0.0 as nat,
                    adj@[t].1,
                ));
                assert(inc[t].0 < n);
            }
            assert(inc.skip(0) =~= inc);
        }
        let mut best: Option<(NodeIx, u64)> = None;
        let mut q: usize = 0;
        while q < adj.len()
            invariant
                q <= adj@.len(),
                inc == incident(es, cur),
                visited@.len() == n,
                inc.len() == adj@.len(),
                forall|t: int|
                    0 <= t < adj@.len() ==> inc[t] == ((#[trigger] adj@[t]).0.0 as nat, adj@[t].1)
                        && (adj@[t].0.0 as nat) < n,
                nn_combine(
                    match best {
                        Some(b) => Some((b.0.0 as nat, b.1)),
                        None => None::<(nat, u64)>,
                    },
                    nn_pick(inc.skip(q as int), visited@),
                ) == nn_pick(inc, visited@),
                best matches Some(b) ==> ((b.0.0 as nat) < n && !visited@[b.0.0 as int]),
            decreases adj@.len() - q,
        {
            let (nb, w) = adj[q];
            proof {
                assert(inc.skip(q as int)[0] == inc[q as int]);
                assert(inc.skip(q as int).drop_first() =~= inc.skip(q as int + 1));
            }
            if !visited[nb.0 as usize] {
                let take = match best {
                    None => true,
                    Some((_, bw)) => w < bw,
                };
                if take {
                    best = Some((nb, w));
                }
            }
            q = q + 1;
        }
        proof {
            assert(inc.skip(inc.len() as int) =~= Seq::<(nat, u64)>::empty());
        }
        match best {
            Some((nb, w)) => {
                proof {
                    assert(nn_pick(inc, visited@) == Some((nb.0 as nat, w)));
                    lemma_nn_pick_admissible(inc, visited@);
                    let qe = choose|q2: int|
                        0 <= q2 < inc.len() && #[trigger] inc[q2] == (nb.0 as nat, w);
                    assert(has_edge_with(es, cur, nb.0 as nat, w));
                    let kk = choose|k: int|
                        0 <= k < es.len() && edge_joins(#[trigger] es[k], cur, nb.0 as nat)
                            && es[k].w == w;
                    assert(es[kk].w == w);
                    lemma_count_false_update(visited@, nb.0 as int);
                    assert(count_false(visited@) >= 1);
                    assert(result as int + w as int <= mc * max_weight(es)) by (nonlinear_arith)
                        requires
                            result as int <= (mc - 1) * max_weight(es),
                            w as int <= max_weight(es),
                            mc >= 1,
                    ;
                    assert(mc * max_weight(es) <= (n + 1) * max_weight(es)) by (nonlinear_arith)
                        requires
                            mc <= n,
                            max_weight(es) >= 0,
                    ;
                    mc = mc + 1;
                }
                visited[nb.0 as usize] = true;
                result = result + w;
                current_node = nb;
            },
            None => {
                proof {
                    assert(nn_pick(inc, visited@) is None);
                    assert(result as int <= (n - 1) * max_weight(es)) by (nonlinear_arith)
                        requires
                            result as int <= (mc - 1) * max_weight(es),
                            mc <= n,
                            max_weight(es) >= 0,
                    ;
                }
                break ;
            },
        }
    }
    proof {
        assert(edge_weight(es, current_node.0 as nat, start) is Some);
        lemma_edge_weight_is_real(es, current_node.0 as nat, start);
        let w3 = edge_weight(es, current_node.0 as nat, start)->Some_0;
        let kk = choose|k: int|
            0 <= k < es.len() && edge_joins(#[trigger] es[k], current_node.0 as nat, start)
                && es[k].w == w3;
        assert(es[kk].w == w3);
        assert(result as int + w3 as int <= n * max_weight(es)) by (nonlinear_arith)
            requires
                result as int <= (n - 1) * max_weight(es),
                w3 as int <= max_weight(es),
        ;
        assert(n * max_weight(es) <= (n + 1) * max_weight(es)) by (nonlinear_arith)
            requires
                max_weight(es) >= 0,
        ;
    }
    let closing = graph.get_edge_weight(current_node, start_ix).unwrap();
    result + closing
}

/// Some entry of the route holds node `j`.
pub open spec fn in_route(r: Seq<NodeIx>, j: nat) -> bool {
    exists|k: int| 0 <= k < r.len() && (#[trigger] r[k]).0 as nat == j
}

/// The route as a sequence of node numbers.
pub open spec fn route_view(r: Seq<NodeIx>) -> Seq<nat> {
    r.map_values(|x: NodeIx| x.0 as nat)
}

/// `b` to the power `e`.
pub open spec fn pow_n(b: nat, e: nat) -> nat
    decreases e,
{
    if e == 0 {
        1
    } else {
        b * pow_n(b, (e - 1) as nat)
    }
}

proof fn lemma_pow_pos(b: nat, e: nat)
    requires
        b >= 1,
    ensures
        pow_n(b, e) >= 1,
    decreases e,
{
    if e > 0 {
        lemma_pow_pos(b, (e - 1) as nat);
        assert(b * pow_n(b, (e - 1) as nat) >= 1) by (nonlinear_arith)
            requires
                b >= 1,
                pow_n(b, (e - 1) as nat) >= 1,
        ;
    }
}

/// One term of the backtracking measure: the untried candidates at depth
/// `d`, weighted so heavily that one consumed candidate at depth `d` pays
/// for every exploration below it.
pub open spec fn bb_term(cv: Seq<NodeIx>, n: nat, d: int) -> int {
    if 0 <= d < n && d < cv.len() && cv[d].0 as nat <= n {
        (n - cv[d].0 as nat) * pow_n(n + 1, (n - 1 - d) as nat)
    } else {
        0
    }
}

/// The backtracking measure summed over the depths below `upto`.
pub open spec fn bb_sum(cv: Seq<NodeIx>, n: nat, upto: int) -> int
    decreases upto,
{
    if upto <= 0 {
        0
    } else {
        bb_sum(cv, n, upto - 1) + bb_term(cv, n, upto - 1)
    }
}

/// The measure of a search state: the weighted untried candidates at every
/// depth up to the current one.
pub open spec fn bb_measure(cv: Seq<NodeIx>, n: nat, len: nat) -> int {
    bb_sum(cv, n, if len + 1 <= n {
        len as int + 1
    } else {
        n as int
    })
}

proof fn lemma_bb_sum_nonneg(cv: Seq<NodeIx>, n: nat, upto: int)
    ensures
        bb_sum(cv, n, upto) >= 0,
    decreases upto,
{
    if upto > 0 {
        lemma_bb_sum_nonneg(cv, n, upto - 1);
        assert(bb_term(cv, n, upto - 1) >= 0) by {
            if 0 <= upto - 1 < n && upto - 1 < cv.len() && cv[upto - 1].0 as nat <= n {
                assert((n - cv[upto - 1].0 as nat) * pow_n(n + 1, (n - upto) as nat) >= 0)
                    by (nonlinear_arith)
                    requires
                        n - cv[upto - 1].0 as nat >= 0,
                        pow_n(n + 1, (n - upto) as nat) >= 0,
                ;
            }
        }
    }
}

/// Changing one cursor changes the measure sum by that depth's term alone.
proof fn lemma_bb_sum_update(cv: Seq<NodeIx>, n: nat, upto: int, j: int, x: NodeIx)
    requires
        0 <= j < cv.len(),
    ensures
        bb_sum(cv.update(j, x), n, upto) == bb_sum(cv, n, upto) + if j < upto {
            bb_term(cv.update(j, x), n, j) - bb_term(cv, n, j)
        } else {
            0
        },
    decreases upto,
{
    if upto > 0 {
        lemma_bb_sum_update(cv, n, upto - 1, j, x);
        if j != upto - 1 {
            if 0 <= upto - 1 && upto - 1 < cv.len() {
                assert(cv.update(j, x)[upto - 1] == cv[upto - 1]);
            }
            assert(cv.update(j, x).len() == cv.len());
            assert(bb_term(cv.update(j, x), n, upto - 1) == bb_term(cv, n, upto - 1));
        }
    }
}

/// The state of one branch-and-bound search: the partial route, the visited
/// map, one resume cursor per depth, and the partial route's weight.
struct SearchState {
    visited: Vec<bool>,
    continue_visit: Vec<NodeIx>,
    route: Vec<NodeIx>,
    weight: u64,
}

/// The search can still reach tour `t` from this state through depth `d`:
/// `t` agrees with the route below `d`, and its node at `d` is not below
/// that depth's resume cursor, so a later scan there will still offer it.
spec fn pending_at(t: Seq<nat>, route: Seq<NodeIx>, cv: Seq<NodeIx>, n: nat, d: int) -> bool {
    &&& 1 <= d <= route.len()
    &&& forall|i: int| 0 <= i < d ==> t[i] == ((#[trigger] route[i]).0 as nat)
    &&& d < n ==> t[d] >= cv[d].0 as nat
}

/// The search can still reach tour `t` from this state.
spec fn pending(t: Seq<nat>, route: Seq<NodeIx>, cv: Seq<NodeIx>, n: nat) -> bool {
    exists|d: int| #[trigger] pending_at(t, route, cv, n, d)
}

/// The search state's structural invariant: the route holds distinct
/// in-range nodes, the visited map marks exactly the routed nodes, and every
/// resume cursor is at most the node count.
spec fn bb_wf(st: SearchState, n: nat) -> bool {
    &&& st.visited@.len() == n
    &&& st.continue_visit@.len() == n
    &&& n <= u32::MAX
    &&& 1 <= st.route@.len() <= n
    &&& forall|k: int| 0 <= k < st.route@.len() ==> ((#[trigger] st.route@[k]).0 as nat) < n
    &&& forall|i: int, j: int|
        0 <= i < j < st.route@.len() ==> (#[trigger] st.route@[i]).0 != (#[trigger] st.route@[j]).0
    &&& forall|j: nat| j < n ==> (st.visited@[j as int] <==> in_route(st.route@, j))
    &&& forall|d: int| 0 <= d < n ==> ((#[trigger] st.continue_visit@[d]).0 as nat) <= n
}

impl SearchState {
    /// The first unvisited candidate at the current depth, scanning upward
    /// from the depth's resume cursor.
    fn find_next_step(&self) -> (r: Option<NodeIx>)
        requires
            bb_wf(*self, self.visited@.len() as nat),
        ensures
            r matches Some(m) ==> {
                &&& (m.0 as nat) < self.visited@.len()
                &&& !self.visited@[m.0 as int]
                &&& self.route@.len() < self.visited@.len()
                &&& m.0 >= self.continue_visit@[self.route@.len() as int].0
            },
            r matches Some(m) ==> (forall|j: int|
                (self.continue_visit@[self.route@.len() as int].0 as int) <= j < m.0 as int
                    ==> self.visited@[j]),
            r is None ==> (self.route@.len() >= self.continue_visit@.len() || (forall|j: int|
                (self.continue_visit@[self.route@.len() as int].0 as int) <= j
                    < self.visited@.len() ==> self.visited@[j])),
    {
        let n = self.visited.len();
        if self.route.len() < self.continue_visit.len() {
            let continue_ix = self.continue_visit[self.route.len()];
            let mut next_ix: usize = continue_ix.0 as usize;
            while next_ix < n
                invariant
                    bb_wf(*self, self.visited@.len() as nat),
                    n == self.visited@.len(),
                    self.route@.len() < self.continue_visit@.len(),
                    continue_ix == self.continue_visit@[self.route@.len() as int],
                    continue_ix.0 <= next_ix,
                    n <= u32::MAX,
                    forall|j: int| (continue_ix.0 as int) <= j < next_ix ==> self.visited@[j],
                decreases n - next_ix,
            {
                if !self.visited[next_ix] {
                    proof {
                        assert(next_ix <= u32::MAX);
                        assert((NodeIx(next_ix as u32).0 as nat) == next_ix as nat);
                    }
                    return Some(NodeIx(next_ix as u32));
                }
                next_ix = next_ix + 1;
            }
            None
        } else {
            None
        }
    }

    /// Move to `node_ix`: pay the connecting edge's weight, set this depth's
    /// resume cursor just past the candidate, and extend the route.
    fn take_step<G: Graph>(&mut self, node_ix: NodeIx, graph: &G)
        requires
            graph.wf_spec(),
            bb_wf(*old(self), graph.nodes_spec()),
            old(self).route@.len() < graph.nodes_spec(),
            (node_ix.0 as nat) < graph.nodes_spec(),
            !old(self).visited@[node_ix.0 as int],
            complete(graph.edges_spec(), graph.nodes_spec()),
            weights_fit(graph.edges_spec(), graph.nodes_spec()),
            old(self).weight as int == path_weight(
                graph.edges_spec(),
                route_view(old(self).route@),
            ),
        ensures
            bb_wf(*final(self), graph.nodes_spec()),
            final(self).route@ == old(self).route@.push(node_ix),
            final(self).visited@ == old(self).visited@.update(node_ix.0 as int, true),
            final(self).continue_visit@ == old(self).continue_visit@.update(
                old(self).route@.len() as int,
                NodeIx((node_ix.0 + 1) as u32),
            ),
            final(self).weight as int == path_weight(
                graph.edges_spec(),
                route_view(final(self).route@),
            ),
    {
        let ghost es = graph.edges_spec();
        let ghost n = graph.nodes_spec();
        let last = self.route[self.route.len() - 1];
        proof {
            assert(last.0 != node_ix.0) by {
                assert(in_route(self.route@, last.0 as nat)) by {
                    assert(self.route@[self.route@.len() - 1] == last);
                }
            }
            assert(has_edge(es, last.0 as nat, node_ix.0 as nat));
            lemma_edge_weight_some(es, last.0 as nat, node_ix.0 as nat);
            lemma_path_weight_bounds(es, route_view(self.route@));
            lemma_edge_weight_le_max(es, last.0 as nat, node_ix.0 as nat);
            assert(route_view(self.route@).len() == self.route@.len());
            assert(self.weight as int + edge_weight_or_zero(es, last.0 as nat, node_ix.0 as nat)
                <= u64::MAX) by (nonlinear_arith)
                requires
                    self.weight as int <= (route_view(self.route@).len() - 1) * max_weight(es),
                    route_view(self.route@).len() < n,
                    edge_weight_or_zero(es, last.0 as nat, node_ix.0 as nat) <= max_weight(es),
                    max_weight(es) >= 0,
                    (n + 1) * max_weight(es) <= u64::MAX,
            ;
        }
        let w = graph.get_edge_weight(last, node_ix).unwrap();
        self.weight = self.weight + w;
        let pos = self.route.len();
        self.continue_visit[pos] = NodeIx(node_ix.0 + 1);
        self.visited[node_ix.0 as usize] = true;
        self.route.push(node_ix);
        proof {
            let rv = route_view(self.route@);
            assert(rv.drop_last() =~= route_view(old(self).route@));
            assert(rv[rv.len() - 2] == last.0 as nat);
            assert(rv[rv.len() - 1] == node_ix.0 as nat);
            assert forall|j: nat| j < n implies (self.visited@[j as int] <==> in_route(
                self.route@,
                j,
            )) by {
                if j == node_ix.0 as nat {
                    assert(self.route@[self.route@.len() - 1] == node_ix);
                } else {
                    if in_route(old(self).route@, j) {
                        let k = choose|k: int|
                            0 <= k < old(self).route@.len() && (#[trigger] old(
                                self,
                            ).route@[k]).0 as nat == j;
                        assert(self.route@[k].0 as nat == j);
                    }
                    if in_route(self.route@, j) {
                        let k = choose|k: int|
                            0 <= k < self.route@.len() && (#[trigger] self.route@[k]).0 as nat
                                == j;
                        assert(k < old(self).route@.len());
                        assert(old(self).route@[k].0 as nat == j);
                    }
                }
            }
            assert forall|i: int, j: int|
                0 <= i < j < self.route@.len() implies (#[trigger] self.route@[i]).0 != (
            #[trigger] self.route@[j]).0 by {
                if j == self.route@.len() - 1 {
                    assert(!in_route(old(self).route@, node_ix.0 as nat));
                    assert(old(self).route@[i].0 != node_ix.0) by {
                        if old(self).route@[i].0 == node_ix.0 {
                            assert(in_route(old(self).route@, node_ix.0 as nat));
                        }
                    }
                }
            }
        }
    }

    /// Undo the last move: clear this depth's resume cursor, drop the last
    /// node from the route, unmark it, and refund its edge's weight.
    fn step_back<G: Graph>(&mut self, graph: &G)
        requires
            graph.wf_spec(),
            bb_wf(*old(self), graph.nodes_spec()),
            old(self).route@.len() >= 2,
            complete(graph.edges_spec(), graph.nodes_spec()),
            old(self).weight as int == path_weight(
                graph.edges_spec(),
                route_view(old(self).route@),
            ),
        ensures
            bb_wf(*final(self), graph.nodes_spec()),
            final(self).route@ == old(self).route@.drop_last(),
            final(self).visited@ == old(self).visited@.update(
                old(self).route@.last().0 as int,
                false,
            ),
            final(self).continue_visit@ == if old(self).route@.len() < graph.nodes_spec() {
                old(self).continue_visit@.update(old(self).route@.len() as int, NodeIx(0))
            } else {
                old(self).continue_visit@
            },
            final(self).weight as int == path_weight(
                graph.edges_spec(),
                route_view(final(self).route@),
            ),
    {
        let ghost es = graph.edges_spec();
        let ghost n = graph.nodes_spec();
        if self.route.len() < self.continue_visit.len() {
            let pos = self.route.len();
            self.continue_visit[pos] = NodeIx(0);
        }
        let back_ix = self.route.pop().unwrap();
        self.visited[back_ix.0 as usize] = false;
        let last = self.route[self.route.len() - 1];
        proof {
            assert(old(self).route@[old(self).route@.len() - 1] == back_ix);
            assert(old(self).route@[old(self).route@.len() - 2] == last);
            assert(last.0 != back_ix.0);
            assert(has_edge(es, last.0 as nat, back_ix.0 as nat));
            lemma_edge_weight_some(es, last.0 as nat, back_ix.0 as nat);
            let rv = route_view(old(self).route@);
            assert(rv.drop_last() =~= route_view(self.route@));
            assert(rv[rv.len() - 2] == last.0 as nat);
            assert(rv[rv.len() - 1] == back_ix.0 as nat);
            lemma_path_weight_bounds(es, route_view(self.route@));
        }
        let w = graph.get_edge_weight(last, back_ix).unwrap();
        self.weight = self.weight - w;
        proof {
            assert forall|j: nat| j < n implies (self.visited@[j as int] <==> in_route(
                self.route@,
                j,
            )) by {
                if j == back_ix.0 as nat {
                    if in_route(self.route@, j) {
                        let k = choose|k: int|
                            0 <= k < self.route@.len() && (#[trigger] self.route@[k]).0 as nat
                                == j;
                        assert(old(self).route@[k].0 as nat == j);
                        assert(old(self).route@[old(self).route@.len() - 1].0 as nat == j);
                    }
                } else {
                    if in_route(old(self).route@, j) {
                        let k = choose|k: int|
                            0 <= k < old(self).route@.len() && (#[trigger] old(
                                self,
                            ).route@[k]).0 as nat == j;
                        assert(k < old(self).route@.len() - 1);
                        assert(self.route@[k].0 as nat == j);
                    }
                    if in_route(self.route@, j) {
                        let k = choose|k: int|
                            0 <= k < self.route@.len() && (#[trigger] self.route@[k]).0 as nat
                                == j;
                        assert(old(self).route@[k].0 as nat == j);
                    }
                }
            }
        }
    }
}

/// The minimum Hamiltonian tour weight from `start_ix`, by exhaustive
/// iterative backtracking with one resume cursor per depth (no recursion);
/// with `bnb` set, a partial route already heavier than the best known tour
/// is abandoned at once. The graph must be complete so that every needed
/// edge exists.
pub fn brute_force<G: Graph>(graph: &G, start_ix: NodeIx, bnb: bool) -> (r: u64)
    requires
        graph.wf_spec(),
        graph.nodes_spec() >= 2,
        (start_ix.0 as nat) < graph.nodes_spec(),
        complete(graph.edges_spec(), graph.nodes_spec()),
        weights_fit(graph.edges_spec(), graph.nodes_spec()),
    ensures
        exists|t: Seq<nat>|
            is_tour(graph.edges_spec(), graph.nodes_spec(), start_ix.0 as nat, t) && r as int
                == tour_weight(graph.edges_spec(), t),
        forall|t: Seq<nat>|
            #[trigger] is_tour(graph.edges_spec(), graph.nodes_spec(), start_ix.0 as nat, t)
                ==> r as int <= tour_weight(graph.edges_spec(), t),
{
    let ghost es = graph.edges_spec();
    let ghost n = graph.nodes_spec();
    let size = graph.size();
    let mut visited: Vec<bool> = Vec::new();
    let mut continue_visit: Vec<NodeIx> = Vec::new();
    let mut i: u32 = 0;
    while i < size.0
        invariant
            i <= size.0,
            visited@ =~= Seq::new(i as nat, |k: int| false),
            continue_visit@ =~= Seq::new(i as nat, |k: int| NodeIx(0)),
        decreases size.0 - i,
    {
        visited.push(false);
        continue_visit.push(NodeIx(0));
        i = i + 1;
    }
    visited[start_ix.0 as usize] = true;
    continue_visit[0] = size;
    let mut route: Vec<NodeIx> = Vec::new();
    route.push(start_ix);
    let mut state = SearchState { visited, continue_visit, route, weight: 0 };
    proof {
        assert(state.route@[0] == start_ix);
        assert forall|j: nat| j < n implies (state.visited@[j as int] <==> in_route(
            state.route@,
            j,
        )) by {
            if in_route(state.route@, j) {
                let k = choose|k: int|
                    0 <= k < state.route@.len() && (#[trigger] state.route@[k]).0 as nat == j;
                assert(k == 0);
            }
            if j == start_ix.0 as nat {
                assert(state.route@[0].0 as nat == j);
            }
        }
        assert(bb_wf(state, n));
        assert(route_view(state.route@).len() == 1);
        lemma_count_false_new(n);
        lemma_count_false_update(Seq::new(n, |k: int| false), start_ix.0 as int);
        assert(state.visited@ =~= Seq::new(n, |k: int| false).update(start_ix.0 as int, true));
        // at the outset every tour is still reachable through depth one
        assert forall|t: Seq<nat>| #[trigger] is_tour(es, n, start_ix.0 as nat, t) implies pending(
            t,
            state.route@,
            state.continue_visit@,
            n,
        ) by {
            assert(t[0] == start_ix.0 as nat);
            assert(state.continue_visit@[1].0 == 0);
            assert(pending_at(t, state.route@, state.continue_visit@, n, 1));
        }
    }
    let mut min: u64 = u64::MAX;
    loop
        invariant
            graph.wf_spec(),
            es == graph.edges_spec(),
            n == graph.nodes_spec(),
            n >= 2,
            size.0 as nat == n,
            (start_ix.0 as nat) < n,
            complete(es, n),
            weights_fit(es, n),
            bb_wf(state, n),
            state.route@[0] == start_ix,
            state.weight as int == path_weight(es, route_view(state.route@)),
            count_false(state.visited@) + state.route@.len() == n,
            min == u64::MAX ==> (forall|d: int|
                state.route@.len() <= d < n ==> (#[trigger] state.continue_visit@[d]).0 == 0),
            forall|d: int|
                state.route@.len() < d < n ==> (#[trigger] state.continue_visit@[d]).0 == 0,
            min == u64::MAX || (exists|t: Seq<nat>|
                is_tour(es, n, start_ix.0 as nat, t) && min as int == tour_weight(es, t)),
            // every tour is already beaten-or-matched, or still reachable
            forall|t: Seq<nat>|
                #[trigger] is_tour(es, n, start_ix.0 as nat, t) ==> (min as int <= tour_weight(
                    es,
                    t,
                ) || pending(t, state.route@, state.continue_visit@, n)),
        ensures
            min != u64::MAX,
            exists|t: Seq<nat>|
                is_tour(es, n, start_ix.0 as nat, t) && min as int == tour_weight(es, t),
            forall|t: Seq<nat>|
                #[trigger] is_tour(es, n, start_ix.0 as nat, t) ==> min as int <= tour_weight(
                    es,
                    t,
                ),
        decreases bb_measure(state.continue_visit@, n, state.route@.len() as nat),
            state.route@.len(),
    {
        let ghost cv0 = state.continue_visit@;
        let ghost len0 = state.route@.len() as nat;
        let ghost route0 = state.route@;
        let ghost vis0 = state.visited@;
        let ghost w0 = state.weight;
        let ghost min0 = min;
        let ghost r_old = bb_measure(cv0, n, len0);
        proof {
            lemma_bb_sum_nonneg(cv0, n, if len0 + 1 <= n {
                len0 as int + 1
            } else {
                n as int
            });
        }
        if state.route.len() == size.0 as usize {
            let last = state.route[state.route.len() - 1];
            proof {
                assert(state.route@[state.route@.len() - 1] == last);
                assert(state.route@[0] == start_ix);
                assert(last.0 != start_ix.0);
                assert(has_edge(es, last.0 as nat, start_ix.0 as nat));
                lemma_edge_weight_some(es, last.0 as nat, start_ix.0 as nat);
                lemma_edge_weight_le_max(es, last.0 as nat, start_ix.0 as nat);
                lemma_path_weight_bounds(es, route_view(state.route@));
                assert(route_view(state.route@).len() == n);
                assert(state.weight as int + edge_weight_or_zero(
                    es,
                    last.0 as nat,
                    start_ix.0 as nat,
                ) <= u64::MAX) by (nonlinear_arith)
                    requires
                        state.weight as int <= (n - 1) * max_weight(es),
                        edge_weight_or_zero(es, last.0 as nat, start_ix.0 as nat) <= max_weight(
                            es,
                        ),
                        max_weight(es) >= 0,
                        n >= 1,
                        (n + 1) * max_weight(es) <= u64::MAX,
                ;
            }
            let closing = graph.get_edge_weight(last, start_ix).unwrap();
            let full_round = state.weight + closing;
            proof {
                // a full tour always weighs strictly less than the sentinel
                assert(full_round < u64::MAX) by (nonlinear_arith)
                    requires
                        full_round as int == state.weight as int + closing as int,
                        state.weight as int <= (n - 1) * max_weight(es),
                        closing as int <= max_weight(es),
                        closing as int >= 0,
                        state.weight as int >= 0,
                        max_weight(es) >= 0,
                        n >= 1,
                        (n + 1) * max_weight(es) <= u64::MAX,
                ;
            }
            if full_round < min {
                proof {
                    let t = route_view(state.route@);
                    assert forall|a: int| 0 <= a < t.len() implies t[a] < n by {
                        assert(t[a] == state.route@[a].0 as nat);
                    }
                    assert forall|a: int, b: int| 0 <= a < b < t.len() implies t[a] != t[b] by {
                        assert(t[a] == state.route@[a].0 as nat);
                        assert(t[b] == state.route@[b].0 as nat);
                    }
                    assert forall|a: int| 0 <= a < t.len() - 1 implies #[trigger] has_edge(
                        es,
                        t[a],
                        t[a + 1],
                    ) by {
                        assert(t[a] == state.route@[a].0 as nat);
                        assert(t[a + 1] == state.route@[a + 1].0 as nat);
                    }
                    assert(t.last() == last.0 as nat && t.first() == start_ix.0 as nat);
                    assert(is_tour(es, n, start_ix.0 as nat, t));
                    assert(full_round as int == tour_weight(es, t));
                }
                min = full_round;
            }
            proof {
                assert(min != u64::MAX);
            }
            let ghost vis_b = state.visited@;
            let ghost route_b = state.route@;
            state.step_back(graph);
            proof {
                assert(state.continue_visit@ == cv0);
                assert(bb_measure(state.continue_visit@, n, state.route@.len() as nat) == r_old);
                assert(vis_b[last.0 as int]) by {
                    assert(route_b[route_b.len() - 1] == last);
                    assert(in_route(route_b, last.0 as nat));
                }
                lemma_count_false_clear(vis_b, last.0 as int);
                // the tour equal to the full route is now beaten; every
                // other pending tour keeps its divergence depth
                assert forall|t: Seq<nat>| #[trigger] is_tour(es, n, start_ix.0 as nat, t) implies (
                    min as int <= tour_weight(es, t) || pending(
                        t,
                        state.route@,
                        state.continue_visit@,
                        n,
                    )) by {
                    if min0 as int <= tour_weight(es, t) {
                        assert(min as int <= min0 as int);
                    } else {
                        let d = choose|d: int| #[trigger] pending_at(t, route0, cv0, n, d);
                        if d == n {
                            assert(t =~= route_view(route0)) by {
                                assert forall|i: int| 0 <= i < n implies t[i] == route_view(
                                    route0,
                                )[i] by {
                                    assert(t[i] == route0[i].0 as nat);
                                }
                            }
                            assert(path_weight(es, t) == w0 as int);
                            assert(t.last() == last.0 as nat && t.first() == start_ix.0 as nat);
                            assert(edge_weight_or_zero(es, t.last(), t.first()) == closing as int);
                            assert(tour_weight(es, t) == full_round as int);
                            assert(min as int <= full_round as int);
                        } else {
                            assert(d < n && d <= state.route@.len());
                            assert(pending_at(t, state.route@, state.continue_visit@, n, d)) by {
                                assert forall|i: int| 0 <= i < d implies t[i] == ((
                                #[trigger] state.route@[i]).0 as nat) by {
                                    assert(state.route@[i] == route0[i]);
                                }
                            }
                            assert(pending(t, state.route@, state.continue_visit@, n));
                        }
                    }
                }
            }
        } else {
            let next = state.find_next_step();
            match next {
                Some(next_ix) => {
                    let ghost v = cv0[len0 as int].0 as nat;
                    let ghost vis_b = state.visited@;
                    state.take_step(next_ix, graph);
                    proof {
                        lemma_count_false_update(vis_b, next_ix.0 as int);
                    }
                    proof {
                        let cv1 = state.continue_visit@;
                        let m1 = next_ix.0 as nat + 1;
                        assert(cv1 == cv0.update(len0 as int, NodeIx((next_ix.0 + 1) as u32)));
                        lemma_bb_sum_update(
                            cv0,
                            n,
                            len0 as int + 1,
                            len0 as int,
                            NodeIx((next_ix.0 + 1) as u32),
                        );
                        let p1 = pow_n(n + 1, (n - 1 - len0) as nat);
                        assert(bb_term(cv0, n, len0 as int) == (n - v) * p1);
                        assert(bb_term(cv1, n, len0 as int) == (n - m1) * p1);
                        assert((n - m1) * p1 - (n - v) * p1 <= -1 * p1) by (nonlinear_arith)
                            requires
                                m1 >= v + 1,
                                p1 >= 0,
                        ;
                        lemma_pow_pos(n + 1, (n - 1 - len0) as nat);
                        assert(bb_sum(cv1, n, len0 as int + 1) <= r_old - p1);
                        if len0 + 2 <= n {
                            let p2 = pow_n(n + 1, (n - 2 - len0) as nat);
                            assert(p1 == (n + 1) * p2);
                            lemma_pow_pos(n + 1, (n - 2 - len0) as nat);
                            assert(bb_term(cv1, n, len0 as int + 1) <= n * p2) by {
                                if cv1[len0 as int + 1].0 as nat <= n {
                                    assert((n - cv1[len0 as int + 1].0 as nat) * p2 <= n * p2)
                                        by (nonlinear_arith)
                                        requires
                                            p2 >= 0,
                                            0 <= n - cv1[len0 as int + 1].0 as nat <= n,
                                    ;
                                }
                            }
                            assert(bb_sum(cv1, n, len0 as int + 2) == bb_sum(
                                cv1,
                                n,
                                len0 as int + 1,
                            ) + bb_term(cv1, n, len0 as int + 1));
                            assert(n * p2 - (n + 1) * p2 == -1 * p2) by (nonlinear_arith);
                            assert(bb_measure(cv1, n, (len0 + 1) as nat) <= r_old - p2);
                        } else {
                            assert(bb_measure(cv1, n, (len0 + 1) as nat) == bb_sum(
                                cv1,
                                n,
                                len0 as int + 1,
                            ));
                        }
                        assert(bb_measure(cv1, n, (len0 + 1) as nat) < r_old);
                    }
                    let ghost route1 = state.route@;
                    let ghost cv1b = state.continue_visit@;
                    let ghost w1 = state.weight;
                    proof {
                        let cursor0 = cv0[len0 as int].0 as nat;
                        let m = next_ix.0 as nat;
                        // a pending tour either took this very step (then it
                        // is pending one deeper), or its candidate lies past
                        // the new cursor
                        assert forall|t: Seq<nat>|
                            #[trigger] is_tour(es, n, start_ix.0 as nat, t) implies (min as int
                            <= tour_weight(es, t) || pending(t, route1, cv1b, n)) by {
                            if !(min as int <= tour_weight(es, t)) {
                                let d = choose|d: int| #[trigger] pending_at(t, route0, cv0, n, d);
                                if d < len0 {
                                    assert(pending_at(t, route1, cv1b, n, d)) by {
                                        assert forall|i: int| 0 <= i < d implies t[i] == ((
                                        #[trigger] route1[i]).0 as nat) by {
                                            assert(route1[i] == route0[i]);
                                        }
                                        assert(cv1b[d] == cv0[d]);
                                    }
                                    assert(pending(t, route1, cv1b, n));
                                } else {
                                    assert(d == len0);
                                    if t[d] == m {
                                        assert(pending_at(t, route1, cv1b, n, d + 1)) by {
                                            assert forall|i: int| 0 <= i < d + 1 implies t[i] == ((
                                            #[trigger] route1[i]).0 as nat) by {
                                                if i < d {
                                                    assert(route1[i] == route0[i]);
                                                } else {
                                                    assert(route1[d] == next_ix);
                                                }
                                            }
                                            if d + 1 < n {
                                                assert(cv1b[d + 1] == cv0[d + 1]);
                                                assert(cv0[d + 1].0 == 0);
                                            }
                                        }
                                        assert(pending(t, route1, cv1b, n));
                                    } else {
                                        assert(t[d] < n);
                                        assert(!vis0[t[d] as int]) by {
                                            if vis0[t[d] as int] {
                                                assert(in_route(route0, t[d]));
                                                let k = choose|k: int|
                                                    0 <= k < route0.len() && (
                                                    #[trigger] route0[k]).0 as nat == t[d];
                                                assert(t[k] == t[d]);
                                                assert(t[k] != t[d]);
                                            }
                                        }
                                        assert(t[d] >= cursor0);
                                        assert(t[d] >= m) by {
                                            if t[d] < m {
                                                assert(vis0[t[d] as int]);
                                            }
                                        }
                                        assert(pending_at(t, route1, cv1b, n, d)) by {
                                            assert forall|i: int| 0 <= i < d implies t[i] == ((
                                            #[trigger] route1[i]).0 as nat) by {
                                                assert(route1[i] == route0[i]);
                                            }
                                            assert(cv1b[d].0 == next_ix.0 + 1);
                                        }
                                        assert(pending(t, route1, cv1b, n));
                                    }
                                }
                            }
                        }
                    }
                    if bnb && state.weight > min {
                        let ghost cv1 = state.continue_visit@;
                        let ghost vis_t = state.visited@;
                        let ghost route_t = state.route@;
                        state.step_back(graph);
                        proof {
                            assert(vis_t[next_ix.0 as int]) by {
                                assert(route_t[route_t.len() - 1] == next_ix);
                                assert(in_route(route_t, next_ix.0 as nat));
                            }
                            lemma_count_false_clear(vis_t, next_ix.0 as int);
                            let cv2 = state.continue_visit@;
                            if len0 + 1 < n {
                                assert(cv2 == cv1.update(len0 as int + 1, NodeIx(0)));
                                lemma_bb_sum_update(
                                    cv1,
                                    n,
                                    len0 as int + 1,
                                    len0 as int + 1,
                                    NodeIx(0),
                                );
                                assert(bb_sum(cv2, n, len0 as int + 1) == bb_sum(
                                    cv1,
                                    n,
                                    len0 as int + 1,
                                ));
                            } else {
                                assert(cv2 == cv1);
                            }
                            assert(bb_measure(cv2, n, len0) < r_old);
                            // a tour through the pruned step already weighs
                            // more than the best known tour; every other
                            // pending tour keeps its depth
                            assert forall|t: Seq<nat>|
                                #[trigger] is_tour(es, n, start_ix.0 as nat, t) implies (min as int
                                <= tour_weight(es, t) || pending(
                                    t,
                                    state.route@,
                                    state.continue_visit@,
                                    n,
                                )) by {
                                if !(min as int <= tour_weight(es, t)) {
                                    let d = choose|d: int|
                                        #[trigger] pending_at(t, route1, cv1b, n, d);
                                    if d <= len0 {
                                        assert(pending_at(
                                            t,
                                            state.route@,
                                            state.continue_visit@,
                                            n,
                                            d,
                                        )) by {
                                            assert forall|i: int| 0 <= i < d implies t[i] == ((
                                            #[trigger] state.route@[i]).0 as nat) by {
                                                assert(state.route@[i] == route1[i]);
                                            }
                                            assert(state.continue_visit@[d] == cv1b[d]);
                                        }
                                        assert(pending(t, state.route@, state.continue_visit@, n));
                                    } else {
                                        assert(d == len0 + 1);
                                        assert(t.take(len0 as int + 1) =~= route_view(route1)) by {
                                            assert forall|i: int|
                                                0 <= i < len0 + 1 implies t.take(
                                                len0 as int + 1,
                                            )[i] == route_view(route1)[i] by {
                                                assert(t[i] == route1[i].0 as nat);
                                            }
                                        }
                                        lemma_path_weight_prefix(es, t, len0 as int + 1);
                                        assert(w1 as int == path_weight(es, route_view(route1)));
                                        assert(path_weight(es, t) >= w1 as int);
                                        assert(edge_weight_or_zero(es, t.last(), t.first()) >= 0);
                                        assert(tour_weight(es, t) >= w1 as int);
                                        assert(min as int <= tour_weight(es, t));
                                    }
                                }
                            }
                        }
                    }
                },
                None => {
                    proof {
                        // an exhausted depth under an untouched bound is
                        // impossible: its cursor would still be at zero, so
                        // the failed scan would mean every node is routed
                        if min == u64::MAX {
                            assert(cv0[len0 as int].0 == 0);
                            assert(forall|j: int| 0 <= j < n ==> state.visited@[j]);
                            lemma_count_false_zero(state.visited@);
                            assert(false);
                        }
                        // no tour is still reachable through this depth:
                        // its candidate would be an unrouted node the failed
                        // scan should have offered
                        assert forall|t: Seq<nat>|
                            #[trigger] is_tour(es, n, start_ix.0 as nat, t) && pending_at(
                            t,
                            route0,
                            cv0,
                            n,
                            len0 as int,
                        ) implies false by {
                            assert(t[len0 as int] < n);
                            assert(t[len0 as int] >= cv0[len0 as int].0 as nat);
                            assert(vis0[t[len0 as int] as int]);
                            assert(in_route(route0, t[len0 as int]));
                            let k = choose|k: int|
                                0 <= k < route0.len() && (#[trigger] route0[k]).0 as nat
                                    == t[len0 as int];
                            assert(t[k] == t[len0 as int]);
                            assert(t[k] != t[len0 as int]);
                        }
                    }
                    if state.route.len() < 2 {
                        proof {
                            // through depth one every tour has been tried
                            // and beaten or matched
                            assert forall|t: Seq<nat>|
                                #[trigger] is_tour(es, n, start_ix.0 as nat, t) implies min as int
                                <= tour_weight(es, t) by {
                                if !(min as int <= tour_weight(es, t)) {
                                    let d = choose|d: int|
                                        #[trigger] pending_at(t, route0, cv0, n, d);
                                    assert(d == len0 as int);
                                }
                            }
                        }
                        break ;
                    }
                    let ghost vis_b = state.visited@;
                    let ghost route_b = state.route@;
                    state.step_back(graph);
                    proof {
                        let back = route_b[route_b.len() - 1];
                        assert(vis_b[back.0 as int]) by {
                            assert(in_route(route_b, back.0 as nat));
                        }
                        lemma_count_false_clear(vis_b, back.0 as int);
                        let cv2 = state.continue_visit@;
                        assert(len0 < n);
                        assert(cv2 == cv0.update(len0 as int, NodeIx(0)));
                        lemma_bb_sum_update(cv0, n, len0 as int, len0 as int, NodeIx(0));
                        assert(bb_sum(cv2, n, len0 as int) == bb_sum(cv0, n, len0 as int));
                        assert(bb_term(cv0, n, len0 as int) >= 0) by {
                            if cv0[len0 as int].0 as nat <= n {
                                assert((n - cv0[len0 as int].0 as nat) * pow_n(
                                    n + 1,
                                    (n - 1 - len0) as nat,
                                ) >= 0) by (nonlinear_arith)
                                    requires
                                        n - cv0[len0 as int].0 as nat >= 0,
                                        pow_n(n + 1, (n - 1 - len0) as nat) >= 0,
                                ;
                            }
                        }
                        assert(bb_measure(cv2, n, state.route@.len() as nat) <= r_old);
                        // pending tours diverge strictly below the
                        // abandoned depth and keep their cursors
                        assert forall|t: Seq<nat>|
                            #[trigger] is_tour(es, n, start_ix.0 as nat, t) implies (min as int
                            <= tour_weight(es, t) || pending(
                                t,
                                state.route@,
                                state.continue_visit@,
                                n,
                            )) by {
                            if !(min as int <= tour_weight(es, t)) {
                                let d = choose|d: int| #[trigger] pending_at(t, route0, cv0, n, d);
                                assert(d != len0 as int);
                                assert(d < len0);
                                assert(pending_at(t, state.route@, state.continue_visit@, n, d))
                                    by {
                                    assert forall|i: int| 0 <= i < d implies t[i] == ((
                                    #[trigger] state.route@[i]).0 as nat) by {
                                        assert(state.route@[i] == route0[i]);
                                    }
                                    assert(state.continue_visit@[d] == cv0[d]);
                                }
                                assert(pending(t, state.route@, state.continue_visit@, n));
                            }
                        }
                    }
                },
            }
        }
        proof {
            lemma_bb_sum_nonneg(
                state.continue_visit@,
                n,
                if state.route@.len() + 1 <= n {
                    state.route@.len() as int + 1
                } else {
                    n as int
                },
            );
            assert(bb_measure(state.continue_visit@, n, state.route@.len() as nat) >= 0);
        }
    }
    min
}

} // verus!
