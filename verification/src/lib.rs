//! A small engine for undirected, weighted graphs: an adjacency-list graph
//! type, connected-component counting, minimum spanning trees (Kruskal and
//! Prim), and traveling-salesperson solvers (nearest-neighbor heuristic,
//! double-tree approximation, exact branch-and-bound search).
//!
//! Every graph is modeled by its node count together with the sequence of
//! canonical edge triples `(lo, hi, weight)` in insertion order; all contracts
//! in this crate are stated over that model.
use vstd::prelude::*;

pub mod al_graph;
pub mod algo;
pub mod algos;
pub mod laws;

verus! {

/// Index of a node of a graph, valid in `[0, size)` of the owning graph.
#[derive(Default, Debug, Clone, Copy, PartialEq, Eq, Structural, Hash)]
pub struct NodeIx(pub u32);

/// The model of one undirected edge: both endpoints in canonical order
/// (`lo <= hi`) and the weight.
pub ghost struct EdgeModel {
    pub lo: nat,
    pub hi: nat,
    pub w: u64,
}

/// True when the modeled edge joins nodes `a` and `b` (in either order).
pub open spec fn edge_joins(e: EdgeModel, a: nat, b: nat) -> bool {
    (e.lo == a && e.hi == b) || (e.lo == b && e.hi == a)
}

/// True when some edge of `es` joins `a` and `b`.
pub open spec fn has_edge(es: Seq<EdgeModel>, a: nat, b: nat) -> bool {
    exists|k: int| 0 <= k < es.len() && edge_joins(es[k], a, b)
}

/// True when some edge of `es` joins `a` and `b` and weighs `w`.
pub open spec fn has_edge_with(es: Seq<EdgeModel>, a: nat, b: nat, w: u64) -> bool {
    exists|k: int| 0 <= k < es.len() && edge_joins(#[trigger] es[k], a, b) && es[k].w == w
}

/// The weight of the first edge of `es` joining `a` and `b`, if any.
/// In a simple graph (at most one edge per unordered pair) this is the weight
/// of the unique such edge.
pub open spec fn edge_weight(es: Seq<EdgeModel>, a: nat, b: nat) -> Option<u64>
    decreases es.len(),
{
    if es.len() == 0 {
        None::<u64>
    } else if edge_joins(es[0], a, b) {
        Some(es[0].w)
    } else {
        edge_weight(es.drop_first(), a, b)
    }
}

/// The incident edges of node `a`, in insertion order, each as
/// `(other endpoint, weight)`. A self-loop contributes one entry.
pub open spec fn incident(es: Seq<EdgeModel>, a: nat) -> Seq<(nat, u64)>
    decreases es.len(),
{
    if es.len() == 0 {
        Seq::<(nat, u64)>::empty()
    } else {
        let rest = incident(es.drop_last(), a);
        let e = es.last();
        if e.lo == a {
            rest.push((e.hi, e.w))
        } else if e.hi == a {
            rest.push((e.lo, e.w))
        } else {
            rest
        }
    }
}

/// Every unordered pair of distinct nodes below `n` is joined by an edge.
pub open spec fn complete(es: Seq<EdgeModel>, n: nat) -> bool {
    forall|a: nat, b: nat| a < n && b < n && a != b ==> has_edge(es, a, b)
}

/// The sum of all edge weights, as an unbounded integer.
pub open spec fn weight_sum(es: Seq<EdgeModel>) -> int
    decreases es.len(),
{
    if es.len() == 0 {
        0
    } else {
        es[0].w + weight_sum(es.drop_first())
    }
}

/// The largest single edge weight (0 when there are no edges).
pub open spec fn max_weight(es: Seq<EdgeModel>) -> int
    decreases es.len(),
{
    if es.len() == 0 {
        0
    } else if es[0].w as int >= max_weight(es.drop_first()) {
        es[0].w as int
    } else {
        max_weight(es.drop_first())
    }
}

/// Machine bound under which the algorithms that accumulate at most `n + 1`
/// edge weights cannot overflow a `u64`.
pub open spec fn weights_fit(es: Seq<EdgeModel>, n: nat) -> bool {
    (n + 1) * max_weight(es) <= u64::MAX
}

/// The weight of the first edge joining `a` and `b`, or zero when none does.
pub open spec fn edge_weight_or_zero(es: Seq<EdgeModel>, a: nat, b: nat) -> int {
    match edge_weight(es, a, b) {
        Some(w) => w as int,
        None => 0,
    }
}

/// The weight of walking a node sequence: the sum over each consecutive
/// pair of the weight of the first edge joining it.
pub open spec fn path_weight(es: Seq<EdgeModel>, r: Seq<nat>) -> int
    decreases r.len(),
{
    if r.len() <= 1 {
        0
    } else {
        path_weight(es, r.drop_last()) + edge_weight_or_zero(es, r[r.len() - 2], r[r.len() - 1])
    }
}

/// A Hamiltonian tour from `start`: every node exactly once, beginning at
/// `start`, each hop and the closing hop joined by an edge.
pub open spec fn is_tour(es: Seq<EdgeModel>, n: nat, start: nat, t: Seq<nat>) -> bool {
    &&& t.len() == n
    &&& n >= 1
    &&& t[0] == start
    &&& forall|i: int| 0 <= i < t.len() ==> t[i] < n
    &&& forall|i: int, j: int| 0 <= i < j < t.len() ==> t[i] != t[j]
    &&& forall|i: int| 0 <= i < t.len() - 1 ==> #[trigger] has_edge(es, t[i], t[i + 1])
    &&& n >= 2 ==> has_edge(es, t.last(), t.first())
}

/// The weight of a tour: its path weight plus the closing edge's weight.
pub open spec fn tour_weight(es: Seq<EdgeModel>, t: Seq<nat>) -> int {
    path_weight(es, t) + edge_weight_or_zero(es, t.last(), t.first())
}

/// Two nodes are joined exactly when an edge-weight lookup succeeds.
pub proof fn lemma_edge_weight_some(es: Seq<EdgeModel>, a: nat, b: nat)
    ensures
        has_edge(es, a, b) <==> edge_weight(es, a, b) is Some,
    decreases es.len(),
{
    if es.len() > 0 {
        lemma_edge_weight_some(es.drop_first(), a, b);
        assert(forall|k: int|
            0 <= k < es.len() - 1 ==> #[trigger] es.drop_first()[k] == es[k + 1]);
        if has_edge(es, a, b) && !edge_joins(es[0], a, b) {
            let k = choose|k: int| 0 <= k < es.len() && edge_joins(es[k], a, b);
            assert(edge_joins(es.drop_first()[k - 1], a, b));
        }
        if has_edge(es.drop_first(), a, b) {
            let k = choose|k: int|
                0 <= k < es.drop_first().len() && edge_joins(es.drop_first()[k], a, b);
            assert(edge_joins(es[k + 1], a, b));
        }
    }
}

/// A successful edge-weight lookup returns at most the largest edge weight,
/// and the largest edge weight is never negative.
pub proof fn lemma_edge_weight_le_max(es: Seq<EdgeModel>, a: nat, b: nat)
    ensures
        max_weight(es) >= 0,
        edge_weight_or_zero(es, a, b) <= max_weight(es),
    decreases es.len(),
{
    if es.len() > 0 {
        lemma_edge_weight_le_max(es.drop_first(), a, b);
    }
}

/// A successful edge-weight lookup returns a real edge's weight.
pub proof fn lemma_edge_weight_is_real(es: Seq<EdgeModel>, a: nat, b: nat)
    requires
        edge_weight(es, a, b) is Some,
    ensures
        has_edge_with(es, a, b, edge_weight(es, a, b)->Some_0),
    decreases es.len(),
{
    if es.len() > 0 {
        if edge_joins(es[0], a, b) {
        } else {
            lemma_edge_weight_is_real(es.drop_first(), a, b);
            let w = edge_weight(es, a, b)->Some_0;
            let k = choose|k: int|
                0 <= k < es.drop_first().len() && edge_joins(#[trigger] es.drop_first()[k], a, b)
                    && es.drop_first()[k].w == w;
            assert(edge_joins(es[k + 1], a, b) && es[k + 1].w == w);
        }
    }
}

/// Every single edge weighs at most the largest edge weight.
pub proof fn lemma_max_weight_each(es: Seq<EdgeModel>)
    ensures
        max_weight(es) >= 0,
        forall|k: int| 0 <= k < es.len() ==> ((#[trigger] es[k]).w as int) <= max_weight(es),
    decreases es.len(),
{
    if es.len() > 0 {
        lemma_max_weight_each(es.drop_first());
        assert forall|k: int| 0 <= k < es.len() implies ((#[trigger] es[k]).w as int)
            <= max_weight(es) by {
            if k > 0 {
                assert(es.drop_first()[k - 1] == es[k]);
            }
        }
    }
}

/// A walk of `k` nodes weighs at most `k - 1` times the largest edge weight,
/// and never a negative amount.
pub proof fn lemma_path_weight_bounds(es: Seq<EdgeModel>, r: Seq<nat>)
    requires
        r.len() >= 1,
    ensures
        0 <= path_weight(es, r),
        path_weight(es, r) <= (r.len() - 1) * max_weight(es),
    decreases r.len(),
{
    lemma_edge_weight_le_max(es, 0, 0);
    if r.len() > 1 {
        lemma_path_weight_bounds(es, r.drop_last());
        lemma_edge_weight_le_max(es, r[r.len() - 2], r[r.len() - 1]);
        assert((r.len() - 2) * max_weight(es) + max_weight(es) == (r.len() - 1) * max_weight(es))
            by (nonlinear_arith);
    }
}

/// A walk weighs at least any of its leading parts, because no hop weighs a
/// negative amount.
pub proof fn lemma_path_weight_prefix(es: Seq<EdgeModel>, r: Seq<nat>, k: int)
    requires
        1 <= k <= r.len(),
    ensures
        path_weight(es, r.take(k)) <= path_weight(es, r),
    decreases r.len(),
{
    if k < r.len() {
        lemma_path_weight_prefix(es, r.drop_last(), k);
        assert(r.drop_last().take(k) =~= r.take(k));
        assert(path_weight(es, r) == path_weight(es, r.drop_last()) + edge_weight_or_zero(
            es,
            r[r.len() - 2],
            r[r.len() - 1],
        ));
        assert(edge_weight_or_zero(es, r[r.len() - 2], r[r.len() - 1]) >= 0);
    } else {
        assert(r.take(k) =~= r);
    }
}

/// A path through `es`: at least one node, every node below `n`, and each
/// consecutive pair joined by an edge.
pub open spec fn is_path(es: Seq<EdgeModel>, n: nat, p: Seq<nat>) -> bool {
    &&& p.len() >= 1
    &&& forall|i: int| 0 <= i < p.len() ==> p[i] < n
    &&& forall|i: int| 0 <= i < p.len() - 1 ==> #[trigger] has_edge(es, p[i], p[i + 1])
}

/// Node `b` is reachable from node `a` through the edges of `es`.
pub open spec fn reaches(es: Seq<EdgeModel>, n: nat, a: nat, b: nat) -> bool {
    exists|p: Seq<nat>| is_path(es, n, p) && p.first() == a && p.last() == b
}

/// Node `i` is the least node of its connected component.
pub open spec fn is_component_leader(es: Seq<EdgeModel>, n: nat, i: nat) -> bool {
    i < n && !(exists|j: nat| j < i && reaches(es, n, j, i))
}

/// The number of connected components among the nodes below `m`: each
/// component is counted at its least node.
pub open spec fn component_count(es: Seq<EdgeModel>, n: nat, m: nat) -> nat
    decreases m,
{
    if m == 0 {
        0
    } else {
        component_count(es, n, (m - 1) as nat)
            + if is_component_leader(es, n, (m - 1) as nat) { 1 as nat } else { 0 as nat }
    }
}

/// The abstraction every graph representation offers the algorithms: a node
/// count and a sequence of canonical weighted edges, read and extended
/// through the methods below. One adjacency-list representation implements
/// it; further representations can be added without touching the algorithms.
pub trait Graph: Sized {
    /// The node count of the model.
    spec fn nodes_spec(&self) -> nat;

    /// The canonical edge triples of the model, in insertion order.
    spec fn edges_spec(&self) -> Seq<EdgeModel>;

    /// The representation's own invariant; constructors establish it and
    /// every method preserves it.
    spec fn wf_spec(&self) -> bool;

    /// The per-node payloads, indexed by node.
    spec fn payloads_spec(&self) -> Seq<u64>;

    /// Insert the undirected edge `from -- to` with weight `weight`.
    fn add_edge(&mut self, from: NodeIx, to: NodeIx, weight: u64)
        requires
            old(self).wf_spec(),
            from.0 < old(self).nodes_spec(),
            to.0 < old(self).nodes_spec(),
            old(self).edges_spec().len() < u32::MAX,
        ensures
            final(self).wf_spec(),
            final(self).nodes_spec() == old(self).nodes_spec(),
            final(self).payloads_spec() == old(self).payloads_spec(),
            final(self).edges_spec() == old(self).edges_spec().push(
                (EdgeModel {
                    lo: min_nat(from.0 as nat, to.0 as nat),
                    hi: max_nat(from.0 as nat, to.0 as nat),
                    w: weight,
                }),
            ),
    ;

    /// All edges incident to `node_ix`, as `(neighbor, weight)` pairs in
    /// insertion order; empty for an out-of-range node.
    fn get_edges(&self, node_ix: NodeIx) -> (r: Vec<(NodeIx, u64)>)
        requires
            self.wf_spec(),
        ensures
            r@.map_values(|p: (NodeIx, u64)| (p.0.0 as nat, p.1)) == incident(
                self.edges_spec(),
                node_ix.0 as nat,
            ),
    ;

    /// The weight of the first inserted edge joining `from_ix` and `to_ix`,
    /// or `None` when no edge joins them.
    fn get_edge_weight(&self, from_ix: NodeIx, to_ix: NodeIx) -> (r: Option<u64>)
        requires
            self.wf_spec(),
        ensures
            r == edge_weight(self.edges_spec(), from_ix.0 as nat, to_ix.0 as nat),
    ;

    /// Every edge exactly once, canonicalized as `(lo, hi, weight)` with
    /// `lo <= hi`, in insertion order.
    fn get_all_edges(&self) -> (r: Vec<(NodeIx, NodeIx, u64)>)
        requires
            self.wf_spec(),
        ensures
            r@.map_values(
                |t: (NodeIx, NodeIx, u64)| (EdgeModel { lo: t.0.0 as nat, hi: t.1.0 as nat, w: t.2 }),
            ) == self.edges_spec(),
            forall|i: int| 0 <= i < r@.len() ==> (#[trigger] r@[i]).0.0 <= r@[i].1.0,
    ;

    /// The node count.
    fn size(&self) -> (r: NodeIx)
        requires
            self.wf_spec(),
        ensures
            r.0 as nat == self.nodes_spec(),
    ;

    /// A well-formed graph stores only canonical edges whose endpoints lie
    /// below the node count.
    proof fn edges_in_range(&self)
        requires
            self.wf_spec(),
        ensures
            forall|k: int|
                0 <= k < self.edges_spec().len() ==> (#[trigger] self.edges_spec()[k]).lo
                    <= self.edges_spec()[k].hi && self.edges_spec()[k].hi < self.nodes_spec(),
    ;
}

/// Reachability is reflexive: the one-node path.
pub proof fn lemma_reaches_refl(es: Seq<EdgeModel>, n: nat, a: nat)
    requires
        a < n,
    ensures
        reaches(es, n, a, a),
{
    let p = seq![a];
    assert(is_path(es, n, p));
    assert(p.first() == a && p.last() == a);
}

/// Reachability extends along one further edge.
pub proof fn lemma_reaches_step(es: Seq<EdgeModel>, n: nat, a: nat, b: nat, c: nat)
    requires
        reaches(es, n, a, b),
        has_edge(es, b, c),
        c < n,
    ensures
        reaches(es, n, a, c),
{
    let p = choose|p: Seq<nat>| is_path(es, n, p) && p.first() == a && p.last() == b;
    let p2 = p.push(c);
    assert forall|i: int| 0 <= i < p2.len() - 1 implies #[trigger] has_edge(
        es,
        p2[i],
        p2[i + 1],
    ) by {
        if i < p.len() - 1 {
            assert(has_edge(es, p[i], p[i + 1]));
        } else {
            assert(p2[i] == p.last() && p2[i + 1] == c);
        }
    }
    assert(is_path(es, n, p2));
    assert(p2.first() == a && p2.last() == c);
}

/// Reachability is transitive: paths concatenate.
pub proof fn lemma_reaches_trans(es: Seq<EdgeModel>, n: nat, a: nat, b: nat, c: nat)
    requires
        reaches(es, n, a, b),
        reaches(es, n, b, c),
    ensures
        reaches(es, n, a, c),
{
    let p1 = choose|p: Seq<nat>| is_path(es, n, p) && p.first() == a && p.last() == b;
    let p2 = choose|p: Seq<nat>| is_path(es, n, p) && p.first() == b && p.last() == c;
    let p3 = p1 + p2.drop_first();
    assert(p3.len() == p1.len() + p2.len() - 1);
    assert forall|i: int| 0 <= i < p3.len() implies p3[i] < n by {
        if i < p1.len() {
            assert(p3[i] == p1[i]);
        } else {
            assert(p3[i] == p2[i - p1.len() + 1]);
        }
    }
    assert forall|i: int| 0 <= i < p3.len() - 1 implies #[trigger] has_edge(
        es,
        p3[i],
        p3[i + 1],
    ) by {
        if i < p1.len() - 1 {
            assert(p3[i] == p1[i] && p3[i + 1] == p1[i + 1]);
            assert(has_edge(es, p1[i], p1[i + 1]));
        } else if i == p1.len() - 1 {
            assert(p3[i] == p1.last());
            assert(p3[i + 1] == p2[1]);
            assert(has_edge(es, p2[0], p2[1]));
        } else {
            assert(p3[i] == p2[i - p1.len() + 1]);
            assert(p3[i + 1] == p2[i - p1.len() + 2]);
            assert(has_edge(es, p2[i - p1.len() + 1], p2[i - p1.len() + 2]));
        }
    }
    assert(is_path(es, n, p3));
    assert(p3.first() == a);
    assert(p3.last() == c) by {
        if p2.len() == 1 {
            assert(p3 =~= p1);
        } else {
            assert(p3.last() == p2.last());
        }
    }
}

/// Every node on a path from a node of a set that is closed under edges lies
/// in the set; the set is given as a visited map over the nodes.
pub proof fn lemma_path_in_closed(es: Seq<EdgeModel>, n: nat, vis: Seq<bool>, p: Seq<nat>)
    requires
        vis.len() == n,
        is_path(es, n, p),
        vis[p.first() as int],
        forall|x: nat, y: nat|
            x < n && y < n && vis[x as int] && #[trigger] has_edge(es, x, y) ==> vis[y as int],
    ensures
        vis[p.last() as int],
    decreases p.len(),
{
    if p.len() > 1 {
        let q = p.drop_last();
        assert forall|i: int| 0 <= i < q.len() - 1 implies #[trigger] has_edge(
            es,
            q[i],
            q[i + 1],
        ) by {
            assert(q[i] == p[i] && q[i + 1] == p[i + 1]);
            assert(has_edge(es, p[i], p[i + 1]));
        }
        assert(is_path(es, n, q));
        lemma_path_in_closed(es, n, vis, q);
        assert(q.last() == p[p.len() - 2]);
        let i = p.len() - 2;
        assert(has_edge(es, p[i], p[i + 1]));
        assert(p[i + 1] == p.last());
    }
}

/// Everything reachable from a node of an edge-closed set lies in the set.
pub proof fn lemma_reach_in_closed(es: Seq<EdgeModel>, n: nat, vis: Seq<bool>, a: nat, b: nat)
    requires
        vis.len() == n,
        a < n,
        vis[a as int],
        reaches(es, n, a, b),
        forall|x: nat, y: nat|
            x < n && y < n && vis[x as int] && #[trigger] has_edge(es, x, y) ==> vis[y as int],
    ensures
        vis[b as int],
{
    let p = choose|p: Seq<nat>| is_path(es, n, p) && p.first() == a && p.last() == b;
    lemma_path_in_closed(es, n, vis, p);
}

/// Every listed incident edge of `a` is a real edge of the graph, with the
/// listed weight.
pub proof fn lemma_incident_sound(es: Seq<EdgeModel>, a: nat)
    ensures
        forall|q: int|
            0 <= q < incident(es, a).len() ==> has_edge(es, a, (#[trigger] incident(es, a)[q]).0)
                && has_edge_with(es, a, incident(es, a)[q].0, incident(es, a)[q].1),
    decreases es.len(),
{
    if es.len() > 0 {
        let rest = es.drop_last();
        lemma_incident_sound(rest, a);
        assert forall|q: int|
            0 <= q < incident(es, a).len() implies has_edge(
            es,
            a,
            (#[trigger] incident(es, a)[q]).0,
        ) && has_edge_with(es, a, incident(es, a)[q].0, incident(es, a)[q].1) by {
            if q < incident(rest, a).len() {
                assert(incident(es, a)[q] == incident(rest, a)[q]);
                assert(has_edge_with(rest, a, incident(rest, a)[q].0, incident(rest, a)[q].1));
                let k = choose|k: int|
                    0 <= k < rest.len() && edge_joins(#[trigger] rest[k], a, incident(rest, a)[q].0)
                        && rest[k].w == incident(rest, a)[q].1;
                assert(edge_joins(es[k], a, incident(es, a)[q].0) && es[k].w == incident(
                    es,
                    a,
                )[q].1);
            } else {
                assert(edge_joins(es[es.len() - 1], a, incident(es, a)[q].0) && es[es.len()
                    - 1].w == incident(es, a)[q].1);
            }
        }
    }
}

/// Every edge of `a` appears in its incident-edge listing.
pub proof fn lemma_incident_has_edge(es: Seq<EdgeModel>, a: nat, b: nat)
    requires
        has_edge(es, a, b),
    ensures
        exists|q: int| 0 <= q < incident(es, a).len() && (#[trigger] incident(es, a)[q]).0 == b,
    decreases es.len(),
{
    let e = es.last();
    if edge_joins(e, a, b) {
        let q = incident(es, a).len() - 1;
        assert(incident(es, a)[q].0 == b);
    } else {
        let k = choose|k: int| 0 <= k < es.len() && edge_joins(es[k], a, b);
        assert(k < es.len() - 1);
        assert(es.drop_last()[k] == es[k]);
        assert(has_edge(es.drop_last(), a, b));
        lemma_incident_has_edge(es.drop_last(), a, b);
        let q = choose|q: int|
            0 <= q < incident(es.drop_last(), a).len() && (#[trigger] incident(
                es.drop_last(),
                a,
            )[q]).0 == b;
        assert(incident(es, a)[q].0 == b);
    }
}

/// When every edge keeps its endpoints below `n`, so does every listed
/// incident edge.
pub proof fn lemma_incident_in_range(es: Seq<EdgeModel>, n: nat, a: nat)
    requires
        forall|k: int| 0 <= k < es.len() ==> (#[trigger] es[k]).lo < n && es[k].hi < n,
    ensures
        forall|q: int| 0 <= q < incident(es, a).len() ==> (#[trigger] incident(es, a)[q]).0 < n,
    decreases es.len(),
{
    if es.len() > 0 {
        let rest = es.drop_last();
        assert(forall|q: int| 0 <= q < rest.len() ==> #[trigger] rest[q] == es[q]);
        lemma_incident_in_range(rest, n, a);
        assert forall|q: int|
            0 <= q < incident(es, a).len() implies (#[trigger] incident(es, a)[q]).0 < n by {
            if q < incident(rest, a).len() {
                assert(incident(es, a)[q] == incident(rest, a)[q]);
            }
        }
    }
}

/// The smaller of two natural numbers.
pub open spec fn min_nat(a: nat, b: nat) -> nat {
    if a <= b {
        a
    } else {
        b
    }
}

/// The larger of two natural numbers.
pub open spec fn max_nat(a: nat, b: nat) -> nat {
    if a <= b {
        b
    } else {
        a
    }
}

} // verus!
