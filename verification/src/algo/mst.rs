//! Minimum spanning trees: Kruskal's algorithm (total weight) and Prim's
//! algorithm (a rooted spanning tree supporting depth-first traversal).
use vstd::prelude::*;

verus! {

use crate::{
    EdgeModel, Graph, NodeIx, weight_sum, weights_fit, max_weight, complete, has_edge,
    has_edge_with, reaches, incident, lemma_reaches_refl, lemma_reaches_step,
    lemma_reach_in_closed, lemma_incident_sound, lemma_incident_has_edge,
    lemma_incident_in_range, lemma_max_weight_each,
};
use crate::algo::count_false;
use vstd::pervasive::VecAdditionalExecFns;

/// A rooted spanning tree produced by Prim's algorithm: its own adjacency
/// lists (child and edge weight, keyed by parent), the root, and the total
/// weight of the tree's edges.
pub struct Mst {
    start_ix: NodeIx,
    adj_list: Vec<Vec<(NodeIx, u64)>>,
    weight: u64,
}

/// A depth-first traversal of a tree, driven by an explicit stack of
/// `(parent, child, weight)` edges still to be walked.
pub struct MstDfsIter<'a> {
    mst: &'a Mst,
    stack: Vec<(NodeIx, NodeIx, u64)>,
}

/// The children of `c`, as `(parent, child, weight)` triples in list order.
pub open spec fn child_triples(av: Seq<Seq<(nat, u64)>>, c: nat) -> Seq<(nat, nat, u64)> {
    av[c as int].map_values(|e: (nat, u64)| (c, e.0, e.1))
}

impl<'a> MstDfsIter<'a> {
    /// The traversed tree.
    pub closed spec fn tree(&self) -> Mst {
        *self.mst
    }

    /// The pending edges, deepest-next last.
    pub closed spec fn stack_view(&self) -> Seq<(nat, nat, u64)> {
        self.stack@.map_values(|t: (NodeIx, NodeIx, u64)| (t.0.0 as nat, t.1.0 as nat, t.2))
    }

    /// Yield the next tree edge in pre-order (children in reverse list
    /// order), pushing the yielded edge's child's own children.
    pub fn next(&mut self) -> (r: Option<(NodeIx, NodeIx, u64)>)
        requires
            old(self).tree().wf(old(self).tree().adj().len() as nat),
            forall|k: int|
                0 <= k < old(self).stack_view().len() ==> ((#[trigger] old(
                    self,
                ).stack_view()[k]).1 as int) < old(self).tree().adj().len(),
        ensures
            final(self).tree() == old(self).tree(),
            old(self).stack_view().len() == 0 ==> r is None && final(self).stack_view() == old(
                self,
            ).stack_view(),
            old(self).stack_view().len() > 0 ==> (r matches Some(e) && (
            e.0.0 as nat,
            e.1.0 as nat,
            e.2,
            ) == old(self).stack_view().last() && final(self).stack_view() == old(
                self,
            ).stack_view().drop_last() + child_triples(
                old(self).tree().adj(),
                old(self).stack_view().last().1,
            )),
    {
        if self.stack.len() == 0 {
            return None;
        }
        let (prev_ix, current_ix, weight) = self.stack.pop().unwrap();
        let ghost base = self.stack@.map_values(
            |t: (NodeIx, NodeIx, u64)| (t.0.0 as nat, t.1.0 as nat, t.2),
        );
        proof {
            assert(base =~= old(self).stack_view().drop_last());
            assert((old(self).stack_view()[old(self).stack_view().len() - 1]).1
                == current_ix.0 as nat);
            assert(self.mst.adj().len() == self.mst.adj_list@.len());
        }
        let row = &self.mst.adj_list[current_ix.0 as usize];
        let ghost ct = child_triples(self.mst.adj(), current_ix.0 as nat);
        proof {
            assert(self.mst.adj()[current_ix.0 as int] == row@.map_values(
                |p: (NodeIx, u64)| (p.0.0 as nat, p.1),
            ));
            assert(ct.len() == row@.len());
            assert forall|t: int| 0 <= t < row@.len() implies ct[t] == (
                current_ix.0 as nat,
                (#[trigger] row@[t]).0.0 as nat,
                row@[t].1,
            ) by {
                assert(row@.map_values(|p: (NodeIx, u64)| (p.0.0 as nat, p.1))[t] == (
                    row@[t].0.0 as nat,
                    row@[t].1,
                ));
            }
            assert(base + ct.take(0) =~= base);
        }
        let mut q: usize = 0;
        while q < row.len()
            invariant
                q <= row@.len(),
                ct == child_triples(self.mst.adj(), current_ix.0 as nat),
                self.mst == old(self).mst,
                row@ == self.mst.adj_list@[current_ix.0 as int]@,
                (current_ix.0 as int) < self.mst.adj_list@.len(),
                ct.len() == row@.len(),
                forall|t: int|
                    0 <= t < row@.len() ==> ct[t] == (
                        current_ix.0 as nat,
                        (#[trigger] row@[t]).0.0 as nat,
                        row@[t].1,
                    ),
                self.stack@.map_values(
                    |t: (NodeIx, NodeIx, u64)| (t.0.0 as nat, t.1.0 as nat, t.2),
                ) =~= base + ct.take(q as int),
            decreases row@.len() - q,
        {
            let (to_ix, w) = row[q];
            let ghost pre_map = self.stack@.map_values(
                |t: (NodeIx, NodeIx, u64)| (t.0.0 as nat, t.1.0 as nat, t.2),
            );
            self.stack.push((current_ix, to_ix, w));
            proof {
                assert(self.stack@.map_values(
                    |t: (NodeIx, NodeIx, u64)| (t.0.0 as nat, t.1.0 as nat, t.2),
                ) =~= pre_map.push((current_ix.0 as nat, to_ix.0 as nat, w)));
                assert(ct.take(q as int + 1) =~= ct.take(q as int).push(ct[q as int]));
                assert(ct[q as int] == (current_ix.0 as nat, to_ix.0 as nat, w));
                assert(self.stack@.map_values(
                    |t: (NodeIx, NodeIx, u64)| (t.0.0 as nat, t.1.0 as nat, t.2),
                ) =~= base + ct.take(q as int + 1));
            }
            q = q + 1;
        }
        proof {
            assert(ct.take(ct.len() as int) =~= ct);
            assert(self.stack@.map_values(
                |t: (NodeIx, NodeIx, u64)| (t.0.0 as nat, t.1.0 as nat, t.2),
            ) =~= base + ct);
        }
        Some((prev_ix, current_ix, weight))
    }
}

impl Mst {
    /// The tree's adjacency lists, as `(child, weight)` entries per parent.
    pub closed spec fn adj(&self) -> Seq<Seq<(nat, u64)>> {
        tree_adj(self.adj_list@)
    }

    /// The structural invariant of a tree over `n` nodes rooted at the start
    /// node: one adjacency list per node, every child in range and distinct
    /// from the root, and no node a child twice.
    pub open spec fn wf(&self, n: nat) -> bool {
        &&& self.adj().len() == n
        &&& self.start_spec() < n
        &&& n <= u32::MAX
        &&& forall|p: int, q: int|
            0 <= p < n && 0 <= q < self.adj()[p].len() ==> (#[trigger] self.adj()[p][q]).0 < n
                && self.adj()[p][q].0 != self.start_spec()
        &&& targets_distinct(self.adj())
    }

    /// The root node.
    pub closed spec fn start_spec(&self) -> nat {
        self.start_ix.0 as nat
    }

    /// The recorded total weight.
    pub closed spec fn weight_spec(&self) -> u64 {
        self.weight
    }

    /// The root of the tree.
    pub fn get_start_ix(&self) -> (r: NodeIx)
        ensures
            r.0 as nat == self.start_spec(),
    {
        self.start_ix
    }

    /// The total weight of the tree's edges.
    pub fn get_weight(&self) -> (r: u64)
        ensures
            r == self.weight_spec(),
    {
        self.weight
    }

    /// The tree edges leaving `node_ix`, as `(child, weight)` pairs.
    pub fn get_edges(&self, node_ix: NodeIx) -> (r: &Vec<(NodeIx, u64)>)
        requires
            (node_ix.0 as int) < self.adj().len(),
        ensures
            r@.map_values(|p: (NodeIx, u64)| (p.0.0 as nat, p.1)) == self.adj()[node_ix.0 as int],
    {
        &self.adj_list[node_ix.0 as usize]
    }

    /// A depth-first traversal from the root: it yields each tree edge
    /// exactly once, pre-order, children in reverse list order.
    pub fn dfs(&self) -> (it: MstDfsIter<'_>)
        requires
            (self.start_spec() as int) < self.adj().len(),
        ensures
            it.tree() == *self,
            it.stack_view() == child_triples(self.adj(), self.start_spec()),
    {
        let mut stack: Vec<(NodeIx, NodeIx, u64)> = Vec::new();
        let row = &self.adj_list[self.start_ix.0 as usize];
        let ghost ct = child_triples(self.adj(), self.start_spec());
        proof {
            assert(self.adj()[self.start_ix.0 as int] == row@.map_values(
                |p: (NodeIx, u64)| (p.0.0 as nat, p.1),
            ));
            assert forall|t: int| 0 <= t < row@.len() implies ct[t] == (
                self.start_spec(),
                (#[trigger] row@[t]).0.0 as nat,
                row@[t].1,
            ) by {
                assert(row@.map_values(|p: (NodeIx, u64)| (p.0.0 as nat, p.1))[t] == (
                    row@[t].0.0 as nat,
                    row@[t].1,
                ));
            }
        }
        let mut q: usize = 0;
        while q < row.len()
            invariant
                q <= row@.len(),
                ct == child_triples(self.adj(), self.start_spec()),
                row@ == self.adj_list@[self.start_ix.0 as int]@,
                (self.start_ix.0 as int) < self.adj_list@.len(),
                ct.len() == row@.len(),
                forall|t: int|
                    0 <= t < row@.len() ==> ct[t] == (
                        self.start_spec(),
                        (#[trigger] row@[t]).0.0 as nat,
                        row@[t].1,
                    ),
                stack@.map_values(
                    |t: (NodeIx, NodeIx, u64)| (t.0.0 as nat, t.1.0 as nat, t.2),
                ) =~= ct.take(q as int),
            decreases row@.len() - q,
        {
            let (to_ix, w) = row[q];
            let ghost pre_map = stack@.map_values(
                |t: (NodeIx, NodeIx, u64)| (t.0.0 as nat, t.1.0 as nat, t.2),
            );
            stack.push((self.start_ix, to_ix, w));
            proof {
                assert(stack@.map_values(
                    |t: (NodeIx, NodeIx, u64)| (t.0.0 as nat, t.1.0 as nat, t.2),
                ) =~= pre_map.push((self.start_spec(), to_ix.0 as nat, w)));
                assert(ct.take(q as int + 1) =~= ct.take(q as int).push(ct[q as int]));
                assert(ct[q as int] == (self.start_spec(), to_ix.0 as nat, w));
                assert(stack@.map_values(
                    |t: (NodeIx, NodeIx, u64)| (t.0.0 as nat, t.1.0 as nat, t.2),
                ) =~= ct.take(q as int + 1));
            }
            q = q + 1;
        }
        proof {
            assert(ct.take(ct.len() as int) =~= ct);
        }
        MstDfsIter { mst: self, stack }
    }
}

/// The adjacency lists of a tree, as node-number sequences.
pub open spec fn tree_adj(al: Seq<Vec<(NodeIx, u64)>>) -> Seq<Seq<(nat, u64)>> {
    al.map_values(|l: Vec<(NodeIx, u64)>| l@.map_values(|p: (NodeIx, u64)| (p.0.0 as nat, p.1)))
}

/// Node `j` is the child end of some tree edge.
pub open spec fn is_target(av: Seq<Seq<(nat, u64)>>, j: nat) -> bool {
    exists|p: int, q: int|
        0 <= p < av.len() && 0 <= q < av[p].len() && (#[trigger] av[p][q]).0 == j
}

/// The tree records an edge from parent `p` to child `c`.
pub open spec fn tree_edge(av: Seq<Seq<(nat, u64)>>, p: nat, c: nat) -> bool {
    p < av.len() && exists|q: int| 0 <= q < av[p as int].len() && (#[trigger] av[p as int][q]).0 == c
}

/// A descent through recorded tree edges, parent to child at every step.
pub open spec fn is_tree_path(av: Seq<Seq<(nat, u64)>>, p: Seq<nat>) -> bool {
    &&& p.len() >= 1
    &&& forall|i: int| 0 <= i < p.len() - 1 ==> #[trigger] tree_edge(av, p[i], p[i + 1])
}

/// Node `b` lies below node `a` in the tree (or is `a` itself).
pub open spec fn tree_reaches(av: Seq<Seq<(nat, u64)>>, a: nat, b: nat) -> bool {
    exists|p: Seq<nat>| is_tree_path(av, p) && p.first() == a && p.last() == b
}

proof fn lemma_tree_reaches_refl(av: Seq<Seq<(nat, u64)>>, a: nat)
    ensures
        tree_reaches(av, a, a),
{
    let p = seq![a];
    assert(is_tree_path(av, p));
    assert(p.first() == a && p.last() == a);
}

proof fn lemma_tree_reaches_step(av: Seq<Seq<(nat, u64)>>, a: nat, b: nat, c: nat)
    requires
        tree_reaches(av, a, b),
        tree_edge(av, b, c),
    ensures
        tree_reaches(av, a, c),
{
    let p = choose|p: Seq<nat>| is_tree_path(av, p) && p.first() == a && p.last() == b;
    let p2 = p.push(c);
    assert forall|i: int| 0 <= i < p2.len() - 1 implies #[trigger] tree_edge(
        av,
        p2[i],
        p2[i + 1],
    ) by {
        if i < p.len() - 1 {
            assert(tree_edge(av, p[i], p[i + 1]));
        } else {
            assert(p2[i] == p.last() && p2[i + 1] == c);
        }
    }
    assert(is_tree_path(av, p2));
    assert(p2.first() == a && p2.last() == c);
}

/// Adding tree edges keeps every existing descent.
proof fn lemma_tree_reaches_mono(av1: Seq<Seq<(nat, u64)>>, av2: Seq<Seq<(nat, u64)>>, a: nat, b: nat)
    requires
        tree_reaches(av1, a, b),
        forall|p: nat, c: nat| #[trigger] tree_edge(av1, p, c) ==> tree_edge(av2, p, c),
    ensures
        tree_reaches(av2, a, b),
{
    let p = choose|p: Seq<nat>| is_tree_path(av1, p) && p.first() == a && p.last() == b;
    assert forall|i: int| 0 <= i < p.len() - 1 implies #[trigger] tree_edge(
        av2,
        p[i],
        p[i + 1],
    ) by {
        assert(tree_edge(av1, p[i], p[i + 1]));
    }
    assert(is_tree_path(av2, p));
}

/// Every node on a descent from a marked node stays marked when marking is
/// closed under tree edges.
proof fn lemma_tree_path_in_closed(av: Seq<Seq<(nat, u64)>>, vis: Seq<bool>, p: Seq<nat>)
    requires
        is_tree_path(av, p),
        vis[p.first() as int],
        forall|x: nat, y: nat| #[trigger] tree_edge(av, x, y) && vis[x as int] ==> vis[y as int],
    ensures
        vis[p.last() as int],
    decreases p.len(),
{
    if p.len() > 1 {
        let q = p.drop_last();
        assert forall|i: int| 0 <= i < q.len() - 1 implies #[trigger] tree_edge(
            av,
            q[i],
            q[i + 1],
        ) by {
            assert(q[i] == p[i] && q[i + 1] == p[i + 1]);
            assert(tree_edge(av, p[i], p[i + 1]));
        }
        assert(is_tree_path(av, q));
        lemma_tree_path_in_closed(av, vis, q);
        let i = p.len() - 2;
        assert(tree_edge(av, p[i], p[i + 1]));
        assert(p[i + 1] == p.last() && q.last() == p[i]);
    }
}

/// Everything below a marked node in the tree is marked when marking is
/// closed under tree edges.
pub proof fn lemma_tree_reach_in_closed(av: Seq<Seq<(nat, u64)>>, vis: Seq<bool>, a: nat, b: nat)
    requires
        vis[a as int],
        tree_reaches(av, a, b),
        forall|x: nat, y: nat| #[trigger] tree_edge(av, x, y) && vis[x as int] ==> vis[y as int],
    ensures
        vis[b as int],
{
    let p = choose|p: Seq<nat>| is_tree_path(av, p) && p.first() == a && p.last() == b;
    lemma_tree_path_in_closed(av, vis, p);
}

/// No node is the child end of two tree edges.
pub open spec fn targets_distinct(av: Seq<Seq<(nat, u64)>>) -> bool {
    forall|p1: int, q1: int, p2: int, q2: int|
        0 <= p1 < av.len() && 0 <= q1 < av[p1].len() && 0 <= p2 < av.len() && 0 <= q2
            < av[p2].len() && (p1 != p2 || q1 != q2) ==> (#[trigger] av[p1][q1]).0 != (
        #[trigger] av[p2][q2]).0
}

/// The weight of one adjacency list's edges.
pub open spec fn row_weight(row: Seq<(nat, u64)>) -> int
    decreases row.len(),
{
    if row.len() == 0 {
        0
    } else {
        row_weight(row.drop_last()) + row.last().1
    }
}

/// The weight of all tree edges.
pub open spec fn tree_weight(av: Seq<Seq<(nat, u64)>>) -> int
    decreases av.len(),
{
    if av.len() == 0 {
        0
    } else {
        tree_weight(av.drop_last()) + row_weight(av.last())
    }
}

proof fn lemma_tree_weight_update(av: Seq<Seq<(nat, u64)>>, p: int, row2: Seq<(nat, u64)>)
    requires
        0 <= p < av.len(),
    ensures
        tree_weight(av.update(p, row2)) == tree_weight(av) - row_weight(av[p]) + row_weight(row2),
    decreases av.len(),
{
    let av2 = av.update(p, row2);
    if p == av.len() - 1 {
        assert(av2.drop_last() =~= av.drop_last());
        assert(av2.last() == row2);
    } else {
        assert(av2.drop_last() =~= av.drop_last().update(p, row2));
        lemma_tree_weight_update(av.drop_last(), p, row2);
        assert(av2.last() == av.last());
        assert(av.drop_last()[p] == av[p]);
    }
}

proof fn lemma_tree_weight_all_empty(av: Seq<Seq<(nat, u64)>>)
    requires
        forall|p: int| 0 <= p < av.len() ==> (#[trigger] av[p]).len() == 0,
    ensures
        tree_weight(av) == 0,
    decreases av.len(),
{
    if av.len() > 0 {
        lemma_tree_weight_all_empty(av.drop_last());
    }
}

/// Some fringe entry points at node `y`.
spec fn fringe_has(f: Seq<(u64, NodeIx, NodeIx)>, y: nat) -> bool {
    exists|k: int| 0 <= k < f.len() && ((#[trigger] f[k]).2.0 as nat) == y
}

/// The order Kruskal sorts by: weight first, ties broken by the canonical
/// endpoints, so that the sorted order is unique.
pub open spec fn edge_order(a: EdgeModel, b: EdgeModel) -> bool {
    a.w < b.w || (a.w == b.w && (a.lo < b.lo || (a.lo == b.lo && a.hi <= b.hi)))
}

/// `e` inserted into `s` in front of the first entry it precedes.
pub open spec fn insert_sorted(e: EdgeModel, s: Seq<EdgeModel>) -> Seq<EdgeModel>
    decreases s.len(),
{
    if s.len() == 0 {
        seq![e]
    } else if edge_order(e, s[0]) {
        seq![e] + s
    } else {
        seq![s[0]] + insert_sorted(e, s.drop_first())
    }
}

/// The edges in ascending `edge_order`, by insertion sort.
pub open spec fn sort_edges(es: Seq<EdgeModel>) -> Seq<EdgeModel>
    decreases es.len(),
{
    if es.len() == 0 {
        Seq::<EdgeModel>::empty()
    } else {
        insert_sorted(es.last(), sort_edges(es.drop_last()))
    }
}

/// Everything the insertion places is the new edge or one of the old ones.
proof fn lemma_insert_sorted_elems(e: EdgeModel, s: Seq<EdgeModel>)
    ensures
        insert_sorted(e, s).len() == s.len() + 1,
        forall|i: int|
            0 <= i < insert_sorted(e, s).len() ==> ((#[trigger] insert_sorted(e, s)[i]) == e
                || exists|j: int| 0 <= j < s.len() && s[j] == insert_sorted(e, s)[i]),
    decreases s.len(),
{
    let t = insert_sorted(e, s);
    if s.len() == 0 {
    } else if edge_order(e, s[0]) {
        assert forall|i: int|
            0 <= i < t.len() implies ((#[trigger] t[i]) == e || exists|j: int|
            0 <= j < s.len() && s[j] == t[i]) by {
            if i > 0 {
                assert(s[i - 1] == t[i]);
            }
        }
    } else {
        lemma_insert_sorted_elems(e, s.drop_first());
        let rest = insert_sorted(e, s.drop_first());
        assert forall|i: int|
            0 <= i < t.len() implies ((#[trigger] t[i]) == e || exists|j: int|
            0 <= j < s.len() && s[j] == t[i]) by {
            if i == 0 {
                assert(s[0] == t[i]);
            } else {
                assert(t[i] == rest[i - 1]);
                if rest[i - 1] != e {
                    let j = choose|j: int|
                        0 <= j < s.drop_first().len() && #[trigger] s.drop_first()[j] == rest[i
                            - 1];
                    assert(s[j + 1] == t[i]);
                }
            }
        }
    }
}

/// Inserting into an ascending sequence keeps it ascending.
proof fn lemma_insert_sorted_keeps_sorted(e: EdgeModel, s: Seq<EdgeModel>)
    requires
        forall|i: int, j: int|
            0 <= i <= j < s.len() ==> edge_order(#[trigger] s[i], #[trigger] s[j]),
    ensures
        insert_sorted(e, s).len() == s.len() + 1,
        forall|i: int, j: int|
            0 <= i <= j < s.len() + 1 ==> edge_order(
                #[trigger] insert_sorted(e, s)[i],
                #[trigger] insert_sorted(e, s)[j],
            ),
    decreases s.len(),
{
    lemma_insert_sorted_elems(e, s);
    let t = insert_sorted(e, s);
    if s.len() == 0 {
        assert(t =~= seq![e]);
    } else if edge_order(e, s[0]) {
        assert forall|i: int, j: int|
            0 <= i <= j < t.len() implies edge_order(#[trigger] t[i], #[trigger] t[j]) by {
            if i == 0 {
                if j > 0 {
                    assert(t[j] == s[j - 1]);
                    assert(edge_order(s[0], s[j - 1]));
                }
            } else {
                assert(t[i] == s[i - 1] && t[j] == s[j - 1]);
                assert(edge_order(s[i - 1], s[j - 1]));
            }
        }
    } else {
        assert forall|i: int, j: int|
            0 <= i <= j < s.drop_first().len() implies edge_order(
            #[trigger] s.drop_first()[i],
            #[trigger] s.drop_first()[j],
        ) by {
            assert(s.drop_first()[i] == s[i + 1] && s.drop_first()[j] == s[j + 1]);
            assert(edge_order(s[i + 1], s[j + 1]));
        }
        lemma_insert_sorted_keeps_sorted(e, s.drop_first());
        lemma_insert_sorted_elems(e, s.drop_first());
        let rest = insert_sorted(e, s.drop_first());
        assert forall|i: int, j: int|
            0 <= i <= j < t.len() implies edge_order(#[trigger] t[i], #[trigger] t[j]) by {
            if i == 0 {
                assert(t[0] == s[0]);
                if j > 0 {
                    assert(t[j] == rest[j - 1]);
                    if rest[j - 1] == e {
                    } else {
                        let m = choose|m: int|
                            0 <= m < s.drop_first().len() && #[trigger] s.drop_first()[m]
                                == rest[j - 1];
                        assert(s[m + 1] == rest[j - 1]);
                        assert(edge_order(s[0], s[m + 1]));
                    }
                }
            } else {
                assert(t[i] == rest[i - 1] && t[j] == rest[j - 1]);
                assert(edge_order(rest[i - 1], rest[j - 1]));
            }
        }
    }
}

/// The sorted edges are exactly as many as the stored ones and ascend in
/// `edge_order`: Kruskal's run really considers the edges cheapest first.
pub proof fn lemma_sort_edges_sorted(es: Seq<EdgeModel>)
    ensures
        sort_edges(es).len() == es.len(),
        forall|i: int, j: int|
            0 <= i <= j < es.len() ==> edge_order(
                #[trigger] sort_edges(es)[i],
                #[trigger] sort_edges(es)[j],
            ),
    decreases es.len(),
{
    if es.len() > 0 {
        lemma_sort_edges_sorted(es.drop_last());
        lemma_insert_sorted_keeps_sorted(es.last(), sort_edges(es.drop_last()));
    }
}

/// The starting disjoint-set state: every node is its own set.
pub open spec fn ids_init(n: nat) -> Seq<u32> {
    Seq::new(n, |i: int| i as u32)
}

/// Every entry with set label `o` relabeled to `t`: the merge of set `o`
/// into set `t`.
pub open spec fn relabel(ids: Seq<u32>, o: u32, t: u32) -> Seq<u32> {
    Seq::new(ids.len(), |i: int| if ids[i] == o { t } else { ids[i] })
}

/// How many nodes carry set label `id`: the size of set `id`.
pub open spec fn cnt(ids: Seq<u32>, id: u32) -> nat
    decreases ids.len(),
{
    if ids.len() == 0 {
        0
    } else {
        cnt(ids.drop_last(), id) + if ids.last() == id {
            1 as nat
        } else {
            0 as nat
        }
    }
}

/// One Kruskal step on edge `e`: if its endpoints carry different labels the
/// smaller set is relabeled into the larger one and the edge is taken
/// (second component `true`); otherwise the edge closes a cycle and is
/// skipped.
pub open spec fn kruskal_step(e: EdgeModel, ids: Seq<u32>) -> (Seq<u32>, bool) {
    let fa = ids[e.lo as int];
    let fb = ids[e.hi as int];
    if fa == fb {
        (ids, false)
    } else if cnt(ids, fa) >= cnt(ids, fb) {
        (relabel(ids, fb, fa), true)
    } else {
        (relabel(ids, fa, fb), true)
    }
}

/// Kruskal's run over a sorted edge sequence: the final disjoint-set state
/// and the total weight of the taken edges.
pub open spec fn kruskal_run(s: Seq<EdgeModel>, ids: Seq<u32>) -> (Seq<u32>, int)
    decreases s.len(),
{
    if s.len() == 0 {
        (ids, 0)
    } else {
        let st = kruskal_step(s[0], ids);
        let rec = kruskal_run(s.drop_first(), st.0);
        (rec.0, rec.1 + if st.1 {
            s[0].w as int
        } else {
            0
        })
    }
}

/// The weight a Kruskal run accumulates is at most the weight of the edges
/// it runs over, and never negative.
proof fn lemma_run_bounds(s: Seq<EdgeModel>, ids: Seq<u32>)
    ensures
        0 <= kruskal_run(s, ids).1 <= weight_sum(s),
    decreases s.len(),
{
    if s.len() > 0 {
        lemma_run_bounds(s.drop_first(), kruskal_step(s[0], ids).0);
    }
}

/// Sorting does not change the total edge weight.
proof fn lemma_weight_sum_insert(e: EdgeModel, s: Seq<EdgeModel>)
    ensures
        weight_sum(insert_sorted(e, s)) == e.w + weight_sum(s),
    decreases s.len(),
{
    if s.len() == 0 {
        assert(insert_sorted(e, s) == seq![e]);
        assert(seq![e].drop_first() =~= Seq::<EdgeModel>::empty());
        assert(seq![e][0] == e);
        assert(weight_sum(seq![e]) == e.w + weight_sum(seq![e].drop_first()));
    } else if edge_order(e, s[0]) {
        assert(insert_sorted(e, s) == seq![e] + s);
        assert((seq![e] + s).drop_first() =~= s);
        assert((seq![e] + s)[0] == e);
        assert(weight_sum(seq![e] + s) == e.w + weight_sum(s));
    } else {
        lemma_weight_sum_insert(e, s.drop_first());
        let t = seq![s[0]] + insert_sorted(e, s.drop_first());
        assert(insert_sorted(e, s) == t);
        assert(t.len() > 0);
        assert(t.drop_first() =~= insert_sorted(e, s.drop_first()));
        assert(t[0] == s[0]);
        assert(weight_sum(t) == s[0].w + weight_sum(insert_sorted(e, s.drop_first())));
        assert(weight_sum(s) == s[0].w + weight_sum(s.drop_first()));
    }
}

/// The sorted edges carry the same total weight as the stored ones.
proof fn lemma_weight_sum_sort(es: Seq<EdgeModel>)
    ensures
        weight_sum(sort_edges(es)) == weight_sum(es),
    decreases es.len(),
{
    if es.len() > 0 {
        lemma_weight_sum_sort(es.drop_last());
        lemma_weight_sum_insert(es.last(), sort_edges(es.drop_last()));
        lemma_weight_sum_last(es);
    }
}

/// The total weight read from the back rather than the front.
proof fn lemma_weight_sum_last(es: Seq<EdgeModel>)
    requires
        es.len() > 0,
    ensures
        weight_sum(es) == weight_sum(es.drop_last()) + es.last().w,
    decreases es.len(),
{
    if es.len() == 1 {
        assert(es.drop_first() =~= Seq::<EdgeModel>::empty());
        assert(es.drop_last() =~= Seq::<EdgeModel>::empty());
    } else {
        lemma_weight_sum_last(es.drop_first());
        assert(es.drop_first().drop_last() =~= es.drop_last().drop_first());
        assert(es.drop_last()[0] == es[0]);
        assert(es.drop_first().last() == es.last());
    }
}

/// Relabeling `o` into `t` empties set `o` into set `t` and moves no other
/// node.
proof fn lemma_cnt_relabel(ids: Seq<u32>, o: u32, t: u32)
    requires
        t != o,
    ensures
        cnt(relabel(ids, o, t), t) == cnt(ids, t) + cnt(ids, o),
        cnt(relabel(ids, o, t), o) == 0,
        forall|x: u32| x != t && x != o ==> cnt(relabel(ids, o, t), x) == cnt(ids, x),
    decreases ids.len(),
{
    if ids.len() == 0 {
        assert(relabel(ids, o, t) =~= Seq::<u32>::empty());
    } else {
        assert(relabel(ids, o, t).drop_last() =~= relabel(ids.drop_last(), o, t));
        lemma_cnt_relabel(ids.drop_last(), o, t);
        assert(relabel(ids, o, t).last() == if ids.last() == o {
            t
        } else {
            ids.last()
        });
        assert forall|x: u32| x != t && x != o implies cnt(relabel(ids, o, t), x) == cnt(
            ids,
            x,
        ) by {
            assert(cnt(relabel(ids.drop_last(), o, t), x) == cnt(ids.drop_last(), x));
            assert(cnt(relabel(ids, o, t), x) == cnt(relabel(ids, o, t).drop_last(), x)
                + if relabel(ids, o, t).last() == x {
                1 as nat
            } else {
                0 as nat
            });
            assert(cnt(ids, x) == cnt(ids.drop_last(), x) + if ids.last() == x {
                1 as nat
            } else {
                0 as nat
            });
        }
    }
}

/// Two different sets together hold at most all nodes.
proof fn lemma_cnt_pair_le(ids: Seq<u32>, a: u32, b: u32)
    requires
        a != b,
    ensures
        cnt(ids, a) + cnt(ids, b) <= ids.len(),
    decreases ids.len(),
{
    if ids.len() > 0 {
        lemma_cnt_pair_le(ids.drop_last(), a, b);
    }
}

/// In the starting state every set of a node below `n` has exactly one
/// member.
proof fn lemma_cnt_init(n: nat, id: u32)
    requires
        n <= u32::MAX,
    ensures
        cnt(ids_init(n), id) == if (id as nat) < n {
            1 as nat
        } else {
            0 as nat
        },
    decreases n,
{
    if n > 0 {
        assert(ids_init(n).drop_last() =~= ids_init((n - 1) as nat));
        lemma_cnt_init((n - 1) as nat, id);
        assert(ids_init(n).last() == (n - 1) as u32);
    }
}

/// Inserting ahead of position `pos` is the sequence insertion at `pos`.
proof fn lemma_insert_sorted_position(e: EdgeModel, s: Seq<EdgeModel>, pos: int)
    requires
        0 <= pos <= s.len(),
        forall|i: int| 0 <= i < pos ==> !edge_order(e, #[trigger] s[i]),
        pos < s.len() ==> edge_order(e, s[pos]),
    ensures
        insert_sorted(e, s) == s.insert(pos, e),
    decreases s.len(),
{
    if s.len() == 0 {
        assert(insert_sorted(e, s) =~= s.insert(0, e));
    } else if pos == 0 {
        assert(insert_sorted(e, s) =~= s.insert(0, e));
    } else {
        assert(!edge_order(e, s[0]));
        lemma_insert_sorted_position(e, s.drop_first(), pos - 1);
        assert(seq![s[0]] + s.drop_first().insert(pos - 1, e) =~= s.insert(pos, e));
    }
}

/// The disjoint-set sizes agree with the labels: entry `id` holds the
/// member count of set `id`.
pub open spec fn sizes_ok(ids: Seq<u32>, sizes: Seq<u32>) -> bool {
    &&& sizes.len() == ids.len()
    &&& forall|id: int| 0 <= id < sizes.len() ==> (#[trigger] sizes[id]) as nat == cnt(ids, id as u32)
}

/// Merge set `other_id` into set `target_id`: relabel every member and move
/// the member count across.
fn union_sets(target_id: u32, other_id: u32, ix2id: &mut Vec<u32>, set_size: &mut Vec<u32>)
    requires
        target_id != other_id,
        (target_id as nat) < old(ix2id)@.len(),
        (other_id as nat) < old(ix2id)@.len(),
        old(ix2id)@.len() <= u32::MAX,
        sizes_ok(old(ix2id)@, old(set_size)@),
    ensures
        final(ix2id)@ == relabel(old(ix2id)@, other_id, target_id),
        final(ix2id)@.len() == old(ix2id)@.len(),
        sizes_ok(final(ix2id)@, final(set_size)@),
{
    let ghost ids0 = ix2id@;
    let n = ix2id.len();
    let mut j: usize = 0;
    while j < n
        invariant
            n == ids0.len(),
            ix2id@.len() == n,
            j <= n,
            forall|q: int| 0 <= q < j ==> ix2id@[q] == (if ids0[q] == other_id {
                target_id
            } else {
                ids0[q]
            }),
            forall|q: int| j <= q < n ==> ix2id@[q] == ids0[q],
        decreases n - j,
    {
        if ix2id[j] == other_id {
            ix2id[j] = target_id;
        }
        j = j + 1;
    }
    proof {
        assert(ix2id@ =~= relabel(ids0, other_id, target_id));
        lemma_cnt_relabel(ids0, other_id, target_id);
        lemma_cnt_pair_le(ids0, target_id, other_id);
    }
    let merged = set_size[target_id as usize] + set_size[other_id as usize];
    set_size[target_id as usize] = merged;
    set_size[other_id as usize] = 0;
    proof {
        assert forall|id: int| 0 <= id < set_size@.len() implies (#[trigger] set_size@[id]) as nat
            == cnt(ix2id@, id as u32) by {
            if id != target_id as int && id != other_id as int {
                assert(id as u32 != target_id && id as u32 != other_id);
                assert(cnt(relabel(ids0, other_id, target_id), id as u32) == cnt(ids0, id as u32));
            }
        }
    }
}

/// The total weight of a minimum spanning forest of the graph, by Kruskal's
/// algorithm: consider every edge once in ascending weight (ties broken by
/// the canonical endpoints) and take it unless it closes a cycle, merging
/// the smaller endpoint set into the larger. On a connected graph this is
/// the minimum spanning tree weight; on a disconnected one, each reachable
/// component contributes its own tree.
pub fn kruskal<G: Graph>(graph: &G) -> (r: u64)
    requires
        graph.wf_spec(),
        weight_sum(graph.edges_spec()) <= u64::MAX,
    ensures
        r as int == kruskal_run(
            sort_edges(graph.edges_spec()),
            ids_init(graph.nodes_spec()),
        ).1,
{
    let ghost es = graph.edges_spec();
    let ghost n = graph.nodes_spec();
    let ghost srt = sort_edges(es);
    proof {
        graph.edges_in_range();
        lemma_weight_sum_sort(es);
    }
    let all = graph.get_all_edges();
    // sort ascending by weight (ties by endpoints)
    let mut sorted: Vec<(NodeIx, NodeIx, u64)> = Vec::new();
    let mut k: usize = 0;
    proof {
        assert(all@.map_values(
            |t: (NodeIx, NodeIx, u64)| (EdgeModel { lo: t.0.0 as nat, hi: t.1.0 as nat, w: t.2 }),
        ) == es);
        assert forall|q: int| 0 <= q < all@.len() implies (#[trigger] all@[q]).0.0
            <= all@[q].1.0 && (all@[q].1.0 as nat) < n by {
            assert(es[q] == EdgeModel { lo: all@[q].0.0 as nat, hi: all@[q].1.0 as nat, w: all@[q].2 });
            assert(es[q].lo <= es[q].hi && es[q].hi < n);
        }
    }
    while k < all.len()
        invariant
            k <= all@.len(),
            es == graph.edges_spec(),
            n == graph.nodes_spec(),
            forall|q: int| 0 <= q < all@.len() ==> (#[trigger] all@[q]).0.0 <= all@[q].1.0 && (
            all@[q].1.0 as nat) < n,
            all@.map_values(
                |t: (NodeIx, NodeIx, u64)| (EdgeModel { lo: t.0.0 as nat, hi: t.1.0 as nat, w: t.2 }),
            ) == es,
            sorted@.map_values(
                |t: (NodeIx, NodeIx, u64)| (EdgeModel { lo: t.0.0 as nat, hi: t.1.0 as nat, w: t.2 }),
            ) == sort_edges(es.take(k as int)),
            forall|q: int| 0 <= q < sorted@.len() ==> (#[trigger] sorted@[q]).0.0
                <= sorted@[q].1.0 && (sorted@[q].1.0 as nat) < n,
        decreases all@.len() - k,
    {
        let e = all[k];
        let ghost em = EdgeModel { lo: e.0.0 as nat, hi: e.1.0 as nat, w: e.2 };
        let ghost sm = sorted@.map_values(
            |t: (NodeIx, NodeIx, u64)| (EdgeModel { lo: t.0.0 as nat, hi: t.1.0 as nat, w: t.2 }),
        );
        let mut pos: usize = 0;
        while pos < sorted.len() && !edge_le(e, sorted[pos])
            invariant
                pos <= sorted@.len(),
                sm == sorted@.map_values(
                    |t: (NodeIx, NodeIx, u64)| (EdgeModel {
                        lo: t.0.0 as nat,
                        hi: t.1.0 as nat,
                        w: t.2,
                    }),
                ),
                em == (EdgeModel { lo: e.0.0 as nat, hi: e.1.0 as nat, w: e.2 }),
                forall|i: int| 0 <= i < pos ==> !edge_order(em, #[trigger] sm[i]),
            decreases sorted@.len() - pos,
        {
            proof {
                assert(sm[pos as int] == (EdgeModel {
                    lo: sorted@[pos as int].0.0 as nat,
                    hi: sorted@[pos as int].1.0 as nat,
                    w: sorted@[pos as int].2,
                }));
            }
            pos = pos + 1;
        }
        proof {
            if pos < sorted@.len() {
                assert(sm[pos as int] == (EdgeModel {
                    lo: sorted@[pos as int].0.0 as nat,
                    hi: sorted@[pos as int].1.0 as nat,
                    w: sorted@[pos as int].2,
                }));
            }
            lemma_insert_sorted_position(em, sm, pos as int);
        }
        sorted.insert(pos, e);
        proof {
            assert(es.take(k as int + 1).drop_last() =~= es.take(k as int));
            assert(es.take(k as int + 1).last() == es[k as int]);
            assert(es[k as int] == em);
            assert(sorted@.map_values(
                |t: (NodeIx, NodeIx, u64)| (EdgeModel { lo: t.0.0 as nat, hi: t.1.0 as nat, w: t.2 }),
            ) =~= sm.insert(pos as int, em));
            assert(sort_edges(es.take(k as int + 1)) == insert_sorted(em, sm));
        }
        k = k + 1;
    }
    proof {
        assert(es.take(es.len() as int) =~= es);
        assert(sorted@.map_values(
            |t: (NodeIx, NodeIx, u64)| (EdgeModel { lo: t.0.0 as nat, hi: t.1.0 as nat, w: t.2 }),
        ) == srt);
        lemma_run_bounds(srt, ids_init(n));
    }
    let ghost total = kruskal_run(srt, ids_init(n)).1;
    // disjoint sets: each node's label, and each label's member count
    let size = graph.size().0;
    let mut ix2id: Vec<u32> = Vec::new();
    let mut set_size: Vec<u32> = Vec::new();
    let mut i: u32 = 0;
    while i < size
        invariant
            i <= size,
            ix2id@ =~= ids_init(i as nat),
            set_size@ =~= Seq::new(i as nat, |q: int| 1u32),
        decreases size - i,
    {
        ix2id.push(i);
        set_size.push(1);
        proof {
            assert(ix2id@ =~= ids_init(i as nat + 1));
        }
        i = i + 1;
    }
    proof {
        assert forall|id: int| 0 <= id < set_size@.len() implies (#[trigger] set_size@[id]) as nat
            == cnt(ix2id@, id as u32) by {
            lemma_cnt_init(n, id as u32);
        }
        assert(sizes_ok(ix2id@, set_size@));
        assert(srt.skip(0) =~= srt);
        assert forall|q: int| 0 <= q < n implies ((#[trigger] ix2id@[q]) as nat) < n by {
            assert(ix2id@[q] == q as u32);
        }
    }
    let mut result: u64 = 0;
    let mut j: usize = 0;
    while j < sorted.len()
        invariant
            j <= sorted@.len(),
            size as nat == n,
            n <= u32::MAX,
            sorted@.map_values(
                |t: (NodeIx, NodeIx, u64)| (EdgeModel { lo: t.0.0 as nat, hi: t.1.0 as nat, w: t.2 }),
            ) == srt,
            forall|q: int| 0 <= q < sorted@.len() ==> (#[trigger] sorted@[q]).0.0
                <= sorted@[q].1.0 && (sorted@[q].1.0 as nat) < n,
            ix2id@.len() == n,
            forall|q: int| 0 <= q < n ==> ((#[trigger] ix2id@[q]) as nat) < n,
            sizes_ok(ix2id@, set_size@),
            result as int + kruskal_run(srt.skip(j as int), ix2id@).1 == total,
            total == kruskal_run(srt, ids_init(n)).1,
            0 <= total <= u64::MAX,
        decreases sorted@.len() - j,
    {
        let e = sorted[j];
        let ghost em = srt[j as int];
        proof {
            assert(em == (EdgeModel { lo: e.0.0 as nat, hi: e.1.0 as nat, w: e.2 }));
            assert(srt.skip(j as int)[0] == srt[j as int]);
            assert(srt.skip(j as int).drop_first() =~= srt.skip(j as int + 1));
        }
        let fa = ix2id[e.0.0 as usize];
        let fb = ix2id[e.1.0 as usize];
        proof {
            assert(fa == ix2id@[em.lo as int] && fb == ix2id@[em.hi as int]);
        }
        if fa != fb {
            let ghost ids_b = ix2id@;
            let ghost ss_b = set_size@;
            let (t, o) = if set_size[fa as usize] >= set_size[fb as usize] {
                (fa, fb)
            } else {
                (fb, fa)
            };
            proof {
                assert(ss_b[fa as int] as nat == cnt(ids_b, fa));
                assert(ss_b[fb as int] as nat == cnt(ids_b, fb));
            }
            union_sets(t, o, &mut ix2id, &mut set_size);
            proof {
                assert(kruskal_step(em, ids_b) == (ix2id@, true));
                assert forall|q: int| 0 <= q < n implies ((#[trigger] ix2id@[q]) as nat) < n by {
                    assert(ix2id@[q] == (if ids_b[q] == o {
                        t
                    } else {
                        ids_b[q]
                    }));
                }
                lemma_run_bounds(srt.skip(j as int + 1), ix2id@);
            }
            result = result + e.2;
        } else {
            proof {
                assert(kruskal_step(em, ix2id@) == (ix2id@, false));
            }
        }
        j = j + 1;
    }
    proof {
        assert(srt.skip(sorted@.len() as int) =~= Seq::<EdgeModel>::empty());
    }
    result
}

/// The strict order the fringe is popped in: weight first, ties by the
/// destination node index, then by the source.
pub open spec fn fringe_lt(a: (u64, NodeIx, NodeIx), b: (u64, NodeIx, NodeIx)) -> bool {
    a.0 < b.0 || (a.0 == b.0 && (a.2.0 < b.2.0 || (a.2.0 == b.2.0 && a.1.0 < b.1.0)))
}

/// The position of the first cheapest fringe entry.
pub open spec fn fringe_min_ix(f: Seq<(u64, NodeIx, NodeIx)>) -> int
    decreases f.len(),
{
    if f.len() <= 1 {
        0
    } else {
        let m = fringe_min_ix(f.drop_last());
        if fringe_lt(f.last(), f[m]) {
            f.len() - 1
        } else {
            m
        }
    }
}

/// The fringe entries one admission adds: an entry for each edge from the
/// admitted node to a node still outside the tree, in incident order.
pub open spec fn prim_pushes(inc: Seq<(nat, u64)>, in_mst: Seq<bool>, ix: nat) -> Seq<
    (u64, NodeIx, NodeIx),
>
    decreases inc.len(),
{
    if inc.len() == 0 {
        Seq::<(u64, NodeIx, NodeIx)>::empty()
    } else {
        let rest = prim_pushes(inc.drop_last(), in_mst, ix);
        let e = inc.last();
        if e.0 < in_mst.len() && !in_mst[e.0 as int] {
            rest.push((e.1, NodeIx(ix as u32), NodeIx(e.0 as u32)))
        } else {
            rest
        }
    }
}

/// Prim's run, step by step: pop the first cheapest fringe entry; admit its
/// target when still outside the tree, recording the edge and putting the
/// target's outward edges on the fringe; discard it otherwise.
pub open spec fn prim_run(
    es: Seq<EdgeModel>,
    in_mst: Seq<bool>,
    fringe: Seq<(u64, NodeIx, NodeIx)>,
    av: Seq<Seq<(nat, u64)>>,
    weight: int,
) -> (Seq<Seq<(nat, u64)>>, int)
    decreases count_false(in_mst), fringe.len(),
    via prim_run_dec
{
    if fringe.len() == 0 {
        (av, weight)
    } else {
        let b = fringe_min_ix(fringe);
        let e = fringe[b];
        let f2 = fringe.remove(b);
        if (e.2.0 as int) < in_mst.len() && !in_mst[e.2.0 as int] {
            let in2 = in_mst.update(e.2.0 as int, true);
            let f3 = f2 + prim_pushes(incident(es, e.2.0 as nat), in2, e.2.0 as nat);
            let av2 = av.update(
                e.1.0 as int,
                av[e.1.0 as int].push((e.2.0 as nat, e.0)),
            );
            prim_run(es, in2, f3, av2, weight + e.0)
        } else {
            prim_run(es, in_mst, f2, av, weight)
        }
    }
}

#[via_fn]
proof fn prim_run_dec(
    es: Seq<EdgeModel>,
    in_mst: Seq<bool>,
    fringe: Seq<(u64, NodeIx, NodeIx)>,
    av: Seq<Seq<(nat, u64)>>,
    weight: int,
) {
    if fringe.len() > 0 {
        let b = fringe_min_ix(fringe);
        lemma_fringe_min_ix_in_range(fringe);
        let e = fringe[b];
        if (e.2.0 as int) < in_mst.len() && !in_mst[e.2.0 as int] {
            crate::algo::lemma_count_false_update(in_mst, e.2.0 as int);
        }
    }
}

/// What Prim computes on a graph with `n` nodes: the run from the start
/// node's initial state — only the start admitted, its outward edges on the
/// fringe, no tree edges yet.
pub open spec fn prim_result(es: Seq<EdgeModel>, n: nat, start: nat) -> (Seq<Seq<(nat, u64)>>, int) {
    let im0 = Seq::new(n, |k: int| false).update(start as int, true);
    let f0 = prim_pushes(incident(es, start), im0, start);
    let av0 = Seq::new(n, |k: int| Seq::<(nat, u64)>::empty());
    prim_run(es, im0, f0, av0, 0)
}

/// The first-cheapest position lies inside the fringe.
proof fn lemma_fringe_min_ix_in_range(f: Seq<(u64, NodeIx, NodeIx)>)
    requires
        f.len() > 0,
    ensures
        0 <= fringe_min_ix(f) < f.len(),
    decreases f.len(),
{
    if f.len() > 1 {
        lemma_fringe_min_ix_in_range(f.drop_last());
    }
}

/// Admit `ix` to the tree: mark it, and put every edge from it to a node
/// still outside the tree on the fringe.
fn add_node_to_mst<G: Graph>(
    ix: NodeIx,
    graph: &G,
    in_mst: &mut Vec<bool>,
    fringe: &mut Vec<(u64, NodeIx, NodeIx)>,
)
    requires
        graph.wf_spec(),
        (ix.0 as nat) < graph.nodes_spec(),
        old(in_mst)@.len() == graph.nodes_spec(),
    ensures
        final(in_mst)@ == old(in_mst)@.update(ix.0 as int, true),
        final(fringe)@.len() >= old(fringe)@.len(),
        forall|k: int| 0 <= k < old(fringe)@.len() ==> final(fringe)@[k] == old(fringe)@[k],
        forall|k: int|
            old(fringe)@.len() <= k < final(fringe)@.len() ==> ((#[trigger] final(fringe)@[k]).1
                == ix && (final(fringe)@[k].2.0 as nat) < graph.nodes_spec()
                && !final(in_mst)@[final(fringe)@[k].2.0 as int] && has_edge_with(
                graph.edges_spec(),
                ix.0 as nat,
                final(fringe)@[k].2.0 as nat,
                final(fringe)@[k].0,
            )),
        forall|y: nat|
            y < graph.nodes_spec() && #[trigger] has_edge(graph.edges_spec(), ix.0 as nat, y)
                ==> final(in_mst)@[y as int] || fringe_has(final(fringe)@, y),
        final(fringe)@ == old(fringe)@ + prim_pushes(
            incident(graph.edges_spec(), ix.0 as nat),
            final(in_mst)@,
            ix.0 as nat,
        ),
{
    let ghost es = graph.edges_spec();
    let ghost n = graph.nodes_spec();
    proof {
        graph.edges_in_range();
        lemma_incident_sound(es, ix.0 as nat);
        lemma_incident_in_range(es, n, ix.0 as nat);
    }
    in_mst[ix.0 as usize] = true;
    let adj = graph.get_edges(ix);
    proof {
        assert(adj@.map_values(|p: (NodeIx, u64)| (p.0.0 as nat, p.1)) == incident(
            es,
            ix.0 as nat,
        ));
        assert forall|t: int|
            0 <= t < adj@.len() implies ((#[trigger] adj@[t]).0.0 as nat) < n && has_edge_with(
            es,
            ix.0 as nat,
            adj@[t].0.0 as nat,
            adj@[t].1,
        ) by {
            assert(adj@.map_values(|p: (NodeIx, u64)| (p.0.0 as nat, p.1))[t] == (
                adj@[t].0.0 as nat,
                adj@[t].1,
            ));
            assert(incident(es, ix.0 as nat)[t] == (adj@[t].0.0 as nat, adj@[t].1));
        }
    }
    let ghost f0 = fringe@;
    let mut q: usize = 0;
    while q < adj.len()
        invariant
            es == graph.edges_spec(),
            n == graph.nodes_spec(),
            q <= adj@.len(),
            (ix.0 as nat) < n,
            in_mst@.len() == n,
            in_mst@ == old(in_mst)@.update(ix.0 as int, true),
            adj@.map_values(|p: (NodeIx, u64)| (p.0.0 as nat, p.1)) == incident(es, ix.0 as nat),
            forall|t: int|
                0 <= t < adj@.len() ==> ((#[trigger] adj@[t]).0.0 as nat) < n && has_edge_with(
                    es,
                    ix.0 as nat,
                    adj@[t].0.0 as nat,
                    adj@[t].1,
                ),
            fringe@.len() >= f0.len(),
            forall|k: int| 0 <= k < f0.len() ==> fringe@[k] == f0[k],
            forall|k: int|
                f0.len() <= k < fringe@.len() ==> ((#[trigger] fringe@[k]).1 == ix && (
                fringe@[k].2.0 as nat) < n && !in_mst@[fringe@[k].2.0 as int] && has_edge_with(
                    es,
                    ix.0 as nat,
                    fringe@[k].2.0 as nat,
                    fringe@[k].0,
                )),
            forall|t: int|
                0 <= t < q ==> in_mst@[(#[trigger] adj@[t]).0.0 as int] || fringe_has(
                    fringe@,
                    adj@[t].0.0 as nat,
                ),
            fringe@ =~= f0 + prim_pushes(
                incident(es, ix.0 as nat).take(q as int),
                in_mst@,
                ix.0 as nat,
            ),
        decreases adj@.len() - q,
    {
        let (to_ix, w) = adj[q];
        let ghost fb = fringe@;
        proof {
            let inc = incident(es, ix.0 as nat);
            assert(inc.take(q as int + 1).drop_last() =~= inc.take(q as int));
            assert(inc.take(q as int + 1).last() == inc[q as int]);
            assert(adj@.map_values(|p: (NodeIx, u64)| (p.0.0 as nat, p.1))[q as int] == (
                adj@[q as int].0.0 as nat,
                adj@[q as int].1,
            ));
            assert(inc[q as int] == (to_ix.0 as nat, w));
            assert(NodeIx((ix.0 as nat) as u32) == ix);
            assert(NodeIx((to_ix.0 as nat) as u32) == to_ix);
        }
        if !in_mst[to_ix.0 as usize] {
            fringe.push((w, ix, to_ix));
            proof {
                assert(fringe@ =~= f0 + prim_pushes(
                    incident(es, ix.0 as nat).take(q as int + 1),
                    in_mst@,
                    ix.0 as nat,
                ));
                assert(fringe@[fringe@.len() - 1].2.0 as nat == to_ix.0 as nat);
                assert forall|t: int|
                    0 <= t < q implies in_mst@[(#[trigger] adj@[t]).0.0 as int] || fringe_has(
                    fringe@,
                    adj@[t].0.0 as nat,
                ) by {
                    if !in_mst@[adj@[t].0.0 as int] {
                        let k = choose|k: int|
                            0 <= k < fb.len() && ((#[trigger] fb[k]).2.0 as nat)
                                == adj@[t].0.0 as nat;
                        assert(fringe@[k].2.0 as nat == adj@[t].0.0 as nat);
                    }
                }
            }
        }
        q = q + 1;
    }
    proof {
        assert(incident(es, ix.0 as nat).take(incident(es, ix.0 as nat).len() as int) =~= incident(
            es,
            ix.0 as nat,
        ));
        assert(fringe@ == f0 + prim_pushes(incident(es, ix.0 as nat), in_mst@, ix.0 as nat));
        assert forall|y: nat|
            y < n && #[trigger] has_edge(es, ix.0 as nat, y) implies in_mst@[y as int]
            || fringe_has(fringe@, y) by {
            lemma_incident_has_edge(es, ix.0 as nat, y);
            let t = choose|t: int|
                0 <= t < incident(es, ix.0 as nat).len() && (#[trigger] incident(
                    es,
                    ix.0 as nat,
                )[t]).0 == y;
            assert(adj@.map_values(|p: (NodeIx, u64)| (p.0.0 as nat, p.1))[t] == (
                adj@[t].0.0 as nat,
                adj@[t].1,
            ));
            assert(adj@[t].0.0 as nat == y);
        }
    }
}

/// Prim's minimum-spanning-tree algorithm from `start_ix`: grow the tree one
/// cheapest fringe edge at a time (ties broken by destination node index),
/// discarding stale fringe entries whose target was admitted meanwhile. The
/// result records the tree's edges keyed by parent, rooted at `start_ix`,
/// with their total weight; the tree spans exactly the nodes reachable from
/// the start.
pub fn prim<G: Graph>(graph: &G, start_ix: NodeIx) -> (mst: Mst)
    requires
        graph.wf_spec(),
        (start_ix.0 as nat) < graph.nodes_spec(),
        weights_fit(graph.edges_spec(), graph.nodes_spec()),
    ensures
        mst.wf(graph.nodes_spec()),
        mst.start_spec() == start_ix.0 as nat,
        forall|p: int, q: int|
            0 <= p < graph.nodes_spec() && 0 <= q < mst.adj()[p].len() ==> has_edge_with(
                graph.edges_spec(),
                p as nat,
                (#[trigger] mst.adj()[p][q]).0,
                mst.adj()[p][q].1,
            ),
        mst.weight_spec() as int == tree_weight(mst.adj()),
        forall|j: nat|
            j < graph.nodes_spec() ==> ((j == start_ix.0 as nat || is_target(mst.adj(), j))
                <==> #[trigger] reaches(graph.edges_spec(), graph.nodes_spec(), start_ix.0 as nat, j)),
        // the tree hangs together: every recorded child is reached from the
        // root by descending recorded edges
        forall|j: nat| #[trigger] is_target(mst.adj(), j) ==> tree_reaches(mst.adj(), start_ix.0 as nat, j),
        complete(graph.edges_spec(), graph.nodes_spec()) && graph.nodes_spec() >= 2
            ==> mst.adj()[start_ix.0 as int].len() >= 1,
        // the exact greedy tree: the result equals the deterministic run
        // from the start node's initial state
        mst.adj() == prim_result(graph.edges_spec(), graph.nodes_spec(), start_ix.0 as nat).0,
        mst.weight_spec() as int == prim_result(
            graph.edges_spec(),
            graph.nodes_spec(),
            start_ix.0 as nat,
        ).1,
{
    let ghost es = graph.edges_spec();
    let ghost n = graph.nodes_spec();
    let ghost start = start_ix.0 as nat;
    proof {
        lemma_reaches_refl(es, n, start);
        lemma_max_weight_each(es);
    }
    let size = graph.size();
    let mut in_mst: Vec<bool> = Vec::new();
    let mut adj_list: Vec<Vec<(NodeIx, u64)>> = Vec::new();
    let mut i: u32 = 0;
    while i < size.0
        invariant
            i <= size.0,
            in_mst@ =~= Seq::new(i as nat, |k: int| false),
            adj_list@.len() == i as nat,
            forall|p: int| 0 <= p < i ==> (#[trigger] adj_list@[p])@.len() == 0,
        decreases size.0 - i,
    {
        in_mst.push(false);
        adj_list.push(Vec::new());
        i = i + 1;
    }
    let mut fringe: Vec<(u64, NodeIx, NodeIx)> = Vec::new();
    add_node_to_mst(start_ix, graph, &mut in_mst, &mut fringe);
    let mut weight: u64 = 0;
    let ghost mut mc: nat = 1;
    let ghost total_run = prim_result(es, n, start);
    proof {
        let im_init = Seq::new(n, |k: int| false).update(start as int, true);
        assert(in_mst@ =~= im_init);
        assert(Seq::<(u64, NodeIx, NodeIx)>::empty() + prim_pushes(
            incident(es, start),
            in_mst@,
            start,
        ) =~= prim_pushes(incident(es, start), im_init, start));
        assert(fringe@ == prim_pushes(incident(es, start), im_init, start));
        assert(tree_adj(adj_list@) =~~= Seq::new(n, |k: int| Seq::<(nat, u64)>::empty())) by {
            assert forall|p: int| 0 <= p < n implies tree_adj(adj_list@)[p] =~= Seq::new(
                n,
                |k: int| Seq::<(nat, u64)>::empty(),
            )[p] by {
                assert(tree_adj(adj_list@)[p] == adj_list@[p]@.map_values(
                    |e: (NodeIx, u64)| (e.0.0 as nat, e.1),
                ));
            }
        }
        assert(prim_run(es, in_mst@, fringe@, tree_adj(adj_list@), 0) == total_run);
    }
    proof {
        assert forall|p: int| 0 <= p < tree_adj(adj_list@).len() implies (#[trigger] tree_adj(
            adj_list@,
        )[p]).len() == 0 by {
            assert(tree_adj(adj_list@)[p] == adj_list@[p]@.map_values(
                |p: (NodeIx, u64)| (p.0.0 as nat, p.1),
            ));
        }
        lemma_tree_weight_all_empty(tree_adj(adj_list@));
        crate::algo::lemma_count_false_new(n);
        crate::algo::lemma_count_false_update(Seq::new(n, |k: int| false), start as int);
        lemma_tree_reaches_refl(tree_adj(adj_list@), start);
    }
    while fringe.len() != 0
        invariant
            graph.wf_spec(),
            es == graph.edges_spec(),
            n == graph.nodes_spec(),
            start == start_ix.0 as nat,
            start < n,
            n <= u32::MAX,
            weights_fit(es, n),
            max_weight(es) >= 0,
            forall|k: int| 0 <= k < es.len() ==> ((#[trigger] es[k]).w as int) <= max_weight(es),
            in_mst@.len() == n,
            adj_list@.len() == n,
            in_mst@[start as int],
            mc + count_false(in_mst@) == n,
            1 <= mc <= n,
            weight as int == tree_weight(tree_adj(adj_list@)),
            weight as int <= (mc - 1) * max_weight(es),
            forall|j: nat| j < n && in_mst@[j as int] ==> reaches(es, n, start, j),
            forall|j: nat|
                j < n && in_mst@[j as int] ==> tree_reaches(tree_adj(adj_list@), start, j),
            forall|j: nat|
                j < n ==> (in_mst@[j as int] <==> (j == start || is_target(tree_adj(adj_list@), j))),
            forall|p: int, q: int|
                0 <= p < n && 0 <= q < tree_adj(adj_list@)[p].len() ==> (#[trigger] tree_adj(
                    adj_list@,
                )[p][q]).0 < n && tree_adj(adj_list@)[p][q].0 != start && has_edge_with(
                    es,
                    p as nat,
                    tree_adj(adj_list@)[p][q].0,
                    tree_adj(adj_list@)[p][q].1,
                ),
            targets_distinct(tree_adj(adj_list@)),
            forall|k: int|
                0 <= k < fringe@.len() ==> (((#[trigger] fringe@[k]).1.0 as nat) < n && (
                fringe@[k].2.0 as nat) < n && in_mst@[fringe@[k].1.0 as int] && has_edge_with(
                    es,
                    fringe@[k].1.0 as nat,
                    fringe@[k].2.0 as nat,
                    fringe@[k].0,
                )),
            forall|x: nat, y: nat|
                x < n && y < n && in_mst@[x as int] && #[trigger] has_edge(es, x, y)
                    ==> in_mst@[y as int] || fringe_has(fringe@, y),
            tree_adj(adj_list@)[start as int].len() == 0 ==> (forall|j: nat|
                j < n && j != start ==> !in_mst@[j as int]),
            total_run == prim_result(es, n, start),
            prim_run(es, in_mst@, fringe@, tree_adj(adj_list@), weight as int) == total_run,
        decreases count_false(in_mst@), fringe@.len(),
    {
        let mut best: usize = 0;
        let mut t: usize = 1;
        proof {
            assert(fringe@.take(1).len() == 1);
            assert(fringe_min_ix(fringe@.take(1)) == 0);
        }
        while t < fringe.len()
            invariant
                fringe@.len() >= 1,
                best < fringe@.len(),
                1 <= t <= fringe@.len(),
                best < t,
                best as int == fringe_min_ix(fringe@.take(t as int)),
            decreases fringe@.len() - t,
        {
            let a = fringe[t];
            let b = fringe[best];
            proof {
                assert(fringe@.take(t as int + 1).drop_last() =~= fringe@.take(t as int));
                assert(fringe@.take(t as int + 1).last() == fringe@[t as int]);
                assert(fringe@.take(t as int)[best as int] == fringe@[best as int]);
            }
            if a.0 < b.0 || (a.0 == b.0 && (a.2.0 < b.2.0 || (a.2.0 == b.2.0 && a.1.0 < b.1.0))) {
                proof {
                    assert(fringe_lt(fringe@[t as int], fringe@[best as int]));
                    assert(fringe_min_ix(fringe@.take(t as int + 1)) == t as int);
                }
                best = t;
            } else {
                proof {
                    assert(!fringe_lt(fringe@[t as int], fringe@[best as int]));
                    assert(fringe_min_ix(fringe@.take(t as int + 1)) == best as int);
                }
            }
            t = t + 1;
        }
        proof {
            assert(fringe@.take(fringe@.len() as int) =~= fringe@);
            assert(best as int == fringe_min_ix(fringe@));
        }
        let ghost fb = fringe@;
        let ghost w_b = weight;
        let ghost im_b = in_mst@;
        let (w, from_ix, to_ix) = fringe.remove(best);
        proof {
            assert((w, from_ix, to_ix) == fb[best as int]);
            assert forall|k: int| 0 <= k < fringe@.len() implies (((#[trigger] fringe@[k]).1.0
                as nat) < n && (fringe@[k].2.0 as nat) < n && in_mst@[fringe@[k].1.0 as int]
                && has_edge_with(es, fringe@[k].1.0 as nat, fringe@[k].2.0 as nat, fringe@[k].0))
                by {
                if k < best as int {
                    assert(fringe@[k] == fb[k]);
                } else {
                    assert(fringe@[k] == fb[k + 1]);
                }
            }
        }
        if !in_mst[to_ix.0 as usize] {
            let ghost im0 = in_mst@;
            let ghost f1 = fringe@;
            let ghost av0 = tree_adj(adj_list@);
            proof {
                crate::algo::lemma_count_false_update(im0, to_ix.0 as int);
            }
            add_node_to_mst(to_ix, graph, &mut in_mst, &mut fringe);
            let ghost row0 = tree_adj(adj_list@)[from_ix.0 as int];
            let mut row: Vec<(NodeIx, u64)> = Vec::new();
            adj_list.set_and_swap(from_ix.0 as usize, &mut row);
            row.push((to_ix, w));
            adj_list.set_and_swap(from_ix.0 as usize, &mut row);
            proof {
                let av1 = tree_adj(adj_list@);
                assert(av1 =~= av0.update(from_ix.0 as int, row0.push((to_ix.0 as nat, w)))) by {
                    assert forall|p: int| 0 <= p < av1.len() implies av1[p] == av0.update(
                        from_ix.0 as int,
                        row0.push((to_ix.0 as nat, w)),
                    )[p] by {
                        if p == from_ix.0 as int {
                            assert(av1[p] =~= row0.push((to_ix.0 as nat, w)));
                        }
                    }
                }
                lemma_tree_weight_update(av0, from_ix.0 as int, row0.push((to_ix.0 as nat, w)));
                assert(row_weight(row0.push((to_ix.0 as nat, w))) == row_weight(row0) + w) by {
                    assert(row0.push((to_ix.0 as nat, w)).drop_last() =~= row0);
                }
                assert(weight as int + w <= mc * max_weight(es)) by (nonlinear_arith)
                    requires
                        weight as int <= (mc - 1) * max_weight(es),
                        w as int <= max_weight(es),
                        mc >= 1,
                ;
                assert(mc * max_weight(es) <= (n + 1) * max_weight(es)) by (nonlinear_arith)
                    requires
                        mc <= n,
                        max_weight(es) >= 0,
                ;
                mc = mc + 1;
            }
            weight = weight + w;
            proof {
                let av1 = tree_adj(adj_list@);
                let to = to_ix.0 as nat;
                let from = from_ix.0 as nat;
                lemma_reaches_step(es, n, start, from, to);
                // the new edge keeps every descent and adds one to the child
                assert forall|p2: nat, c2: nat| #[trigger] tree_edge(av0, p2, c2) implies
                    tree_edge(av1, p2, c2) by {
                    let q = choose|q: int|
                        0 <= q < av0[p2 as int].len() && (#[trigger] av0[p2 as int][q]).0 == c2;
                    assert(av1[p2 as int][q].0 == c2);
                }
                assert(tree_edge(av1, from, to)) by {
                    assert(av1[from as int][av1[from as int].len() - 1].0 == to);
                }
                assert forall|j: nat| j < n && in_mst@[j as int] implies tree_reaches(
                    av1,
                    start,
                    j,
                ) by {
                    if j == to {
                        assert(im0[from as int]);
                        assert(tree_reaches(av0, start, from));
                        lemma_tree_reaches_mono(av0, av1, start, from);
                        lemma_tree_reaches_step(av1, start, from, to);
                    } else {
                        assert(im0[j as int]);
                        assert(tree_reaches(av0, start, j));
                        lemma_tree_reaches_mono(av0, av1, start, j);
                    }
                }
                // the new child is fresh, so in-/out-facts transfer
                assert(!im0[to as int]);
                assert(!is_target(av0, to));
                assert forall|j: nat|
                    j < n implies (in_mst@[j as int] <==> (j == start || is_target(av1, j))) by {
                    if j == to {
                        assert(av1[from as int][av1[from as int].len() - 1].0 == to);
                        assert(is_target(av1, to));
                    } else {
                        if is_target(av1, j) {
                            let (p, q) = choose|p: int, q: int|
                                0 <= p < av1.len() && 0 <= q < av1[p].len() && (
                                #[trigger] av1[p][q]).0 == j;
                            if p == from as int && q == av1[p].len() - 1 {
                                assert(j == to);
                            } else {
                                assert(av0[p][q].0 == j);
                                assert(is_target(av0, j));
                            }
                        }
                        if is_target(av0, j) {
                            let (p, q) = choose|p: int, q: int|
                                0 <= p < av0.len() && 0 <= q < av0[p].len() && (
                                #[trigger] av0[p][q]).0 == j;
                            assert(av1[p][q].0 == j);
                            assert(is_target(av1, j));
                        }
                    }
                }
                assert forall|p1: int, q1: int, p2: int, q2: int|
                    0 <= p1 < av1.len() && 0 <= q1 < av1[p1].len() && 0 <= p2 < av1.len() && 0
                        <= q2 < av1[p2].len() && (p1 != p2 || q1 != q2) implies (
                #[trigger] av1[p1][q1]).0 != (#[trigger] av1[p2][q2]).0 by {
                    let lastq = av1[from as int].len() - 1;
                    if (p1 == from as int && q1 == lastq) && !(p2 == from as int && q2 == lastq) {
                        assert(av1[p2][q2].0 == av0[p2][q2].0);
                        assert(is_target(av0, av0[p2][q2].0));
                    } else if !(p1 == from as int && q1 == lastq) && (p2 == from as int && q2
                        == lastq) {
                        assert(av1[p1][q1].0 == av0[p1][q1].0);
                        assert(is_target(av0, av0[p1][q1].0));
                    } else if !(p1 == from as int && q1 == lastq) && !(p2 == from as int && q2
                        == lastq) {
                        assert(av1[p1][q1].0 == av0[p1][q1].0);
                        assert(av1[p2][q2].0 == av0[p2][q2].0);
                    }
                }
                // closure: the admitted node's neighbors are covered by the
                // new fringe entries; everything else keeps its witness
                assert forall|x: nat, y: nat|
                    x < n && y < n && in_mst@[x as int] && #[trigger] has_edge(es, x, y) implies
                    in_mst@[y as int] || fringe_has(fringe@, y) by {
                    if x == to {
                    } else {
                        assert(im0[x as int]);
                        if !im0[y as int] && y != to {
                            assert(fringe_has(fb, y));
                            let k = choose|k: int|
                                0 <= k < fb.len() && ((#[trigger] fb[k]).2.0 as nat) == y;
                            if k == best as int {
                                assert(y == to);
                            } else if k < best as int {
                                assert(f1[k] == fb[k]);
                                assert(fringe@[k] == f1[k]);
                            } else {
                                assert(f1[k - 1] == fb[k]);
                                assert(fringe@[k - 1] == f1[k - 1]);
                            }
                        }
                    }
                }
                assert(av1[start as int].len() == 0 ==> (forall|j: nat|
                    j < n && j != start ==> !in_mst@[j as int])) by {
                    if av1[start as int].len() == 0 {
                        assert(av0[start as int].len() == 0 || from == start);
                        if from == start {
                            assert(av1[start as int].len() >= 1);
                        } else {
                            assert(!im0[from as int] || im0[from as int]);
                            assert(im0[from as int]);
                            assert(from != start);
                            assert(false);
                        }
                    }
                }
                // one spec step matches what this iteration did
                assert(fringe_min_ix(fb) == best as int);
                assert(fb[best as int] == (w, from_ix, to_ix));
                assert(in_mst@ == im_b.update(to_ix.0 as int, true));
                assert(fringe@ == fb.remove(best as int) + prim_pushes(
                    incident(es, to),
                    in_mst@,
                    to,
                ));
                assert(av1 == av0.update(from_ix.0 as int, av0[from_ix.0 as int].push((to, w))));
                assert(weight as int == w_b as int + w);
                assert(prim_run(es, im_b, fb, av0, w_b as int) == prim_run(
                    es,
                    in_mst@,
                    fringe@,
                    av1,
                    w_b as int + w,
                ));
            }
        } else {
            proof {
                assert forall|x: nat, y: nat|
                    x < n && y < n && in_mst@[x as int] && #[trigger] has_edge(es, x, y) implies
                    in_mst@[y as int] || fringe_has(fringe@, y) by {
                    if !in_mst@[y as int] {
                        assert(fringe_has(fb, y));
                        let k = choose|k: int|
                            0 <= k < fb.len() && ((#[trigger] fb[k]).2.0 as nat) == y;
                        if k == best as int {
                            assert(y == to_ix.0 as nat);
                            assert(in_mst@[y as int]);
                        } else if k < best as int {
                            assert(fringe@[k] == fb[k]);
                        } else {
                            assert(fringe@[k - 1] == fb[k]);
                        }
                    }
                }
                // the spec discards this stale entry just as the loop does
                assert(fringe_min_ix(fb) == best as int);
                assert(fb[best as int] == (w, from_ix, to_ix));
                assert(in_mst@[to_ix.0 as int]);
                assert(prim_run(es, in_mst@, fb, tree_adj(adj_list@), weight as int) == prim_run(
                    es,
                    in_mst@,
                    fringe@,
                    tree_adj(adj_list@),
                    weight as int,
                ));
            }
        }
    }
    let ghost avf = tree_adj(adj_list@);
    proof {
        assert(prim_run(es, in_mst@, fringe@, avf, weight as int) == (avf, weight as int));
        assert(avf == total_run.0 && weight as int == total_run.1);
        assert forall|j: nat| #[trigger] is_target(avf, j) implies tree_reaches(avf, start, j) by {
            let (p, q) = choose|p: int, q: int|
                0 <= p < avf.len() && 0 <= q < avf[p].len() && (#[trigger] avf[p][q]).0 == j;
            assert(avf[p][q].0 < n);
            assert(in_mst@[j as int]);
        }
        assert forall|x: nat, y: nat|
            x < n && y < n && in_mst@[x as int] && #[trigger] has_edge(es, x, y) implies
            in_mst@[y as int] by {
            assert(!fringe_has(fringe@, y));
        }
        assert forall|j: nat|
            j < n implies ((j == start || is_target(avf, j)) <==> reaches(es, n, start, j)) by {
            if j == start || is_target(avf, j) {
                assert(in_mst@[j as int]);
            }
            if reaches(es, n, start, j) {
                lemma_reach_in_closed(es, n, in_mst@, start, j);
                assert(in_mst@[j as int]);
            }
        }
        if complete(es, n) && n >= 2 {
            let other: nat = if start == 0 {
                1
            } else {
                0
            };
            assert(has_edge(es, start, other));
            assert(in_mst@[other as int]);
            assert(avf[start as int].len() >= 1);
        }
    }
    let mst = Mst { start_ix, adj_list, weight };
    proof {
        assert(mst.adj() == avf);
    }
    mst
}

/// The order test Kruskal sorts with, on stored edge triples.
fn edge_le(a: (NodeIx, NodeIx, u64), b: (NodeIx, NodeIx, u64)) -> (r: bool)
    ensures
        r == edge_order(
            EdgeModel { lo: a.0.0 as nat, hi: a.1.0 as nat, w: a.2 },
            EdgeModel { lo: b.0.0 as nat, hi: b.1.0 as nat, w: b.2 },
        ),
{
    a.2 < b.2 || (a.2 == b.2 && (a.0.0 < b.0.0 || (a.0.0 == b.0.0 && a.1.0 <= b.1.0)))
}

} // verus!
