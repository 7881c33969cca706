//! The adjacency-list graph representation: a canonical edge store plus, for
//! each node, the list of incident edge identifiers.
use vstd::prelude::*;

verus! {

use crate::{EdgeModel, Graph, NodeIx, incident, min_nat, max_nat};
use vstd::pervasive::VecAdditionalExecFns;

/// Identifier of an edge inside the owning graph's canonical edge store.
#[derive(Debug, Clone, Copy)]
pub struct EdgeIx(pub u32);

/// An undirected weighted graph over nodes `0 .. size`: every edge is held
/// once in a canonical store (`lo <= hi`, insertion order), and each node's
/// adjacency list holds the neighbor together with the edge's identifier, so
/// incident edges are listed from either endpoint.
pub struct ALGraph {
    adj_lists: Vec<Vec<(NodeIx, EdgeIx)>>,
    nodes: Vec<u64>,
    edges: Vec<(NodeIx, NodeIx, u64)>,
}

/// The incident edges of node `a` together with the position of each edge in
/// the store: `(other endpoint, edge position)`, in insertion order.
pub open spec fn incident_ix(es: Seq<EdgeModel>, a: nat) -> Seq<(nat, int)>
    decreases es.len(),
{
    if es.len() == 0 {
        Seq::<(nat, int)>::empty()
    } else {
        let rest = incident_ix(es.drop_last(), a);
        let e = es.last();
        if e.lo == a {
            rest.push((e.hi, es.len() - 1))
        } else if e.hi == a {
            rest.push((e.lo, es.len() - 1))
        } else {
            rest
        }
    }
}

impl ALGraph {
    /// A graph built by `new` with `size` nodes: default payloads, no edges.
    pub fn new(size: u32) -> (r: ALGraph)
        ensures
            r.wf_spec(),
            r.nodes_spec() == size as nat,
            r.edges_spec() == Seq::<EdgeModel>::empty(),
            r.payloads_spec() == Seq::new(size as nat, |i: int| 0u64),
    {
        let mut adj_lists: Vec<Vec<(NodeIx, EdgeIx)>> = Vec::new();
        let mut nodes: Vec<u64> = Vec::new();
        let mut i: u32 = 0;
        while i < size
            invariant
                i <= size,
                nodes@ =~= Seq::new(i as nat, |k: int| 0u64),
                adj_lists@.len() == i as nat,
                forall|k: int| 0 <= k < i ==> adj_lists@[k]@.len() == 0,
            decreases size - i,
        {
            adj_lists.push(Vec::new());
            nodes.push(0u64);
            i = i + 1;
        }
        let r = ALGraph { adj_lists, nodes, edges: Vec::new() };
        proof {
            assert(r.edges_spec() =~= Seq::<EdgeModel>::empty());
            assert forall|k: int| 0 <= k < r.adj_lists@.len() implies #[trigger] r.adj_view(
                k,
            ) =~= incident_ix(r.edges_spec(), k as nat) by {
                reveal_with_fuel(incident_ix, 1);
            }
        }
        r
    }

    /// The adjacency list of node `i`, as `(neighbor, edge position)` pairs.
    pub closed spec fn adj_view(&self, i: int) -> Seq<(nat, int)> {
        self.adj_lists@[i]@.map_values(|p: (NodeIx, EdgeIx)| (p.0.0 as nat, p.1.0 as int))
    }

    /// The representation invariant: one adjacency list per node, canonical
    /// in-range edges, and each node's adjacency list listing exactly its
    /// incident edges in insertion order.
    pub closed spec fn wf(&self) -> bool {
        &&& self.adj_lists@.len() == self.nodes@.len()
        &&& self.nodes@.len() <= u32::MAX
        &&& self.edges@.len() <= u32::MAX
        &&& forall|k: int|
            0 <= k < self.edges@.len() ==> (#[trigger] self.edges@[k]).0.0
                <= self.edges@[k].1.0 && self.edges@[k].1.0 < self.nodes@.len()
        &&& forall|i: int|
            0 <= i < self.adj_lists@.len() ==> #[trigger] self.adj_view(i) == incident_ix(
                self.edges_spec(),
                i as nat,
            )
    }

    /// Build a graph from a node count and an edge list. The model then
    /// holds exactly the list's edges, canonicalized, in list order — so
    /// enumerating the edges afterwards yields each inserted edge exactly
    /// once, however the list was ordered.
    pub fn from_edge_list(size: u32, edges: &Vec<(NodeIx, NodeIx, u64)>) -> (r: ALGraph)
        requires
            forall|k: int|
                0 <= k < edges@.len() ==> ((#[trigger] edges@[k]).0.0 < size && edges@[k].1.0
                    < size),
            edges@.len() < u32::MAX,
        ensures
            r.wf_spec(),
            r.nodes_spec() == size as nat,
            r.payloads_spec() == Seq::new(size as nat, |i: int| 0u64),
            r.edges_spec().len() == edges@.len(),
            forall|k: int|
                0 <= k < edges@.len() ==> #[trigger] r.edges_spec()[k] == (EdgeModel {
                    lo: min_nat(edges@[k].0.0 as nat, edges@[k].1.0 as nat),
                    hi: max_nat(edges@[k].0.0 as nat, edges@[k].1.0 as nat),
                    w: edges@[k].2,
                }),
    {
        let mut g = ALGraph::new(size);
        let mut k: usize = 0;
        while k < edges.len()
            invariant
                g.wf_spec(),
                g.nodes_spec() == size as nat,
                g.payloads_spec() == Seq::new(size as nat, |i: int| 0u64),
                forall|q: int|
                    0 <= q < edges@.len() ==> ((#[trigger] edges@[q]).0.0 < size && edges@[q].1.0
                        < size),
                edges@.len() < u32::MAX,
                k <= edges@.len(),
                g.edges_spec().len() == k as nat,
                forall|q: int|
                    0 <= q < k ==> #[trigger] g.edges_spec()[q] == (EdgeModel {
                        lo: min_nat(edges@[q].0.0 as nat, edges@[q].1.0 as nat),
                        hi: max_nat(edges@[q].0.0 as nat, edges@[q].1.0 as nat),
                        w: edges@[q].2,
                    }),
            decreases edges@.len() - k,
        {
            let (from, to, w) = edges[k];
            g.add_edge(from, to, w);
            k = k + 1;
        }
        g
    }

    /// Positional access to a node's payload; `None` out of range.
    pub fn get_node(&self, node_ix: NodeIx) -> (r: Option<u64>)
        ensures
            r == if node_ix.0 < self.nodes_spec() {
                Some(self.payloads_spec()[node_ix.0 as int])
            } else {
                None::<u64>
            },
    {
        if (node_ix.0 as usize) < self.nodes.len() {
            Some(self.nodes[node_ix.0 as usize])
        } else {
            None
        }
    }

    /// Replace a node's payload; `false` (and no change) out of range.
    pub fn set_node(&mut self, node_ix: NodeIx, payload: u64) -> (r: bool)
        ensures
            old(self).wf_spec() ==> final(self).wf_spec(),
            final(self).nodes_spec() == old(self).nodes_spec(),
            final(self).edges_spec() == old(self).edges_spec(),
            r == (node_ix.0 < old(self).nodes_spec()),
            r ==> final(self).payloads_spec() == old(self).payloads_spec().update(
                node_ix.0 as int,
                payload,
            ),
            !r ==> final(self).payloads_spec() == old(self).payloads_spec(),
    {
        if (node_ix.0 as usize) < self.nodes.len() {
            self.nodes[node_ix.0 as usize] = payload;
            proof {
                assert(self.nodes@.len() == old(self).nodes@.len());
                assert(self.edges_spec() =~= old(self).edges_spec());
                assert forall|i: int| 0 <= i < self.adj_lists@.len() implies #[trigger] self.adj_view(
                    i,
                ) == old(self).adj_view(i) by {}
                if old(self).wf() {
                    assert(self.wf());
                }
            }
            true
        } else {
            false
        }
    }
}

impl Graph for ALGraph {
    closed spec fn nodes_spec(&self) -> nat {
        self.nodes@.len()
    }

    closed spec fn edges_spec(&self) -> Seq<EdgeModel> {
        self.edges@.map_values(
            |t: (NodeIx, NodeIx, u64)| (EdgeModel { lo: t.0.0 as nat, hi: t.1.0 as nat, w: t.2 }),
        )
    }

    closed spec fn wf_spec(&self) -> bool {
        self.wf()
    }

    closed spec fn payloads_spec(&self) -> Seq<u64> {
        self.nodes@
    }

    fn add_edge(&mut self, from: NodeIx, to: NodeIx, weight: u64) {
        let (lo, hi) = if from.0 <= to.0 {
            (from, to)
        } else {
            (to, from)
        };
        let eix = EdgeIx(self.edges.len() as u32);
        self.edges.push((lo, hi, weight));
        let ghost old_es = old(self).edges_spec();
        let ghost new_e = EdgeModel { lo: lo.0 as nat, hi: hi.0 as nat, w: weight };
        proof {
            assert(self.edges_spec() =~= old_es.push(new_e));
            assert(self.edges_spec().drop_last() =~= old_es);
        }
        let mut lo_list: Vec<(NodeIx, EdgeIx)> = Vec::new();
        self.adj_lists.set_and_swap(lo.0 as usize, &mut lo_list);
        lo_list.push((hi, eix));
        self.adj_lists.set_and_swap(lo.0 as usize, &mut lo_list);
        if lo.0 != hi.0 {
            let mut hi_list: Vec<(NodeIx, EdgeIx)> = Vec::new();
            self.adj_lists.set_and_swap(hi.0 as usize, &mut hi_list);
            hi_list.push((lo, eix));
            self.adj_lists.set_and_swap(hi.0 as usize, &mut hi_list);
        }
        proof {
            let es = self.edges_spec();
            assert forall|i: int| 0 <= i < self.adj_lists@.len() implies #[trigger] self.adj_view(
                i,
            ) == incident_ix(es, i as nat) by {
                assert(incident_ix(es, i as nat) == if new_e.lo == i as nat {
                    incident_ix(old_es, i as nat).push((new_e.hi, old_es.len() as int))
                } else if new_e.hi == i as nat {
                    incident_ix(old_es, i as nat).push((new_e.lo, old_es.len() as int))
                } else {
                    incident_ix(old_es, i as nat)
                });
                if i == lo.0 as int {
                    assert(self.adj_view(i) =~= old(self).adj_view(i).push(
                        (hi.0 as nat, old_es.len() as int),
                    ));
                } else if i == hi.0 as int {
                    assert(self.adj_view(i) =~= old(self).adj_view(i).push(
                        (lo.0 as nat, old_es.len() as int),
                    ));
                } else {
                    assert(self.adj_view(i) =~= old(self).adj_view(i));
                }
            }
        }
    }

    fn get_edges(&self, node_ix: NodeIx) -> (r: Vec<(NodeIx, u64)>) {
        let mut r: Vec<(NodeIx, u64)> = Vec::new();
        proof {
            lemma_incident_matches_ix(self.edges_spec(), node_ix.0 as nat);
        }
        if (node_ix.0 as usize) >= self.adj_lists.len() {
            proof {
                lemma_incident_out_of_range(self.edges_spec(), self.nodes_spec(), node_ix.0 as nat);
                assert(r@.map_values(|p: (NodeIx, u64)| (p.0.0 as nat, p.1)) =~= incident(
                    self.edges_spec(),
                    node_ix.0 as nat,
                ));
            }
            return r;
        }
        let adj = &self.adj_lists[node_ix.0 as usize];
        let ghost inc = incident(self.edges_spec(), node_ix.0 as nat);
        proof {
            let a = node_ix.0 as nat;
            let es = self.edges_spec();
            assert(self.adj_view(node_ix.0 as int) == incident_ix(es, a));
            assert forall|q: int| 0 <= q < adj@.len() implies inc[q] == (
                (#[trigger] adj@[q]).0.0 as nat,
                es[adj@[q].1.0 as int].w,
            ) && 0 <= adj@[q].1.0 < es.len() by {
                assert(self.adj_view(node_ix.0 as int)[q] == (adj@[q].0.0 as nat, adj@[q].1.0 as int));
                assert(incident_ix(es, a)[q] == (adj@[q].0.0 as nat, adj@[q].1.0 as int));
            }
        }
        let mut j: usize = 0;
        while j < adj.len()
            invariant
                self.wf(),
                j <= adj@.len(),
                (node_ix.0 as nat) < self.nodes_spec(),
                adj@ == self.adj_lists@[node_ix.0 as int]@,
                inc == incident(self.edges_spec(), node_ix.0 as nat),
                inc.len() == adj@.len(),
                forall|q: int|
                    0 <= q < adj@.len() ==> inc[q] == (
                        (#[trigger] adj@[q]).0.0 as nat,
                        self.edges_spec()[adj@[q].1.0 as int].w,
                    ) && 0 <= adj@[q].1.0 < self.edges_spec().len(),
                r@.len() == j,
                forall|q: int|
                    0 <= q < j ==> ((#[trigger] r@[q]).0.0 as nat, r@[q].1) == inc[q],
            decreases adj@.len() - j,
        {
            let (nb, eix) = adj[j];
            let w = self.edges[eix.0 as usize].2;
            r.push((nb, w));
            j = j + 1;
        }
        proof {
            assert(r@.map_values(|p: (NodeIx, u64)| (p.0.0 as nat, p.1)) =~= inc);
        }
        r
    }

    fn get_edge_weight(&self, from_ix: NodeIx, to_ix: NodeIx) -> (r: Option<u64>) {
        let ghost a = from_ix.0 as nat;
        let ghost b = to_ix.0 as nat;
        let ghost es = self.edges_spec();
        proof {
            assert(es.skip(0) =~= es);
        }
        let mut k: usize = 0;
        while k < self.edges.len()
            invariant
                self.wf(),
                k <= self.edges@.len(),
                es == self.edges_spec(),
                a == from_ix.0 as nat,
                b == to_ix.0 as nat,
                crate::edge_weight(es, a, b) == crate::edge_weight(es.skip(k as int), a, b),
            decreases self.edges@.len() - k,
        {
            let (lo, hi, w) = self.edges[k];
            proof {
                assert(es.skip(k as int).len() > 0);
                assert(es.skip(k as int)[0] == es[k as int]);
                assert(es.skip(k as int).drop_first() =~= es.skip(k as int + 1));
            }
            if (lo.0 == from_ix.0 && hi.0 == to_ix.0) || (lo.0 == to_ix.0 && hi.0 == from_ix.0) {
                return Some(w);
            }
            k = k + 1;
        }
        proof {
            assert(es.skip(self.edges@.len() as int).len() == 0);
        }
        None
    }

    fn get_all_edges(&self) -> (r: Vec<(NodeIx, NodeIx, u64)>) {
        let mut r: Vec<(NodeIx, NodeIx, u64)> = Vec::new();
        let mut k: usize = 0;
        while k < self.edges.len()
            invariant
                k <= self.edges@.len(),
                r@ == self.edges@.take(k as int),
            decreases self.edges@.len() - k,
        {
            let e = self.edges[k];
            r.push(e);
            proof {
                assert(r@ =~= self.edges@.take(k as int + 1));
            }
            k = k + 1;
        }
        proof {
            assert(r@ =~= self.edges@);
            assert(r@.map_values(
                |t: (NodeIx, NodeIx, u64)| (EdgeModel { lo: t.0.0 as nat, hi: t.1.0 as nat, w: t.2 }),
            ) =~= self.edges_spec());
        }
        r
    }

    fn size(&self) -> (r: NodeIx) {
        NodeIx(self.nodes.len() as u32)
    }

    proof fn edges_in_range(&self) {
        assert forall|k: int|
            0 <= k < self.edges_spec().len() implies (#[trigger] self.edges_spec()[k]).lo
            <= self.edges_spec()[k].hi && self.edges_spec()[k].hi < self.nodes_spec() by {
            assert(self.edges_spec()[k].lo == self.edges@[k].0.0 as nat);
            assert(self.edges_spec()[k].hi == self.edges@[k].1.0 as nat);
        }
    }
}

/// For every node `a`, the incident-edge listing agrees entry by entry with
/// the listing that carries edge positions: same neighbors, and each weight
/// read at the recorded position.
pub proof fn lemma_incident_matches_ix(es: Seq<EdgeModel>, a: nat)
    ensures
        incident(es, a).len() == incident_ix(es, a).len(),
        forall|q: int|
            0 <= q < incident(es, a).len() ==> {
                let ix = (#[trigger] incident_ix(es, a)[q]).1;
                &&& 0 <= ix < es.len()
                &&& incident(es, a)[q] == (incident_ix(es, a)[q].0, es[ix].w)
                &&& (es[ix].lo == a && incident_ix(es, a)[q].0 == es[ix].hi) || (es[ix].hi == a
                    && incident_ix(es, a)[q].0 == es[ix].lo)
            },
    decreases es.len(),
{
    if es.len() > 0 {
        lemma_incident_matches_ix(es.drop_last(), a);
        assert(forall|q: int|
            0 <= q < es.len() - 1 ==> #[trigger] es.drop_last()[q] == es[q]);
    }
}

/// A node at or beyond the node count has no incident edges, because every
/// stored edge keeps both endpoints below the node count.
pub proof fn lemma_incident_out_of_range(es: Seq<EdgeModel>, n: nat, a: nat)
    requires
        a >= n,
        forall|k: int| 0 <= k < es.len() ==> (#[trigger] es[k]).lo < n && es[k].hi < n,
    ensures
        incident(es, a).len() == 0,
    decreases es.len(),
{
    if es.len() > 0 {
        assert(forall|q: int|
            0 <= q < es.len() - 1 ==> #[trigger] es.drop_last()[q] == es[q]);
        lemma_incident_out_of_range(es.drop_last(), n, a);
    }
}

} // verus!
