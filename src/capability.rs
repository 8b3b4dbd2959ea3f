//! The capability interface that every graph storage provides, and the
//! operations derived from it.
use vstd::prelude::*;
use crate::model::{
    edge_total, edges_along, edges_in, lemma_edges_in_insert, lemma_edges_in_subset, out_edges,
};

verus! {

/// Why a graph operation was refused.
#[derive(Debug, Clone, Copy, PartialEq, Eq, Structural)]
pub enum GraphError {
    /// An edge was given a source node that was never added.
    InvalidSource,
}

/// A directed, edge-labelled multigraph with nodes of type `N` and edge
/// labels of type `E`. Algorithms are written against this interface only.
pub trait Graph<N: Copy, E>: Sized {
    /// Each added node, mapped to its outgoing `(target, label)` pairs in
    /// the order in which they were added.
    spec fn adjacency(&self) -> Map<N, Seq<(N, E)>>;

    /// What the storage needs of itself for its operations to behave.
    spec fn well_formed(&self) -> bool;

    /// A graph has finitely many nodes.
    proof fn lemma_finite_nodes(&self)
        requires
            self.well_formed(),
        ensures
            self.adjacency().dom().finite(),
    ;

    /// Adds `node` with no outgoing edges. A node that is already present
    /// is overwritten: its outgoing edges are dropped.
    fn add_node(&mut self, node: N)
        requires
            old(self).well_formed(),
        ensures
            final(self).well_formed(),
            final(self).adjacency() == old(self).adjacency().insert(node, Seq::empty()),
    ;

    /// Appends the edge `source -> target` labelled `edge` to the outgoing
    /// edges of `source`. The target need not be a node of the graph.
    /// Fails, changing nothing, when `source` was never added.
    fn add_edge(&mut self, source: N, target: N, edge: E) -> (r: Result<(), GraphError>)
        requires
            old(self).well_formed(),
        ensures
            final(self).well_formed(),
            old(self).adjacency().contains_key(source) ==> r is Ok && final(self).adjacency()
                == old(self).adjacency().insert(
                source,
                old(self).adjacency()[source].push((target, edge)),
            ),
            !old(self).adjacency().contains_key(source) ==> r == Err::<(), GraphError>(
                GraphError::InvalidSource,
            ) && final(self).adjacency() == old(self).adjacency(),
    ;

    /// The number of distinct nodes.
    fn node_count(&self) -> (r: usize)
        requires
            self.well_formed(),
        ensures
            r == self.adjacency().dom().len(),
    ;

    /// Whether `node` was added.
    fn contains_node(&self, node: &N) -> (r: bool)
        requires
            self.well_formed(),
        ensures
            r == self.adjacency().contains_key(*node),
    ;

    /// Every node once, in the storage's own order.
    fn nodes(&self) -> (r: Vec<N>)
        requires
            self.well_formed(),
        ensures
            r@.no_duplicates(),
            forall|n: N| r@.contains(n) <==> self.adjacency().contains_key(n),
    ;

    /// The outgoing `(target, label)` pairs of `node`, in insertion order;
    /// none for a node that was never added.
    fn children(&self, node: &N) -> (r: &[(N, E)])
        requires
            self.well_formed(),
        ensures
            r@ == out_edges(self.adjacency(), *node),
    ;

    /// Every edge as `(source, target, label)`: node by node in the order
    /// of `nodes`, each node's edges in insertion order.
    fn edges<'a>(&'a self) -> (r: Vec<(N, N, &'a E)>)
        where
            N: 'a,
            E: 'a,
        requires
            self.well_formed(),
        ensures
            exists|ns: Seq<N>|
                #![trigger edges_along(self.adjacency(), ns)]
                ns.no_duplicates() && (forall|n: N| ns.contains(n) <==> self.adjacency().contains_key(n))
                    && r@.map_values(|t: (N, N, &E)| (t.0, t.1, *t.2)) == edges_along(
                    self.adjacency(),
                    ns,
                ),
    {
        let all = self.nodes();
        let ghost adj = self.adjacency();
        let mut r: Vec<(N, N, &'a E)> = Vec::new();
        let mut i: usize = 0;
        while i < all.len()
            invariant
                self.well_formed(),
                adj == self.adjacency(),
                i <= all.len(),
                r@.map_values(|t: (N, N, &E)| (t.0, t.1, *t.2)) == edges_along(adj, all@.take(i as int)),
            decreases all.len() - i,
        {
            let node = all[i];
            let kids = self.children(&node);
            let ghost done = r@.map_values(|t: (N, N, &E)| (t.0, t.1, *t.2));
            let mut j: usize = 0;
            while j < kids.len()
                invariant
                    kids@ == out_edges(adj, node),
                    j <= kids.len(),
                    r@.map_values(|t: (N, N, &E)| (t.0, t.1, *t.2)) == done + kids@.take(
                        j as int,
                    ).map_values(|p: (N, E)| (node, p.0, p.1)),
                decreases kids.len() - j,
            {
                let ghost prev = r@;
                r.push((node, kids[j].0, &kids[j].1));
                proof {
                    let f = |t: (N, N, &E)| (t.0, t.1, *t.2);
                    let g = |p: (N, E)| (node, p.0, p.1);
                    assert(prev.map_values(f) == done + kids@.take(j as int).map_values(g));
                    assert(r@.map_values(f) =~= prev.map_values(f).push(g(kids@[j as int])));
                    assert(kids@.take(j as int + 1).map_values(g) =~= kids@.take(j as int).map_values(
                        g,
                    ).push(g(kids@[j as int])));
                    assert(r@.map_values(|t: (N, N, &E)| (t.0, t.1, *t.2)) =~= done + kids@.take(
                        j as int + 1,
                    ).map_values(|p: (N, E)| (node, p.0, p.1)));
                }
                j = j + 1;
            }
            proof {
                assert(kids@.take(j as int) =~= kids@);
                assert(all@.take(i as int + 1).drop_last() =~= all@.take(i as int));
            }
            i = i + 1;
        }
        proof {
            assert(all@.take(i as int) =~= all@);
        }
        r
    }

    /// The number of edges, counted over the children of every node.
    fn edge_count(&self) -> (r: usize)
        requires
            self.well_formed(),
            edge_total(self.adjacency()) <= usize::MAX,
        ensures
            r == edge_total(self.adjacency()),
    {
        let all = self.nodes();
        let ghost adj = self.adjacency();
        proof {
            assert(all@.to_set() =~= adj.dom());
            all@.unique_seq_to_set();
        }
        let mut count: usize = 0;
        let mut i: usize = 0;
        while i < all.len()
            invariant
                self.well_formed(),
                adj == self.adjacency(),
                all@.no_duplicates(),
                all@.to_set() == adj.dom(),
                edge_total(adj) <= usize::MAX,
                i <= all.len(),
                count == edges_in(adj, all@.take(i as int).to_set()),
            decreases all.len() - i,
        {
            let node = all[i];
            let kids = self.children(&node);
            proof {
                let before = all@.take(i as int).to_set();
                assert forall|x: N| #[trigger] all@.take(i as int + 1).to_set().contains(x)
                    <==> before.insert(node).contains(x) by {
                    if all@.take(i as int + 1).contains(x) {
                        let j = choose|j: int| 0 <= j < i + 1 && #[trigger] all@[j] == x;
                        if j < i {
                            assert(all@.take(i as int)[j] == x);
                        }
                    }
                    if before.contains(x) {
                        let j = choose|j: int| 0 <= j < i && #[trigger] all@[j] == x;
                        assert(all@.take(i as int + 1)[j] == x);
                    }
                    if x == node {
                        assert(all@.take(i as int + 1)[i as int] == x);
                    }
                }
                assert(all@.take(i as int + 1).to_set() =~= before.insert(node));
                assert(!before.contains(node)) by {
                    if before.contains(node) {
                        let j = choose|j: int| 0 <= j < i && #[trigger] all@[j] == node;
                        assert(all@[j] == all@[i as int]);
                    }
                }
                lemma_edges_in_insert(adj, before, node);
                lemma_edges_in_subset(adj, before.insert(node), adj.dom());
            }
            count = count + kids.len();
            i = i + 1;
        }
        proof {
            assert(all@.take(i as int) =~= all@);
        }
        count
    }
}

} // verus!
