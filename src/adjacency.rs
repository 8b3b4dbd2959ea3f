//! A graph stored as a hash map from each node to the vector of its
//! outgoing `(target, label)` pairs.
use std::collections::HashMap;
use std::hash::Hash;
use vstd::prelude::*;
use vstd::std_specs::iter::IteratorSpec;
use vstd::std_specs::hash::obeys_key_model;
use crate::capability::{Graph, GraphError};
use crate::model::out_edges;

verus! {

broadcast use vstd::std_specs::hash::group_hash_axioms;

/// An adjacency-list graph. Node keys are unique; each node's outgoing
/// edges keep the order in which they were added.
pub struct AdjacencyGraph<N, E> {
    adjacency: HashMap<N, Vec<(N, E)>>,
}

impl<N: Copy + Eq + Hash, E> AdjacencyGraph<N, E> {
    /// An empty graph. The node type's equality and hash must be lawful
    /// (equal values hash alike, and `==` is equality).
    pub fn new() -> (r: Self)
        requires
            obeys_key_model::<N>(),
        ensures
            r.well_formed(),
            r.adjacency() == Map::<N, Seq<(N, E)>>::empty(),
    {
        let r = AdjacencyGraph { adjacency: HashMap::new() };
        proof {
            assert(r.adjacency() =~= Map::<N, Seq<(N, E)>>::empty());
        }
        r
    }
}

impl<N: Copy + Eq + Hash, E> Graph<N, E> for AdjacencyGraph<N, E> {
    closed spec fn adjacency(&self) -> Map<N, Seq<(N, E)>> {
        self.adjacency@.map_values(|list: Vec<(N, E)>| list@)
    }

    closed spec fn well_formed(&self) -> bool {
        obeys_key_model::<N>()
    }

    proof fn lemma_finite_nodes(&self) {
        vstd::std_specs::hash::axiom_hashmap_view_finite_dom(self.adjacency);
        assert(self.adjacency().dom() =~= self.adjacency@.dom());
    }

    fn add_node(&mut self, node: N) {
        self.adjacency.insert(node, Vec::new());
        proof {
            assert(final(self).adjacency() =~= old(self).adjacency().insert(node, Seq::empty()));
        }
    }

    fn add_edge(&mut self, source: N, target: N, edge: E) -> (r: Result<(), GraphError>) {
        match self.adjacency.remove(&source) {
            Some(mut list) => {
                list.push((target, edge));
                self.adjacency.insert(source, list);
                proof {
                    assert(final(self).adjacency() =~= old(self).adjacency().insert(
                        source,
                        old(self).adjacency()[source].push((target, edge)),
                    ));
                }
                Ok(())
            },
            None => Err(GraphError::InvalidSource),
        }
    }

    fn node_count(&self) -> (r: usize) {
        proof {
            assert(self.adjacency().dom() =~= self.adjacency@.dom());
        }
        self.adjacency.len()
    }

    fn contains_node(&self, node: &N) -> (r: bool) {
        self.adjacency.contains_key(node)
    }

    fn nodes(&self) -> (r: Vec<N>) {
        let mut r: Vec<N> = Vec::new();
        let ghost keys = self.adjacency.keys().remaining();
        for node in it: self.adjacency.keys()
            invariant
                it.seq() == keys,
                r@ == keys.unref().take(it.index() as int),
        {
            r.push(*node);
            proof {
                assert(r@ =~= keys.unref().take(it.index() as int + 1));
            }
        }
        proof {
            assert(r@ =~= keys.unref());
            assert(r@.no_duplicates()) by {
                assert forall|i: int, j: int| 0 <= i < j < r@.len() implies r@[i] != r@[j] by {
                    assert(keys[i] != keys[j]);
                }
            }
            assert forall|n: N| r@.contains(n) <==> self.adjacency().contains_key(n) by {
                assert(r@.to_set().contains(n) <==> r@.contains(n));
            }
        }
        r
    }

    fn children(&self, node: &N) -> (r: &[(N, E)]) {
        match self.adjacency.get(node) {
            Some(list) => list.as_slice(),
            None => &[],
        }
    }
}

} // verus!
