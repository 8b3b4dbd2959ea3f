//! Laws that relate several graph operations, stated over the adjacency
//! model that the operations' own contracts use.
use vstd::prelude::*;
use crate::model::{
    edge_total, edges_along, edges_in, lemma_edges_in_agree, lemma_edges_in_insert,
    lemma_edges_in_remove, out_edges,
};

verus! {

/// The adjacency after `add_node(n)`.
pub open spec fn with_node<N, E>(adj: Map<N, Seq<(N, E)>>, n: N) -> Map<N, Seq<(N, E)>> {
    adj.insert(n, Seq::empty())
}

/// The adjacency after `add_node` of each of `ns`, in order.
pub open spec fn with_nodes<N, E>(adj: Map<N, Seq<(N, E)>>, ns: Seq<N>) -> Map<N, Seq<(N, E)>>
    decreases ns.len(),
{
    if ns.len() == 0 {
        adj
    } else {
        with_node(with_nodes(adj, ns.drop_last()), ns.last())
    }
}

/// The adjacency after `add_edge(s, t, e)`: unchanged when `s` is absent.
pub open spec fn with_edge<N, E>(adj: Map<N, Seq<(N, E)>>, s: N, t: N, e: E) -> Map<
    N,
    Seq<(N, E)>,
> {
    if adj.contains_key(s) {
        adj.insert(s, adj[s].push((t, e)))
    } else {
        adj
    }
}

/// The adjacency after `add_edge` of each `(source, target, label)` of
/// `es`, in order.
pub open spec fn with_edges<N, E>(adj: Map<N, Seq<(N, E)>>, es: Seq<(N, N, E)>) -> Map<
    N,
    Seq<(N, E)>,
>
    decreases es.len(),
{
    if es.len() == 0 {
        adj
    } else {
        let (s, t, e) = es.last();
        with_edge(with_edges(adj, es.drop_last()), s, t, e)
    }
}

/// Adding a node raises the node count by one if the node is new, and
/// leaves it as it was if the node is already present.
pub proof fn lemma_add_node_count<N, E>(adj: Map<N, Seq<(N, E)>>, n: N)
    requires
        adj.dom().finite(),
    ensures
        with_node(adj, n).dom().len() == adj.dom().len() + if adj.contains_key(n) {
            0int
        } else {
            1int
        },
{
    assert(with_node(adj, n).dom() =~= adj.dom().insert(n));
}

/// Starting from the empty graph, adding `ns.len()` distinct nodes gives
/// `ns.len()` nodes.
pub proof fn lemma_distinct_nodes_count<N, E>(ns: Seq<N>)
    requires
        ns.no_duplicates(),
    ensures
        with_nodes(Map::<N, Seq<(N, E)>>::empty(), ns).dom().len() == ns.len(),
        forall|n: N| with_nodes(Map::<N, Seq<(N, E)>>::empty(), ns).contains_key(n) <==> ns.contains(n),
    decreases ns.len(),
{
    let empty = Map::<N, Seq<(N, E)>>::empty();
    if ns.len() > 0 {
        let init = ns.drop_last();
        assert(init.no_duplicates()) by {
            assert forall|i: int, j: int| 0 <= i < j < init.len() implies init[i] != init[j] by {
                assert(init[i] == ns[i] && init[j] == ns[j]);
            }
        }
        lemma_distinct_nodes_count::<N, E>(init);
        lemma_nodes_finite(empty, init);
        assert(!init.contains(ns.last())) by {
            if init.contains(ns.last()) {
                let i = choose|i: int| 0 <= i < init.len() && init[i] == ns.last();
                assert(ns[i] == ns[ns.len() - 1]);
            }
        }
        lemma_add_node_count(with_nodes(empty, init), ns.last());
        assert forall|n: N| with_nodes(empty, ns).contains_key(n) <==> ns.contains(n) by {
            if init.contains(n) {
                let i = choose|i: int| 0 <= i < init.len() && init[i] == n;
                assert(ns[i] == n);
            }
            if ns.contains(n) && n != ns.last() {
                let i = choose|i: int| 0 <= i < ns.len() && ns[i] == n;
                assert(init[i] == n);
            }
            if n == ns.last() {
                assert(ns[ns.len() - 1] == n);
            }
        }
    }
}

/// Adding nodes to a graph with finitely many nodes keeps it finite.
proof fn lemma_nodes_finite<N, E>(adj: Map<N, Seq<(N, E)>>, ns: Seq<N>)
    requires
        adj.dom().finite(),
    ensures
        with_nodes(adj, ns).dom().finite(),
    decreases ns.len(),
{
    if ns.len() > 0 {
        lemma_nodes_finite(adj, ns.drop_last());
        assert(with_nodes(adj, ns).dom() =~= with_nodes(adj, ns.drop_last()).dom().insert(ns.last()));
    }
}

/// Adding an edge from a present node raises the edge count by one.
pub proof fn lemma_add_edge_count<N, E>(adj: Map<N, Seq<(N, E)>>, s: N, t: N, e: E)
    requires
        adj.dom().finite(),
        adj.contains_key(s),
    ensures
        edge_total(with_edge(adj, s, t, e)) == edge_total(adj) + 1,
        with_edge(adj, s, t, e).dom() == adj.dom(),
{
    let after = with_edge(adj, s, t, e);
    assert(after.dom() =~= adj.dom());
    lemma_edges_in_remove(adj, adj.dom(), s);
    lemma_edges_in_remove(after, adj.dom(), s);
    lemma_edges_in_agree(adj, after, adj.dom().remove(s));
}

/// Adding an edge from an absent node changes neither count.
pub proof fn lemma_invalid_edge_counts<N, E>(adj: Map<N, Seq<(N, E)>>, s: N, t: N, e: E)
    requires
        !adj.contains_key(s),
    ensures
        edge_total(with_edge(adj, s, t, e)) == edge_total(adj),
        with_edge(adj, s, t, e).dom().len() == adj.dom().len(),
{
}

/// Adding `es.len()` edges, each from a node already present, raises the
/// edge count by `es.len()` and leaves the nodes as they were.
pub proof fn lemma_edges_count<N, E>(adj: Map<N, Seq<(N, E)>>, es: Seq<(N, N, E)>)
    requires
        adj.dom().finite(),
        forall|i: int| 0 <= i < es.len() ==> adj.contains_key((#[trigger] es[i]).0),
    ensures
        edge_total(with_edges(adj, es)) == edge_total(adj) + es.len(),
        with_edges(adj, es).dom() == adj.dom(),
    decreases es.len(),
{
    if es.len() > 0 {
        let init = es.drop_last();
        assert forall|i: int| 0 <= i < init.len() implies adj.contains_key((#[trigger] init[i]).0) by {
            assert(init[i] == es[i]);
        }
        lemma_edges_count(adj, init);
        let (s, t, e) = es.last();
        assert(adj.contains_key(es[es.len() - 1].0));
        lemma_add_edge_count(with_edges(adj, init), s, t, e);
    }
}

/// A pass over every edge, node by node, meets as many edges as the edge
/// count says, whatever the order of the nodes.
pub proof fn lemma_edge_pass_length<N, E>(adj: Map<N, Seq<(N, E)>>, ns: Seq<N>)
    requires
        ns.no_duplicates(),
        forall|n: N| ns.contains(n) <==> adj.contains_key(n),
    ensures
        edges_along(adj, ns).len() == edge_total(adj),
{
    lemma_edges_along_len(adj, ns);
    assert(ns.to_set() =~= adj.dom());
}

/// The edges along `ns` are those counted over its nodes.
proof fn lemma_edges_along_len<N, E>(adj: Map<N, Seq<(N, E)>>, ns: Seq<N>)
    requires
        ns.no_duplicates(),
    ensures
        edges_along(adj, ns).len() == edges_in(adj, ns.to_set()),
    decreases ns.len(),
{
    broadcast use vstd::seq_lib::seq_to_set_is_finite;

    if ns.len() == 0 {
        assert(ns.to_set() =~= Set::<N>::empty());
    } else {
        let init = ns.drop_last();
        let last = ns.last();
        assert(init.no_duplicates()) by {
            assert forall|i: int, j: int| 0 <= i < j < init.len() implies init[i] != init[j] by {
                assert(init[i] == ns[i] && init[j] == ns[j]);
            }
        }
        lemma_edges_along_len(adj, init);
        assert(!init.to_set().contains(last)) by {
            if init.contains(last) {
                let i = choose|i: int| 0 <= i < init.len() && init[i] == last;
                assert(ns[i] == ns[ns.len() - 1]);
            }
        }
        assert forall|x: N| #[trigger] ns.to_set().contains(x) <==> init.to_set().insert(last).contains(x) by {
            if ns.contains(x) {
                let i = choose|i: int| 0 <= i < ns.len() && ns[i] == x;
                if i < ns.len() - 1 {
                    assert(init[i] == x);
                }
            }
            if init.contains(x) {
                let i = choose|i: int| 0 <= i < init.len() && init[i] == x;
                assert(ns[i] == x);
            }
            if x == last {
                assert(ns[ns.len() - 1] == x);
            }
        }
        assert(ns.to_set() =~= init.to_set().insert(last));
        lemma_edges_in_insert(adj, init.to_set(), last);
        assert(out_edges(adj, last).map_values(|p: (N, E)| (last, p.0, p.1)).len() == out_edges(adj, last).len());
    }
}

} // verus!
