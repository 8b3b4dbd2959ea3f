//! The mathematical model of a graph: a map from each added node to the
//! sequence of its outgoing `(target, label)` pairs, in insertion order.
use vstd::prelude::*;

verus! {

/// The outgoing edges of `n`; a node that was never added has none.
pub open spec fn out_edges<N, E>(adj: Map<N, Seq<(N, E)>>, n: N) -> Seq<(N, E)> {
    if adj.contains_key(n) {
        adj[n]
    } else {
        Seq::empty()
    }
}

/// The number of edges leaving the nodes of `keys`.
pub open spec fn edges_in<N, E>(adj: Map<N, Seq<(N, E)>>, keys: Set<N>) -> nat
    decreases keys.len(),
{
    if keys.finite() && keys.len() > 0 {
        let k = keys.choose();
        out_edges(adj, k).len() + edges_in(adj, keys.remove(k))
    } else {
        0
    }
}

/// The number of edges of the whole graph.
pub open spec fn edge_total<N, E>(adj: Map<N, Seq<(N, E)>>) -> nat {
    edges_in(adj, adj.dom())
}

/// Any element of `keys` may be taken out first when counting edges.
pub proof fn lemma_edges_in_remove<N, E>(adj: Map<N, Seq<(N, E)>>, keys: Set<N>, k: N)
    requires
        keys.finite(),
        keys.contains(k),
    ensures
        edges_in(adj, keys) == out_edges(adj, k).len() + edges_in(adj, keys.remove(k)),
    decreases keys.len(),
{
    let c = keys.choose();
    if c != k {
        lemma_edges_in_remove(adj, keys.remove(c), k);
        lemma_edges_in_remove(adj, keys.remove(k), c);
        assert(keys.remove(c).remove(k) =~= keys.remove(k).remove(c));
    }
}

/// Adding a node to `keys` adds its edges to the count.
pub proof fn lemma_edges_in_insert<N, E>(adj: Map<N, Seq<(N, E)>>, keys: Set<N>, k: N)
    requires
        keys.finite(),
        !keys.contains(k),
    ensures
        edges_in(adj, keys.insert(k)) == edges_in(adj, keys) + out_edges(adj, k).len(),
{
    lemma_edges_in_remove(adj, keys.insert(k), k);
    assert(keys.insert(k).remove(k) =~= keys);
}

/// The count over a subset is no larger.
pub proof fn lemma_edges_in_subset<N, E>(adj: Map<N, Seq<(N, E)>>, s: Set<N>, t: Set<N>)
    requires
        t.finite(),
        s.subset_of(t),
    ensures
        edges_in(adj, s) <= edges_in(adj, t),
    decreases t.len(),
{
    if !(s =~= t) {
        let k = choose|k: N| t.contains(k) && !s.contains(k);
        lemma_edges_in_remove(adj, t, k);
        lemma_edges_in_subset(adj, s, t.remove(k));
    }
}

/// The count only reads the edges of the nodes in `keys`.
pub proof fn lemma_edges_in_agree<N, E>(
    a: Map<N, Seq<(N, E)>>,
    b: Map<N, Seq<(N, E)>>,
    keys: Set<N>,
)
    requires
        keys.finite(),
        forall|k: N| keys.contains(k) ==> out_edges(a, k) == out_edges(b, k),
    ensures
        edges_in(a, keys) == edges_in(b, keys),
    decreases keys.len(),
{
    if keys.len() > 0 {
        let k = keys.choose();
        lemma_edges_in_agree(a, b, keys.remove(k));
    }
}

/// The edges `(source, target, label)` of the nodes of `ns`, node by node
/// in the order of `ns`, each node's edges in insertion order.
pub open spec fn edges_along<N, E>(adj: Map<N, Seq<(N, E)>>, ns: Seq<N>) -> Seq<(N, N, E)>
    decreases ns.len(),
{
    if ns.len() == 0 {
        Seq::empty()
    } else {
        let n = ns.last();
        edges_along(adj, ns.drop_last()) + out_edges(adj, n).map_values(|p: (N, E)| (n, p.0, p.1))
    }
}

/// Some edge leaves `a` for `b`.
pub open spec fn arc<N, E>(adj: Map<N, Seq<(N, E)>>, a: N, b: N) -> bool {
    exists|k: int| 0 <= k < out_edges(adj, a).len() && (#[trigger] out_edges(adj, a)[k]).0 == b
}

/// `p` follows edges from each of its nodes to the next.
pub open spec fn is_walk<N, E>(adj: Map<N, Seq<(N, E)>>, p: Seq<N>) -> bool {
    &&& p.len() > 0
    &&& forall|j: int| 0 <= j < p.len() - 1 ==> #[trigger] arc(adj, p[j], p[j + 1])
}

/// Some walk leads from `s` to `t`; every node reaches itself.
pub open spec fn reachable<N, E>(adj: Map<N, Seq<(N, E)>>, s: N, t: N) -> bool {
    exists|p: Seq<N>| #[trigger] is_walk(adj, p) && p[0] == s && p.last() == t
}

/// The targets of the edges leaving the nodes of `keys`.
pub open spec fn targets_in<N, E>(adj: Map<N, Seq<(N, E)>>, keys: Set<N>) -> Set<N>
    decreases keys.len(),
{
    if keys.finite() && keys.len() > 0 {
        let k = keys.choose();
        out_edges(adj, k).map_values(|p: (N, E)| p.0).to_set() + targets_in(adj, keys.remove(k))
    } else {
        Set::empty()
    }
}

/// The targets are finitely many, and hold every edge's target.
pub proof fn lemma_targets_in<N, E>(adj: Map<N, Seq<(N, E)>>, keys: Set<N>)
    requires
        keys.finite(),
    ensures
        targets_in(adj, keys).finite(),
        forall|a: N, k: int|
            keys.contains(a) && 0 <= k < out_edges(adj, a).len() ==> targets_in(adj, keys).contains(
                (#[trigger] out_edges(adj, a)[k]).0,
            ),
    decreases keys.len(),
{
    broadcast use vstd::seq_lib::seq_to_set_is_finite;

    if keys.len() > 0 {
        let c = keys.choose();
        lemma_targets_in(adj, keys.remove(c));
        assert forall|a: N, k: int|
            keys.contains(a) && 0 <= k < out_edges(adj, a).len() implies targets_in(
            adj,
            keys,
        ).contains((#[trigger] out_edges(adj, a)[k]).0) by {
            if a == c {
                let firsts = out_edges(adj, a).map_values(|p: (N, E)| p.0);
                assert(firsts[k] == out_edges(adj, a)[k].0);
                assert(firsts.to_set().contains(firsts[k]));
            } else {
                assert(keys.remove(c).contains(a));
            }
        }
    }
}

/// A walk can be extended by one more edge.
pub proof fn lemma_reachable_step<N, E>(adj: Map<N, Seq<(N, E)>>, s: N, a: N, b: N)
    requires
        reachable(adj, s, a),
        arc(adj, a, b),
    ensures
        reachable(adj, s, b),
{
    let p = choose|p: Seq<N>| #[trigger] is_walk(adj, p) && p[0] == s && p.last() == a;
    let q = p.push(b);
    assert forall|j: int| 0 <= j < q.len() - 1 implies #[trigger] arc(adj, q[j], q[j + 1]) by {
        if j < p.len() - 1 {
            assert(q[j] == p[j] && q[j + 1] == p[j + 1]);
            assert(arc(adj, p[j], p[j + 1]));
        }
    }
    assert(is_walk(adj, q));
}

/// Every node reaches itself.
pub proof fn lemma_reachable_self<N, E>(adj: Map<N, Seq<(N, E)>>, s: N)
    ensures
        reachable(adj, s, s),
{
    assert(is_walk(adj, seq![s]));
}

/// A set that holds `s` and is closed under edges holds all that `s` reaches.
pub proof fn lemma_closed_holds_reachable<N, E>(adj: Map<N, Seq<(N, E)>>, c: Set<N>, s: N, t: N)
    requires
        c.contains(s),
        forall|a: N, b: N| c.contains(a) && #[trigger] arc(adj, a, b) ==> c.contains(b),
        reachable(adj, s, t),
    ensures
        c.contains(t),
{
    let p = choose|p: Seq<N>| #[trigger] is_walk(adj, p) && p[0] == s && p.last() == t;
    lemma_closed_holds_walk(adj, c, p, p.len() - 1);
}

/// Each node of a walk that starts in a closed set lies in it.
proof fn lemma_closed_holds_walk<N, E>(adj: Map<N, Seq<(N, E)>>, c: Set<N>, p: Seq<N>, j: int)
    requires
        is_walk(adj, p),
        c.contains(p[0]),
        forall|a: N, b: N| c.contains(a) && #[trigger] arc(adj, a, b) ==> c.contains(b),
        0 <= j < p.len(),
    ensures
        c.contains(p[j]),
    decreases j,
{
    if j > 0 {
        lemma_closed_holds_walk(adj, c, p, j - 1);
        let i = j - 1;
        assert(arc(adj, p[i], p[i + 1]));
    }
}

} // verus!
