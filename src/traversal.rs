//! Depth-first traversal, written against the capability interface alone.
use std::collections::HashSet;
use std::hash::Hash;
use vstd::prelude::*;
use vstd::std_specs::hash::obeys_key_model;
use crate::capability::Graph;
use crate::model::{
    arc, lemma_closed_holds_reachable, lemma_reachable_self, lemma_reachable_step,
    lemma_targets_in, out_edges, reachable, targets_in,
};

verus! {

broadcast use vstd::std_specs::hash::group_hash_axioms;

/// The edges that the frames of `stack` have still to follow; a frame is a
/// node and the index of its next outgoing edge.
spec fn pending<N, E>(adj: Map<N, Seq<(N, E)>>, stack: Seq<(N, usize)>) -> nat
    decreases stack.len(),
{
    if stack.len() == 0 {
        0
    } else {
        let (node, next) = stack.last();
        let left: nat = if next <= out_edges(adj, node).len() {
            (out_edges(adj, node).len() - next) as nat
        } else {
            0
        };
        pending(adj, stack.drop_last()) + left
    }
}

/// Some frame of `stack` belongs to `x`.
spec fn on_stack<N>(stack: Seq<(N, usize)>, x: N) -> bool {
    exists|j: int| 0 <= j < stack.len() && (#[trigger] stack[j]).0 == x
}

/// Some visit is of `x`.
pub open spec fn seen<N>(visits: Seq<(N, bool)>, x: N) -> bool {
    exists|j: int| 0 <= j < visits.len() && (#[trigger] visits[j]).0 == x
}

/// The visit at `j` followed an edge from an earlier visit whose edges were
/// followed.
pub open spec fn discovered<N, E>(adj: Map<N, Seq<(N, E)>>, visits: Seq<(N, bool)>, j: int) -> bool {
    exists|i: int| 0 <= i < j && visits[i].1 && #[trigger] arc(adj, visits[i].0, visits[j].0)
}

/// Some visit of `x` went on to follow its edges.
spec fn descended<N>(visits: Seq<(N, bool)>, x: N) -> bool {
    exists|i: int| 0 <= i < visits.len() && visits[i].1 && (#[trigger] visits[i]).0 == x
}

/// Visits nodes depth first from `source` and returns each visit: the node,
/// and what `descend` answered for it. The outgoing edges of a node are
/// followed, in insertion order, only when `descend` answers `true` for it;
/// a node is marked visited before its own edges are followed, so that none
/// is visited twice. `source` comes first; a source that was never added is
/// visited alone.
#[verifier::rlimit(60)]
pub fn dfs_pruned<N: Copy + Eq + Hash, E, G: Graph<N, E>, F: Fn(N) -> bool>(
    graph: &G,
    source: N,
    descend: F,
) -> (visits: Vec<(N, bool)>)
    requires
        graph.well_formed(),
        obeys_key_model::<N>(),
        forall|n: N| descend.requires((n,)),
    ensures
        visits@.len() > 0,
        visits@[0].0 == source,
        forall|i: int, j: int|
            0 <= i < j < visits@.len() ==> (#[trigger] visits@[i]).0 != (#[trigger] visits@[j]).0,
        forall|j: int|
            0 <= j < visits@.len() ==> descend.ensures(((#[trigger] visits@[j]).0,), visits@[j].1),
        forall|j: int| 0 < j < visits@.len() ==> #[trigger] discovered(graph.adjacency(), visits@, j),
        forall|i: int, b: N|
            0 <= i < visits@.len() && visits@[i].1 && #[trigger] arc(
                graph.adjacency(),
                visits@[i].0,
                b,
            ) ==> seen(visits@, b),
{
    let ghost adj = graph.adjacency();
    let ghost universe = targets_in(adj, adj.dom()).insert(source);
    proof {
        graph.lemma_finite_nodes();
        lemma_targets_in(adj, adj.dom());
    }
    let mut visited: HashSet<N> = HashSet::new();
    visited.insert(source);
    let first = descend(source);
    let mut visits: Vec<(N, bool)> = Vec::new();
    visits.push((source, first));
    let mut stack: Vec<(N, usize)> = Vec::new();
    if first {
        stack.push((source, 0));
    }
    proof {
        assert(visits@[0].0 == source);
        assert(visited@ =~= set![source]);
        assert forall|x: N| seen(visits@, x) implies x == source by {
            let j = choose|j: int| 0 <= j < visits@.len() && (#[trigger] visits@[j]).0 == x;
        }
        if first {
            assert(stack@[0].0 == source);
            assert(on_stack(stack@, source));
        }
    }
    while stack.len() > 0
        invariant
            graph.well_formed(),
            obeys_key_model::<N>(),
            forall|n: N| descend.requires((n,)),
            adj == graph.adjacency(),
            universe.finite(),
            universe == targets_in(adj, adj.dom()).insert(source),
            forall|a: N, k: int|
                adj.dom().contains(a) && 0 <= k < out_edges(adj, a).len() ==> targets_in(
                    adj,
                    adj.dom(),
                ).contains((#[trigger] out_edges(adj, a)[k]).0),
            forall|x: N| visited@.contains(x) <==> seen(visits@, x),
            visited@.subset_of(universe),
            visits@.len() > 0,
            visits@[0].0 == source,
            forall|i: int, j: int|
                0 <= i < j < visits@.len() ==> (#[trigger] visits@[i]).0 != (#[trigger] visits@[j]).0,
            forall|j: int|
                0 <= j < visits@.len() ==> descend.ensures(((#[trigger] visits@[j]).0,), visits@[j].1),
            forall|j: int| 0 < j < visits@.len() ==> #[trigger] discovered(adj, visits@, j),
            forall|j: int| 0 <= j < stack@.len() ==> descended(visits@, (#[trigger] stack@[j]).0),
            forall|i: int, j: int|
                0 <= i < j < stack@.len() ==> (#[trigger] stack@[i]).0 != (#[trigger] stack@[j]).0,
            forall|j: int, k: int|
                0 <= j < stack@.len() && 0 <= k < stack@[j].1 && k < out_edges(
                    adj,
                    stack@[j].0,
                ).len() ==> seen(visits@, (#[trigger] out_edges(adj, (#[trigger] stack@[j]).0)[k]).0),
            forall|i: int, k: int|
                0 <= i < visits@.len() && visits@[i].1 && !on_stack(stack@, visits@[i].0) && 0 <= k
                    < out_edges(adj, visits@[i].0).len() ==> seen(
                    visits@,
                    (#[trigger] out_edges(adj, (#[trigger] visits@[i]).0)[k]).0,
                ),
        decreases universe.len() - visited@.len(), pending(adj, stack@), stack@.len(),
    {
        proof {
            vstd::set_lib::lemma_len_subset(visited@, universe);
        }
        let ghost a0 = universe.len() - visited@.len();
        let ghost b0 = pending(adj, stack@);
        let ghost c0 = stack@.len();
        let top = stack.len() - 1;
        let (node, next) = stack[top];
        let kids = graph.children(&node);
        if next < kids.len() {
            let ghost old_stack = stack@;
            let ghost old_visits = visits@;
            let ghost old_visited = visited@;
            stack.set(top, (node, next + 1));
            let target = kids[next].0;
            proof {
                assert(stack@.drop_last() =~= old_stack.drop_last());
                assert(arc(adj, node, target)) by {
                    assert(out_edges(adj, node)[next as int].0 == target);
                }
                assert(old_stack[top as int].0 == node);
                assert(on_stack(stack@, node)) by {
                    assert(stack@[top as int].0 == node);
                }
                assert forall|x: N| on_stack(old_stack, x) implies #[trigger] on_stack(
                    stack@,
                    x,
                ) by {
                    let j = choose|j: int| 0 <= j < old_stack.len() && (#[trigger] old_stack[j]).0 == x;
                    assert(stack@[j].0 == x);
                }
            }
            let ghost mid_stack = stack@;
            if !visited.contains(&target) {
                let deeper = descend(target);
                visited.insert(target);
                visits.push((target, deeper));
                proof {
                    let n = old_visits.len() as int;
                    assert(visits@[n] == (target, deeper));
                    assert(out_edges(adj, node).len() > 0);
                    assert(universe.contains(target));
                    assert forall|j: int| 0 <= j < n implies #[trigger] visits@[j] == old_visits[j] by {}
                    assert forall|x: N| seen(old_visits, x) implies #[trigger] seen(visits@, x) by {
                        let j = choose|j: int| 0 <= j < old_visits.len() && (#[trigger] old_visits[j]).0 == x;
                        assert(visits@[j] == old_visits[j]);
                    }
                    assert forall|x: N| #[trigger] seen(visits@, x) implies seen(old_visits, x)
                        || x == target by {
                        let j = choose|j: int| 0 <= j < visits@.len() && (#[trigger] visits@[j]).0 == x;
                        if j < n {
                            assert(old_visits[j] == visits@[j]);
                        }
                    }
                    assert(seen(visits@, target));
                }
                if deeper {
                    stack.push((target, 0));
                    proof {
                        let n = old_visits.len() as int;
                        assert(stack@[stack@.len() - 1].0 == target);
                        assert(on_stack(stack@, target));
                        assert forall|x: N| on_stack(stack@.drop_last(), x) implies #[trigger] on_stack(
                            stack@,
                            x,
                        ) by {
                            let j = choose|j: int|
                                0 <= j < stack@.drop_last().len() && (#[trigger] stack@.drop_last()[j]).0
                                    == x;
                            assert(stack@[j].0 == x);
                        }
                        assert(visits@[n].0 == stack@[stack@.len() - 1].0);
                    }
                }
                proof {
                    assert(visited@.len() == old_visited.len() + 1);
                    vstd::set_lib::lemma_len_subset(visited@, universe);
                    assert(0 <= universe.len() - visited@.len() < a0);
                    assert forall|x: N| on_stack(old_stack, x) implies #[trigger] on_stack(
                        stack@,
                        x,
                    ) by {
                        assert(on_stack(mid_stack, x));
                        if deeper {
                            assert(stack@.drop_last() =~= mid_stack);
                        }
                    }
                    assert forall|j: int| 0 <= j < stack@.len() implies descended(
                        visits@,
                        (#[trigger] stack@[j]).0,
                    ) by {
                        if j < old_stack.len() {
                            let i = choose|i: int|
                                0 <= i < old_visits.len() && old_visits[i].1 && (
                                #[trigger] old_visits[i]).0 == old_stack[j].0;
                            assert(visits@[i] == old_visits[i]);
                        } else {
                            assert(visits@[old_visits.len() as int].0 == stack@[j].0);
                        }
                    }
                    assert forall|j: int| 0 < j < visits@.len() implies #[trigger] discovered(
                        adj,
                        visits@,
                        j,
                    ) by {
                        if j < old_visits.len() {
                            assert(discovered(adj, old_visits, j));
                            let i = choose|i: int|
                                0 <= i < j && old_visits[i].1 && #[trigger] arc(
                                    adj,
                                    old_visits[i].0,
                                    old_visits[j].0,
                                );
                            assert(visits@[i] == old_visits[i] && visits@[j] == old_visits[j]);
                        } else {
                            let i = choose|i: int|
                                0 <= i < old_visits.len() && old_visits[i].1 && (
                                #[trigger] old_visits[i]).0 == old_stack[top as int].0;
                            assert(visits@[i] == old_visits[i]);
                            assert(arc(adj, visits@[i].0, visits@[j].0));
                        }
                    }
                    assert forall|i: int, k: int|
                        0 <= i < visits@.len() && visits@[i].1 && !on_stack(stack@, visits@[i].0)
                            && 0 <= k < out_edges(adj, visits@[i].0).len() implies seen(
                        visits@,
                        (#[trigger] out_edges(adj, (#[trigger] visits@[i]).0)[k]).0,
                    ) by {
                        if i < old_visits.len() {
                            assert(visits@[i] == old_visits[i]);
                            assert(!on_stack(old_stack, old_visits[i].0));
                            assert(seen(old_visits, out_edges(adj, old_visits[i].0)[k].0));
                        }
                    }
                }
            } else {
                proof {
                    assert(pending(adj, stack@) < pending(adj, old_stack));
                    assert(universe.len() - visited@.len() == a0);
                    assert(pending(adj, stack@) < b0);
                    assert forall|j: int| 0 <= j < stack@.len() implies descended(
                        visits@,
                        (#[trigger] stack@[j]).0,
                    ) by {
                        assert(stack@[j].0 == old_stack[j].0);
                    }
                    assert forall|i: int, k: int|
                        0 <= i < visits@.len() && visits@[i].1 && !on_stack(stack@, visits@[i].0)
                            && 0 <= k < out_edges(adj, visits@[i].0).len() implies seen(
                        visits@,
                        (#[trigger] out_edges(adj, (#[trigger] visits@[i]).0)[k]).0,
                    ) by {
                        assert(!on_stack(old_stack, visits@[i].0));
                    }
                }
            }
        } else {
            let ghost old_stack = stack@;
            stack.pop();
            proof {
                assert(stack@ =~= old_stack.drop_last());
                assert(old_stack.last() == (node, next));
                assert(pending(adj, stack@) == pending(adj, old_stack));
                assert(universe.len() - visited@.len() == a0);
                assert(pending(adj, stack@) == b0);
                assert(stack@.len() < c0);
                assert forall|x: N| #[trigger] on_stack(old_stack, x) && x != node implies on_stack(
                    stack@,
                    x,
                ) by {
                    let j = choose|j: int| 0 <= j < old_stack.len() && (#[trigger] old_stack[j]).0 == x;
                    assert(j != top);
                    assert(stack@[j].0 == x);
                }
                assert forall|j: int| 0 <= j < stack@.len() implies descended(
                    visits@,
                    (#[trigger] stack@[j]).0,
                ) by {
                    assert(stack@[j].0 == old_stack[j].0);
                }
                assert forall|i: int, k: int|
                    0 <= i < visits@.len() && visits@[i].1 && !on_stack(stack@, visits@[i].0) && 0
                        <= k < out_edges(adj, visits@[i].0).len() implies seen(
                    visits@,
                    (#[trigger] out_edges(adj, (#[trigger] visits@[i]).0)[k]).0,
                ) by {
                    if visits@[i].0 != node {
                        assert(!on_stack(old_stack, visits@[i].0));
                    } else {
                        assert(old_stack[top as int].0 == node);
                    }
                }
            }
        }
    }
    proof {
        assert forall|i: int, b: N|
            0 <= i < visits@.len() && visits@[i].1 && #[trigger] arc(adj, visits@[i].0, b) implies seen(
            visits@,
            b,
        ) by {
            let k = choose|k: int|
                0 <= k < out_edges(adj, visits@[i].0).len() && (#[trigger] out_edges(
                    adj,
                    visits@[i].0,
                )[k]).0 == b;
            assert(!on_stack(stack@, visits@[i].0));
            assert(seen(visits@, out_edges(adj, visits@[i].0)[k].0));
        }
    }
    visits
}

/// One step of depth-first traversal. The state is the nodes visited so far
/// and a stack of frames, each a node and the index of its next outgoing
/// edge. The top frame follows its next edge, visiting the target if it is
/// new and pushing a frame for it; a frame with no edge left is popped.
pub open spec fn dfs_step<N, E>(adj: Map<N, Seq<(N, E)>>, st: (Seq<N>, Seq<(N, usize)>)) -> (
    Seq<N>,
    Seq<(N, usize)>,
) {
    let (visits, stack) = st;
    if stack.len() == 0 {
        st
    } else {
        let (node, next) = stack.last();
        if next < out_edges(adj, node).len() {
            let moved = stack.update(stack.len() - 1, (node, (next + 1) as usize));
            let target = out_edges(adj, node)[next as int].0;
            if visits.contains(target) {
                (visits, moved)
            } else {
                (visits.push(target), moved.push((target, 0usize)))
            }
        } else {
            (visits, stack.drop_last())
        }
    }
}

/// The state after `steps` steps from `st`.
pub open spec fn dfs_run<N, E>(adj: Map<N, Seq<(N, E)>>, st: (Seq<N>, Seq<(N, usize)>), steps: nat) -> (
    Seq<N>,
    Seq<(N, usize)>,
)
    decreases steps,
{
    if steps == 0 {
        st
    } else {
        dfs_step(adj, dfs_run(adj, st, (steps - 1) as nat))
    }
}

/// The state in which traversal from `source` begins.
pub open spec fn dfs_start<N>(source: N) -> (Seq<N>, Seq<(N, usize)>) {
    (seq![source], seq![(source, 0usize)])
}

/// The order in which depth-first traversal from `source` visits nodes:
/// the visits of the run once its stack is empty.
pub open spec fn dfs_order<N, E>(adj: Map<N, Seq<(N, E)>>, source: N) -> Seq<N> {
    let steps = choose|steps: nat| (#[trigger] dfs_run(adj, dfs_start(source), steps)).1.len() == 0;
    dfs_run(adj, dfs_start(source), steps).0
}

/// Once the stack is empty the run stays where it is.
proof fn lemma_run_settled<N, E>(
    adj: Map<N, Seq<(N, E)>>,
    st: (Seq<N>, Seq<(N, usize)>),
    k: nat,
    m: nat,
)
    requires
        k <= m,
        dfs_run(adj, st, k).1.len() == 0,
    ensures
        dfs_run(adj, st, m) == dfs_run(adj, st, k),
    decreases m,
{
    if m > k {
        lemma_run_settled(adj, st, k, (m - 1) as nat);
    }
}

/// Visits the nodes that `source` reaches, depth first, and returns them in
/// the order of their visit. `source` comes first; the outgoing edges of each node are followed in
/// insertion order, and a node is marked visited before its own edges are
/// followed, so that none is visited twice. The order is a function of the
/// adjacency alone. A source that was never added is visited alone.
pub fn dfs<N: Copy + Eq + Hash, E, G: Graph<N, E>>(graph: &G, source: N) -> (order: Vec<N>)
    requires
        graph.well_formed(),
        obeys_key_model::<N>(),
    ensures
        order@.len() > 0,
        order@[0] == source,
        order@.no_duplicates(),
        forall|n: N| order@.contains(n) <==> reachable(graph.adjacency(), source, n),
        order@ == dfs_order(graph.adjacency(), source),
{
    let ghost adj = graph.adjacency();
    let ghost universe = targets_in(adj, adj.dom()).insert(source);
    proof {
        graph.lemma_finite_nodes();
        lemma_targets_in(adj, adj.dom());
        lemma_reachable_self(adj, source);
    }
    let mut visited: HashSet<N> = HashSet::new();
    visited.insert(source);
    let mut order: Vec<N> = Vec::new();
    order.push(source);
    let mut stack: Vec<(N, usize)> = Vec::new();
    stack.push((source, 0));
    let ghost mut steps: nat = 0;
    proof {
        assert(order@[0] == source);
        assert((order@, stack@) == dfs_start(source));
        assert(visited@ =~= set![source]);
        assert(stack@[0].0 == source);
        assert(on_stack(stack@, source));
        assert forall|x: N| order@.contains(x) implies x == source by {
            let j = choose|j: int| 0 <= j < order@.len() && order@[j] == x;
        }
    }
    while stack.len() > 0
        invariant
            graph.well_formed(),
            obeys_key_model::<N>(),
            adj == graph.adjacency(),
            (order@, stack@) == dfs_run(adj, dfs_start(source), steps),
            universe.finite(),
            universe == targets_in(adj, adj.dom()).insert(source),
            forall|a: N, k: int|
                adj.dom().contains(a) && 0 <= k < out_edges(adj, a).len() ==> targets_in(
                    adj,
                    adj.dom(),
                ).contains((#[trigger] out_edges(adj, a)[k]).0),
            forall|x: N| visited@.contains(x) <==> order@.contains(x),
            visited@.subset_of(universe),
            order@.len() > 0,
            order@[0] == source,
            order@.no_duplicates(),
            forall|j: int| 0 <= j < order@.len() ==> reachable(adj, source, #[trigger] order@[j]),
            forall|j: int| 0 <= j < stack@.len() ==> order@.contains((#[trigger] stack@[j]).0),
            forall|i: int, j: int|
                0 <= i < j < stack@.len() ==> (#[trigger] stack@[i]).0 != (#[trigger] stack@[j]).0,
            forall|j: int, k: int|
                0 <= j < stack@.len() && 0 <= k < stack@[j].1 && k < out_edges(
                    adj,
                    stack@[j].0,
                ).len() ==> order@.contains((#[trigger] out_edges(adj, (#[trigger] stack@[j]).0)[k]).0),
            forall|x: N, k: int|
                order@.contains(x) && !on_stack(stack@, x) && 0 <= k < out_edges(adj, x).len()
                    ==> order@.contains((#[trigger] out_edges(adj, x)[k]).0),
        decreases universe.len() - visited@.len(), pending(adj, stack@), stack@.len(),
    {
        proof {
            vstd::set_lib::lemma_len_subset(visited@, universe);
        }
        let ghost a0 = universe.len() - visited@.len();
        let ghost b0 = pending(adj, stack@);
        let ghost c0 = stack@.len();
        let top = stack.len() - 1;
        let (node, next) = stack[top];
        let kids = graph.children(&node);
        let ghost before = (order@, stack@);
        proof {
            assert(stack@.last() == (node, next));
        }
        if next < kids.len() {
            let ghost old_stack = stack@;
            let ghost old_order = order@;
            let ghost old_visited = visited@;
            stack.set(top, (node, next + 1));
            let target = kids[next].0;
            proof {
                assert(stack@.drop_last() =~= old_stack.drop_last());
                assert(arc(adj, node, target)) by {
                    assert(out_edges(adj, node)[next as int].0 == target);
                }
                assert(old_stack[top as int].0 == node);
                assert(reachable(adj, source, node)) by {
                    let j = choose|j: int| 0 <= j < old_order.len() && old_order[j] == node;
                    assert(reachable(adj, source, old_order[j]));
                }
                lemma_reachable_step(adj, source, node, target);
                assert(on_stack(stack@, node)) by {
                    assert(stack@[top as int].0 == node);
                }
            }
            if !visited.contains(&target) {
                visited.insert(target);
                order.push(target);
                stack.push((target, 0));
                proof {
                    assert(out_edges(adj, node).len() > 0);
                    assert(universe.contains(target));
                    assert(order@.last() == target);
                    assert forall|j: int| 0 <= j < order@.len() implies reachable(
                        adj,
                        source,
                        #[trigger] order@[j],
                    ) by {
                        if j < old_order.len() {
                            assert(order@[j] == old_order[j]);
                        }
                    }
                    assert forall|x: N| #[trigger] order@.contains(x) implies old_order.contains(x)
                        || x == target by {
                        let j = choose|j: int| 0 <= j < order@.len() && order@[j] == x;
                        if j < old_order.len() {
                            assert(old_order[j] == x);
                        }
                    }
                    assert forall|x: N| old_order.contains(x) implies #[trigger] order@.contains(
                        x,
                    ) by {
                        let j = choose|j: int| 0 <= j < old_order.len() && old_order[j] == x;
                        assert(order@[j] == x);
                    }
                    assert(order@.contains(target)) by {
                        assert(order@[old_order.len() as int] == target);
                    }
                    assert forall|x: N| on_stack(stack@.drop_last(), x) implies #[trigger] on_stack(
                        stack@,
                        x,
                    ) by {
                        let j = choose|j: int|
                            0 <= j < stack@.drop_last().len() && (#[trigger] stack@.drop_last()[j]).0
                                == x;
                        assert(stack@[j].0 == x);
                    }
                    assert(on_stack(stack@, target)) by {
                        assert(stack@[stack@.len() - 1].0 == target);
                    }
                    assert(visited@.len() == old_visited.len() + 1);
                    vstd::set_lib::lemma_len_subset(visited@, universe);
                    assert(0 <= universe.len() - visited@.len() < a0);
                    assert forall|x: N| on_stack(old_stack, x) implies #[trigger] on_stack(
                        stack@,
                        x,
                    ) by {
                        let j = choose|j: int| 0 <= j < old_stack.len() && (#[trigger] old_stack[j]).0 == x;
                        assert(stack@[j].0 == x);
                    }
                    assert forall|x: N, k: int|
                        order@.contains(x) && !on_stack(stack@, x) && 0 <= k < out_edges(
                            adj,
                            x,
                        ).len() implies order@.contains((#[trigger] out_edges(adj, x)[k]).0) by {
                        assert(old_order.contains(x));
                        assert(!on_stack(old_stack, x));
                        assert(old_order.contains(out_edges(adj, x)[k].0));
                    }
                }
            } else {
                proof {
                    assert(pending(adj, stack@) < pending(adj, old_stack));
                    assert(universe.len() - visited@.len() == a0);
                    assert(pending(adj, stack@) < b0);
                    assert forall|x: N| on_stack(old_stack, x) implies #[trigger] on_stack(
                        stack@,
                        x,
                    ) by {
                        let j = choose|j: int| 0 <= j < old_stack.len() && (#[trigger] old_stack[j]).0 == x;
                        assert(stack@[j].0 == x);
                    }
                    assert forall|x: N, k: int|
                        order@.contains(x) && !on_stack(stack@, x) && 0 <= k < out_edges(
                            adj,
                            x,
                        ).len() implies order@.contains((#[trigger] out_edges(adj, x)[k]).0) by {
                        assert(!on_stack(old_stack, x));
                    }
                }
            }
        } else {
            let ghost old_stack = stack@;
            stack.pop();
            proof {
                assert(stack@ =~= before.1.drop_last());
            }
            proof {
                assert(stack@ =~= old_stack.drop_last());
                assert(old_stack.last() == (node, next));
                assert(pending(adj, stack@) == pending(adj, old_stack));
                assert(universe.len() - visited@.len() == a0);
                assert(pending(adj, stack@) == b0);
                assert(stack@.len() < c0);
                assert forall|x: N| #[trigger] on_stack(old_stack, x) && x != node implies on_stack(
                    stack@,
                    x,
                ) by {
                    let j = choose|j: int| 0 <= j < old_stack.len() && (#[trigger] old_stack[j]).0 == x;
                    assert(j != top);
                    assert(stack@[j].0 == x);
                }
                assert forall|k: int| 0 <= k < out_edges(adj, node).len() implies order@.contains(
                    (#[trigger] out_edges(adj, node)[k]).0,
                ) by {
                    assert(old_stack[top as int].0 == node);
                }
                assert forall|x: N, k: int|
                    order@.contains(x) && !on_stack(stack@, x) && 0 <= k < out_edges(
                        adj,
                        x,
                    ).len() implies order@.contains((#[trigger] out_edges(adj, x)[k]).0) by {
                    if x != node {
                        assert(!on_stack(old_stack, x));
                    }
                }
            }
        }
        proof {
            assert((order@, stack@) == dfs_step(adj, before));
            steps = steps + 1;
        }
    }
    proof {
        let settled = choose|k: nat| (#[trigger] dfs_run(adj, dfs_start(source), k)).1.len() == 0;
        if settled <= steps {
            lemma_run_settled(adj, dfs_start(source), settled, steps);
        } else {
            lemma_run_settled(adj, dfs_start(source), steps, settled);
        }
        assert forall|a: N, b: N| order@.to_set().contains(a) && #[trigger] arc(adj, a, b) implies order@.to_set().contains(b) by {
            let k = choose|k: int| 0 <= k < out_edges(adj, a).len() && (#[trigger] out_edges(adj, a)[k]).0 == b;
            assert(!on_stack(stack@, a));
            assert(order@.contains(out_edges(adj, a)[k].0));
        }
        assert(order@.to_set().contains(source)) by {
            assert(order@[0] == source);
        }
        assert forall|n: N| order@.contains(n) <==> reachable(adj, source, n) by {
            if reachable(adj, source, n) {
                lemma_closed_holds_reachable(adj, order@.to_set(), source, n);
            }
            if order@.contains(n) {
                let j = choose|j: int| 0 <= j < order@.len() && order@[j] == n;
                assert(reachable(adj, source, order@[j]));
            }
        }
    }
    order
}

} // verus!
