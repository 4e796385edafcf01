//! Termination measures for the search loops.
//!
//! The graph is finite: its node table gives every id that
//! [`crate::graph::node_in`] answers for.  Each search step either
//! shortens a queue or visits a node of the table for the first time, so
//! a potential built from the unvisited part of the table bounds the
//! remaining work.

use vstd::prelude::*;

use handlegraph::hashgraph::HashGraph;

use crate::graph::{adj, node_in};
use crate::model::{
    branch_step, branch_wf, can_cont, prop_state, state_wf, BranchModel, StateModel,
};
use crate::order::{lemma_sorted_insert_props, sorted_insert_seq};

verus! {

/// How many members of `nodes` are missing from `visited`.
pub open spec fn missing_count(nodes: Seq<u64>, visited: Seq<u64>) -> nat
    decreases nodes.len(),
{
    if nodes.len() == 0 {
        0
    } else {
        missing_count(nodes.drop_last(), visited) + if visited.contains(nodes.last()) {
            0nat
        } else {
            1nat
        }
    }
}

/// The weight of the members of `nodes` missing from `visits`: each
/// unvisited node still costs one visit plus one queue slot per
/// right-neighbor.
pub open spec fn missing_weight(g: HashGraph, nodes: Seq<u64>, visits: Seq<u64>) -> nat
    decreases nodes.len(),
{
    if nodes.len() == 0 {
        0
    } else {
        missing_weight(g, nodes.drop_last(), visits) + if visits.contains(nodes.last()) {
            0nat
        } else {
            1nat + adj(g, nodes.last()).len()
        }
    }
}

/// The work one branch can still do: its pending queue plus the weight of
/// what it has not visited.
pub open spec fn branch_potential(g: HashGraph, nodes: Seq<u64>, b: BranchModel) -> nat {
    b.deque.len() + missing_weight(g, nodes, b.visits)
}

/// The summed potential of the first `i` branches.
pub open spec fn potential_upto(g: HashGraph, nodes: Seq<u64>, st: StateModel, i: int) -> nat
    decreases i,
{
    if i <= 0 {
        0
    } else {
        potential_upto(g, nodes, st, i - 1) + branch_potential(g, nodes, st.branches[i - 1])
    }
}

/// The work a whole search can still do.
pub open spec fn state_potential(g: HashGraph, nodes: Seq<u64>, st: StateModel) -> nat {
    potential_upto(g, nodes, st, st.branches.len() as int)
}

/// Growing the visited set never increases a missing count.
pub proof fn lemma_missing_count_mono(nodes: Seq<u64>, v1: Seq<u64>, v2: Seq<u64>)
    requires
        forall|y: u64| #[trigger] v1.contains(y) ==> v2.contains(y),
    ensures
        missing_count(nodes, v2) <= missing_count(nodes, v1),
    decreases nodes.len(),
{
    if nodes.len() > 0 {
        lemma_missing_count_mono(nodes.drop_last(), v1, v2);
    }
}

/// Visiting a member of the table for the first time strictly lowers the
/// missing count; visiting an id outside the table leaves it unchanged.
pub proof fn lemma_missing_count_insert(nodes: Seq<u64>, v1: Seq<u64>, v2: Seq<u64>, x: u64)
    requires
        !v1.contains(x),
        v2.contains(x),
        forall|y: u64| #[trigger] v2.contains(y) ==> (v1.contains(y) || y == x),
        forall|y: u64| #[trigger] v1.contains(y) ==> v2.contains(y),
    ensures
        nodes.contains(x) ==> missing_count(nodes, v2) < missing_count(nodes, v1),
        !nodes.contains(x) ==> missing_count(nodes, v2) == missing_count(nodes, v1),
    decreases nodes.len(),
{
    if nodes.len() == 0 {
    } else {
        let t = nodes.drop_last();
        lemma_missing_count_insert(t, v1, v2, x);
        if nodes.contains(x) {
            let i = choose|i: int| 0 <= i < nodes.len() && nodes[i] == x;
            assert(0 <= i < nodes.len() && nodes[i] == x);
            if i < nodes.len() - 1 {
                assert(t[i] == x);
                assert(t.contains(x));
                assert(missing_count(t, v2) < missing_count(t, v1));
            } else {
                assert(nodes.last() == x);
                assert(v2.contains(nodes.last()));
                lemma_missing_count_mono(t, v1, v2);
            }
        } else {
            assert(!t.contains(x)) by {
                if t.contains(x) {
                    let i = choose|i: int| 0 <= i < t.len() && t[i] == x;
                    assert(0 <= i < t.len() && t[i] == x);
                    assert(nodes[i] == x);
                }
            }
            assert(nodes.last() != x) by {
                if nodes.last() == x {
                    assert(nodes.contains(x));
                }
            }
            assert(v2.contains(nodes.last()) <==> v1.contains(nodes.last()));
        }
    }
}

/// Growing the visit set never increases a missing weight.
pub proof fn lemma_missing_weight_mono(g: HashGraph, nodes: Seq<u64>, v1: Seq<u64>, v2: Seq<u64>)
    requires
        forall|y: u64| #[trigger] v1.contains(y) ==> v2.contains(y),
    ensures
        missing_weight(g, nodes, v2) <= missing_weight(g, nodes, v1),
    decreases nodes.len(),
{
    if nodes.len() > 0 {
        lemma_missing_weight_mono(g, nodes.drop_last(), v1, v2);
    }
}

/// Visiting a member of the table for the first time pays for itself: the
/// missing weight falls by at least one plus the node's out-degree.
pub proof fn lemma_missing_weight_insert(
    g: HashGraph,
    nodes: Seq<u64>,
    v1: Seq<u64>,
    v2: Seq<u64>,
    x: u64,
)
    requires
        nodes.contains(x),
        !v1.contains(x),
        v2.contains(x),
        forall|y: u64| #[trigger] v2.contains(y) ==> (v1.contains(y) || y == x),
        forall|y: u64| #[trigger] v1.contains(y) ==> v2.contains(y),
    ensures
        missing_weight(g, nodes, v2) + 1 + adj(g, x).len() <= missing_weight(g, nodes, v1),
    decreases nodes.len(),
{
    let t = nodes.drop_last();
    let i = choose|i: int| 0 <= i < nodes.len() && nodes[i] == x;
    assert(0 <= i < nodes.len() && nodes[i] == x);
    if i < nodes.len() - 1 {
        assert(t[i] == x);
        assert(t.contains(x));
        lemma_missing_weight_insert(g, t, v1, v2, x);
        assert(v2.contains(nodes.last()) || !v1.contains(nodes.last()) || v2.contains(
            nodes.last(),
        ));
        if v1.contains(nodes.last()) {
            assert(v2.contains(nodes.last()));
        }
    } else {
        assert(nodes.last() == x);
        assert(v2.contains(nodes.last()));
        lemma_missing_weight_mono(g, t, v1, v2);
    }
}

/// A step of a branch with pending work strictly lowers its potential; a
/// branch without pending work does not change.
pub proof fn lemma_branch_step_potential(g: HashGraph, nodes: Seq<u64>, b: BranchModel)
    requires
        branch_wf(b),
        forall|x: u64| #[trigger] node_in(g, x) ==> nodes.contains(x),
    ensures
        b.deque.len() > 0 ==> branch_potential(g, nodes, branch_step(b, g)) < branch_potential(
            g,
            nodes,
            b,
        ),
        b.deque.len() == 0 ==> branch_step(b, g) == b,
{
    if b.deque.len() > 0 {
        let n = b.deque[0];
        if b.visits.contains(n) {
        } else {
            let v2 = sorted_insert_seq(b.visits, n);
            lemma_sorted_insert_props(b.visits, n);
            if nodes.contains(n) {
                lemma_missing_weight_insert(g, nodes, b.visits, v2, n);
            } else {
                assert(!node_in(g, n));
                assert(adj(g, n) =~= Seq::<u64>::empty());
                lemma_missing_weight_mono(g, nodes, b.visits, v2);
            }
        }
    }
}

/// A round over the first `i` branches never raises their summed
/// potential, and strictly lowers it when one of them had pending work.
proof fn lemma_potential_upto_step(g: HashGraph, nodes: Seq<u64>, st: StateModel, i: int)
    requires
        state_wf(st),
        forall|x: u64| #[trigger] node_in(g, x) ==> nodes.contains(x),
        0 <= i <= st.branches.len(),
    ensures
        potential_upto(g, nodes, prop_state(st, g), i) <= potential_upto(g, nodes, st, i),
        (exists|k: int| 0 <= k < i && #[trigger] st.branches[k].deque.len() > 0)
            ==> potential_upto(g, nodes, prop_state(st, g), i) < potential_upto(g, nodes, st, i),
    decreases i,
{
    if i > 0 {
        lemma_potential_upto_step(g, nodes, st, i - 1);
        assert(prop_state(st, g).branches[i - 1] == branch_step(st.branches[i - 1], g));
        lemma_branch_step_potential(g, nodes, st.branches[i - 1]);
        if exists|k: int| 0 <= k < i && #[trigger] st.branches[k].deque.len() > 0 {
            let k = choose|k: int| 0 <= k < i && #[trigger] st.branches[k].deque.len() > 0;
            if k < i - 1 {
                assert(exists|k2: int| 0 <= k2 < i - 1 && #[trigger] st.branches[k2].deque.len()
                    > 0);
            }
        }
    }
}

/// A round over a search with pending work strictly lowers its potential;
/// a round never raises it.
pub proof fn lemma_state_potential_step(g: HashGraph, nodes: Seq<u64>, st: StateModel)
    requires
        state_wf(st),
        forall|x: u64| #[trigger] node_in(g, x) ==> nodes.contains(x),
    ensures
        state_potential(g, nodes, prop_state(st, g)) <= state_potential(g, nodes, st),
        can_cont(st) ==> state_potential(g, nodes, prop_state(st, g)) < state_potential(
            g,
            nodes,
            st,
        ),
{
    lemma_potential_upto_step(g, nodes, st, st.branches.len() as int);
}

} // verus!
