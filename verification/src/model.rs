//! The mathematical model of one multi-branch bubble search.
//!
//! A search owns one [`BranchModel`] per immediate right-neighbor of the
//! divergence node, kept in ascending order of branch root.  One round of
//! the search ([`prop_state`]) advances every branch by one step, in that
//! order, and collects the convergence candidates the round discovered
//! ([`prop_cands`]).  The executable [`crate::state::BubbleState`] is
//! verified to follow this model exactly.

use vstd::prelude::*;

use handlegraph::hashgraph::HashGraph;

use crate::graph::adj;
use crate::order::{sorted_insert_seq, sorted_uniq, strictly_sorted};

verus! {

/// One search branch: its root key, the nodes it has visited, its pending
/// queue, and the convergence candidates it has flagged.  `visits` and
/// `ends` are kept strictly ascending and stand for sets.
#[verifier::ext_equal]
pub ghost struct BranchModel {
    pub root: u64,
    pub visits: Seq<u64>,
    pub deque: Seq<u64>,
    pub ends: Seq<u64>,
}

/// The whole state of one search: the divergence node it started from,
/// the branch count fixed at construction, and the branches in ascending
/// root order.
#[verifier::ext_equal]
pub ghost struct StateModel {
    pub start: u64,
    pub degree: nat,
    pub branches: Seq<BranchModel>,
}

/// A branch as constructed: nothing visited, nothing flagged, the root
/// itself pending.
pub open spec fn fresh_branch(root: u64) -> BranchModel {
    BranchModel { root, visits: Seq::empty(), deque: seq![root], ends: Seq::empty() }
}

/// The state a search starts from: one fresh branch per distinct root, in
/// ascending order.
pub open spec fn init_state(degree: nat, start: u64, nodes: Seq<u64>) -> StateModel {
    StateModel {
        start,
        degree,
        branches: sorted_uniq(nodes).map_values(|r: u64| fresh_branch(r)),
    }
}

/// The branch roots, in branch order.
pub open spec fn roots(st: StateModel) -> Seq<u64> {
    st.branches.map_values(|b: BranchModel| b.root)
}

/// A branch's bookkeeping is well formed: its visit and candidate tables
/// are ascending.
pub open spec fn branch_wf(b: BranchModel) -> bool {
    strictly_sorted(b.visits) && strictly_sorted(b.ends)
}

/// A search state is well formed: branch roots ascending (so the round
/// order is the ascending key order) and every branch well formed.
pub open spec fn state_wf(st: StateModel) -> bool {
    &&& strictly_sorted(roots(st))
    &&& forall|i: int| 0 <= i < st.branches.len() ==> branch_wf(#[trigger] st.branches[i])
}

/// One step of one branch.  An empty queue is a no-op; a pending node
/// already visited is discarded; otherwise the node is visited, its
/// single right-successor (if its out-degree is exactly one) is flagged
/// as a candidate, and all its right-neighbors become pending.
pub open spec fn branch_step(b: BranchModel, g: HashGraph) -> BranchModel {
    if b.deque.len() == 0 {
        b
    } else {
        let n = b.deque[0];
        let rest = b.deque.drop_first();
        if b.visits.contains(n) {
            BranchModel { deque: rest, ..b }
        } else {
            let nb = adj(g, n);
            BranchModel {
                root: b.root,
                visits: sorted_insert_seq(b.visits, n),
                deque: rest + nb,
                ends: if nb.len() == 1 {
                    sorted_insert_seq(b.ends, nb[0])
                } else {
                    b.ends
                },
            }
        }
    }
}

/// The candidate a branch contributes in one step, if any: the single
/// right-successor of a newly visited pending node of out-degree one.
pub open spec fn branch_cand(b: BranchModel, g: HashGraph) -> Option<u64> {
    if b.deque.len() > 0 && !b.visits.contains(b.deque[0]) && adj(g, b.deque[0]).len() == 1 {
        Some(adj(g, b.deque[0])[0])
    } else {
        None
    }
}

/// The state after one round: every branch stepped once.
pub open spec fn prop_state(st: StateModel, g: HashGraph) -> StateModel {
    StateModel {
        start: st.start,
        degree: st.degree,
        branches: st.branches.map_values(|b: BranchModel| branch_step(b, g)),
    }
}

/// The ascending candidate set contributed by the first `i` branches of a
/// round.
pub open spec fn cands_upto(st: StateModel, g: HashGraph, i: int) -> Seq<u64>
    decreases i,
{
    if i <= 0 {
        Seq::empty()
    } else {
        let prev = cands_upto(st, g, i - 1);
        match branch_cand(st.branches[i - 1], g) {
            Some(e) => sorted_insert_seq(prev, e),
            None => prev,
        }
    }
}

/// The ascending candidate set of one whole round.
pub open spec fn prop_cands(st: StateModel, g: HashGraph) -> Seq<u64> {
    cands_upto(st, g, st.branches.len() as int)
}

/// In how many of the first `i` branches' candidate tables `n` occurs.
pub open spec fn end_count_upto(st: StateModel, n: u64, i: int) -> nat
    decreases i,
{
    if i <= 0 {
        0
    } else {
        end_count_upto(st, n, i - 1) + if st.branches[i - 1].ends.contains(n) {
            1nat
        } else {
            0nat
        }
    }
}

/// In how many branches' candidate tables `n` occurs.
pub open spec fn end_count(st: StateModel, n: u64) -> nat {
    end_count_upto(st, n, st.branches.len() as int)
}

/// Whether any branch still has pending nodes.
pub open spec fn can_cont(st: StateModel) -> bool {
    exists|i: int| 0 <= i < st.branches.len() && #[trigger] st.branches[i].deque.len() > 0
}

/// The key tables of a fresh search are exactly the distinct nodes handed
/// to it, in ascending order, each seeded with a queue holding its own
/// root and empty visit and candidate tables.
pub proof fn lemma_init_state(degree: nat, start: u64, nodes: Seq<u64>)
    ensures
        state_wf(init_state(degree, start, nodes)),
        forall|r: u64| #[trigger]
            roots(init_state(degree, start, nodes)).contains(r) <==> nodes.contains(r),
        forall|i: int| 0 <= i < init_state(degree, start, nodes).branches.len() ==> #[trigger]
            init_state(degree, start, nodes).branches[i] == fresh_branch(
                roots(init_state(degree, start, nodes))[i],
            ),
{
    let st = init_state(degree, start, nodes);
    let u = sorted_uniq(nodes);
    crate::order::lemma_sorted_uniq_props(nodes);
    assert(roots(st) =~= u);
    assert forall|r: u64| #[trigger] roots(st).contains(r) <==> nodes.contains(r) by {
        if roots(st).contains(r) {
            assert(u.contains(r));
        }
        if nodes.contains(r) {
            assert(u.contains(r));
            assert(roots(st).contains(r));
        }
    }
}

/// A search built for a divergence node whose immediate right-neighbors
/// are pairwise distinct has exactly one branch per neighbor: its key
/// tables are keyed by exactly those `d` nodes.  (A repeated neighbor
/// collapses onto one key, so distinctness is required for the count.)
pub proof fn lemma_divergence_branches(degree: nat, start: u64, nodes: Seq<u64>)
    requires
        nodes.no_duplicates(),
    ensures
        init_state(degree, start, nodes).branches.len() == nodes.len(),
        forall|r: u64| #[trigger]
            roots(init_state(degree, start, nodes)).contains(r) <==> nodes.contains(r),
{
    crate::order::lemma_sorted_uniq_len(nodes);
    lemma_init_state(degree, start, nodes);
}

/// A well-formed branch marks each node visited at most once: its visit
/// table holds no duplicates.
pub proof fn lemma_visits_unique(b: BranchModel)
    requires
        branch_wf(b),
    ensures
        b.visits.no_duplicates(),
{
    assert forall|i: int, j: int| 0 <= i < b.visits.len() && 0 <= j < b.visits.len() && i != j
        implies b.visits[i] != b.visits[j] by {
        if i < j {
            assert(b.visits[i] < b.visits[j]);
        } else {
            assert(b.visits[j] < b.visits[i]);
        }
    }
}

/// A node a branch has already visited is searched at most once: stepping
/// a branch whose next pending node was seen before only discards that
/// node, and contributes no candidate.
pub proof fn lemma_revisit_noop(b: BranchModel, g: HashGraph)
    requires
        b.deque.len() > 0,
        b.visits.contains(b.deque[0]),
    ensures
        branch_step(b, g) == (BranchModel { deque: b.deque.drop_first(), ..b }),
        (branch_cand(b, g) is None),
{
}

/// An exhausted search stays exhausted: a round over a state whose queues
/// are all empty changes nothing and yields no candidates.
pub proof fn lemma_exhausted_stays(st: StateModel, g: HashGraph)
    requires
        !can_cont(st),
    ensures
        prop_state(st, g) == st,
        prop_cands(st, g) =~= Seq::<u64>::empty(),
        !can_cont(prop_state(st, g)),
{
    assert forall|i: int| 0 <= i < st.branches.len() implies #[trigger]
        st.branches[i].deque.len() == 0 by {}
    assert forall|i: int| 0 <= i < st.branches.len() implies #[trigger]
        branch_step(st.branches[i], g) == st.branches[i] by {}
    assert(prop_state(st, g).branches =~= st.branches);
    assert(prop_state(st, g) =~= st);
    lemma_no_cands(st, g, st.branches.len() as int);
}

/// A round over an exhausted prefix yields no candidates.
proof fn lemma_no_cands(st: StateModel, g: HashGraph, i: int)
    requires
        forall|j: int| 0 <= j < st.branches.len() ==> #[trigger] st.branches[j].deque.len() == 0,
        i <= st.branches.len(),
    ensures
        cands_upto(st, g, i) =~= Seq::<u64>::empty(),
    decreases i,
{
    if i > 0 {
        lemma_no_cands(st, g, i - 1);
    }
}

} // verus!
