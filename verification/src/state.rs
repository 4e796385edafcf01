//! The per-divergence search state and its lock-step advance.
//!
//! A [`BubbleState`] is created when the scan meets a node whose right
//! out-degree exceeds one, is driven by [`BubbleState::propagate`] until
//! it either confirms a bubble ([`BubbleState::check_finished`]) or runs
//! out of pending nodes ([`BubbleState::can_continue`]), and is then
//! discarded.  Every method is verified against the model in
//! [`crate::model`].

use vstd::prelude::*;

use handlegraph::hashgraph::HashGraph;

use crate::graph::graph_right_neighbors;
use crate::model::{
    branch_cand, branch_step, branch_wf, can_cont, cands_upto, end_count, end_count_upto,
    fresh_branch, init_state, prop_cands, prop_state, state_wf, BranchModel, StateModel,
};
use crate::order::{sorted_insert, sorted_uniq, strictly_sorted, vec_contains};
use crate::Bubble;

verus! {

/// One search branch: the key it is filed under and its three tables.
/// `visits` and `ends` are kept strictly ascending and stand for sets;
/// `deque` is a first-in first-out queue.
pub struct Branch {
    pub root: u64,
    pub visits: Vec<u64>,
    pub deque: Vec<u64>,
    pub ends: Vec<u64>,
}

impl View for Branch {
    type V = BranchModel;

    open spec fn view(&self) -> BranchModel {
        BranchModel {
            root: self.root,
            visits: self.visits@,
            deque: self.deque@,
            ends: self.ends@,
        }
    }
}

/// The mutable state of one multi-branch search rooted at one divergence
/// node.  The branches sit in ascending root order, so one vector serves
/// as the shared key table of the visit, queue, and candidate maps.
pub struct BubbleState {
    pub start: u64,
    pub degree: usize,
    pub branches: Vec<Branch>,
}

impl View for BubbleState {
    type V = StateModel;

    open spec fn view(&self) -> StateModel {
        StateModel {
            start: self.start,
            degree: self.degree as nat,
            branches: self.branches@.map_values(|b: Branch| b@),
        }
    }
}

impl BubbleState {
    /// Well-formed in the model's sense.
    pub open spec fn wf(&self) -> bool {
        state_wf(self@)
    }

    /// Start a search of `degree` branches from `start`, one branch per
    /// distinct node in `nodes`, each seeded with its own root pending.
    pub fn new(degree: usize, start: u64, nodes: &Vec<u64>) -> (s: BubbleState)
        ensures
            s@ == init_state(degree as nat, start, nodes@),
            s.wf(),
    {
        let mut roots_v: Vec<u64> = Vec::new();
        let mut i: usize = 0;
        while i < nodes.len()
            invariant
                i <= nodes.len(),
                strictly_sorted(roots_v@),
                roots_v@ == sorted_uniq(nodes@.subrange(0, i as int)),
            decreases nodes.len() - i,
        {
            sorted_insert(&mut roots_v, nodes[i]);
            proof {
                let pre = nodes@.subrange(0, i as int);
                let post = nodes@.subrange(0, i + 1 as int);
                assert(post.drop_last() =~= pre);
                assert(post.last() == nodes@[i as int]);
            }
            i += 1;
        }
        proof {
            assert(nodes@.subrange(0, nodes@.len() as int) =~= nodes@);
        }
        let mut branches: Vec<Branch> = Vec::new();
        let mut j: usize = 0;
        while j < roots_v.len()
            invariant
                j <= roots_v.len(),
                branches@.len() == j,
                roots_v@ == sorted_uniq(nodes@),
                strictly_sorted(roots_v@),
                forall|k: int| 0 <= k < j ==> #[trigger] branches@[k]@ == fresh_branch(roots_v@[k]),
            decreases roots_v.len() - j,
        {
            let r = roots_v[j];
            let mut dq: Vec<u64> = Vec::new();
            dq.push(r);
            let b = Branch { root: r, visits: Vec::new(), deque: dq, ends: Vec::new() };
            proof {
                assert(b@ =~= fresh_branch(r));
            }
            branches.push(b);
            j += 1;
        }
        let s = BubbleState { start, degree, branches };
        proof {
            let target = init_state(degree as nat, start, nodes@);
            assert forall|k: int| 0 <= k < s@.branches.len() implies #[trigger] s@.branches[k]
                == target.branches[k] by {
                assert(s@.branches[k] == fresh_branch(roots_v@[k]));
            }
            assert(s@.branches =~= target.branches);
            assert(s@ =~= target);
            assert forall|k: int| 0 <= k < s@.branches.len() implies branch_wf(
                #[trigger] s@.branches[k],
            ) by {
                assert(s@.branches[k] == fresh_branch(roots_v@[k]));
            }
            assert(crate::model::roots(s@) =~= roots_v@);
        }
        s
    }

    /// Whether any branch still has pending nodes to search.
    pub fn can_continue(&self) -> (r: bool)
        ensures
            r == can_cont(self@),
    {
        let mut i: usize = 0;
        while i < self.branches.len()
            invariant
                i <= self.branches.len(),
                forall|j: int| 0 <= j < i ==> #[trigger] self@.branches[j].deque.len() == 0,
            decreases self.branches.len() - i,
        {
            if self.branches[i].deque.len() > 0 {
                proof {
                    assert(self@.branches[i as int].deque.len() > 0);
                }
                return true;
            }
            i += 1;
        }
        false
    }

    /// Confirm or reject a convergence candidate: a bubble from `start`
    /// to `node` is returned exactly when `node` occurs in the candidate
    /// table of every one of the `degree` branches.
    pub fn check_finished(&self, node: u64) -> (r: Option<Bubble>)
        ensures
            r == if end_count(self@, node) == self@.degree {
                Some(Bubble { start: self@.start, end: node })
            } else {
                None::<Bubble>
            },
    {
        let mut count: usize = 0;
        let mut i: usize = 0;
        while i < self.branches.len()
            invariant
                i <= self.branches.len(),
                count <= i,
                count == end_count_upto(self@, node, i as int),
            decreases self.branches.len() - i,
        {
            if vec_contains(&self.branches[i].ends, node) {
                count += 1;
            }
            proof {
                assert(end_count_upto(self@, node, i + 1 as int) == end_count_upto(
                    self@,
                    node,
                    i as int,
                ) + if self@.branches[i as int].ends.contains(node) {
                    1nat
                } else {
                    0nat
                });
            }
            i += 1;
        }
        if count == self.degree {
            Some(Bubble { start: self.start, end: node })
        } else {
            None
        }
    }

    /// Advance every branch one step, in ascending key order, and return
    /// the ascending set of convergence candidates the round discovered,
    /// or nothing when the round discovered none.
    pub fn propagate(&mut self, graph: &HashGraph) -> (r: Option<Vec<u64>>)
        requires
            old(self).wf(),
        ensures
            final(self)@ == prop_state(old(self)@, *graph),
            final(self).wf(),
            (match r {
                Some(v) => v@ == prop_cands(old(self)@, *graph) && v@.len() > 0,
                None => prop_cands(old(self)@, *graph).len() == 0,
            }),
    {
        let ghost st0 = self@;
        let ghost g = *graph;
        let mut cands: Vec<u64> = Vec::new();
        let mut i: usize = 0;
        while i < self.branches.len()
            invariant
                i <= self.branches.len(),
                self.branches@.len() == st0.branches.len(),
                self.start == st0.start,
                self.degree as nat == st0.degree,
                state_wf(st0),
                g == *graph,
                forall|j: int| 0 <= j < i ==> #[trigger] self.branches@[j]@ == branch_step(
                    st0.branches[j],
                    g,
                ),
                forall|j: int| i <= j < self.branches@.len() ==> #[trigger] self.branches@[j]@
                    == st0.branches[j],
                cands@ == cands_upto(st0, g, i as int),
                strictly_sorted(cands@),
            decreases self.branches.len() - i,
        {
            let ghost b0 = st0.branches[i as int];
            let ghost pre_branches = self.branches@;
            let mut b = self.branches.remove(i);
            proof {
                assert(b@ == b0);
                assert(branch_wf(b0));
            }
            if b.deque.len() > 0 {
                let next = b.deque.remove(0);
                proof {
                    assert(next == b0.deque[0]);
                    assert(b@.deque =~= b0.deque.drop_first());
                }
                let seen = vec_contains(&b.visits, next);
                if !seen {
                    let nbs = graph_right_neighbors(graph, next);
                    if nbs.len() == 1 {
                        let e = nbs[0];
                        sorted_insert(&mut cands, e);
                        sorted_insert(&mut b.ends, e);
                        proof {
                            assert(branch_cand(b0, g) == Some(e));
                        }
                    } else {
                        proof {
                            assert(branch_cand(b0, g) is None);
                        }
                    }
                    let ghost rest = b.deque@;
                    let mut k: usize = 0;
                    while k < nbs.len()
                        invariant
                            k <= nbs.len(),
                            b.deque@ == rest + nbs@.subrange(0, k as int),
                            b.root == b0.root,
                            b.visits@ == b0.visits,
                            b.ends@ == if nbs@.len() == 1 {
                                crate::order::sorted_insert_seq(b0.ends, nbs@[0])
                            } else {
                                b0.ends
                            },
                        decreases nbs.len() - k,
                    {
                        b.deque.push(nbs[k]);
                        proof {
                            assert(b.deque@ =~= rest + nbs@.subrange(0, k + 1 as int));
                        }
                        k += 1;
                    }
                    proof {
                        assert(nbs@.subrange(0, nbs@.len() as int) =~= nbs@);
                        assert(b.deque@ == b0.deque.drop_first() + nbs@);
                    }
                    sorted_insert(&mut b.visits, next);
                    proof {
                        assert(b@ =~= branch_step(b0, g));
                    }
                } else {
                    proof {
                        assert(b@ =~= branch_step(b0, g));
                        assert(branch_cand(b0, g) is None);
                    }
                }
            } else {
                proof {
                    assert(b@ =~= branch_step(b0, g));
                    assert(branch_cand(b0, g) is None);
                }
            }
            self.branches.insert(i, b);
            proof {
                assert(self.branches@ =~= pre_branches.update(i as int, b));
                assert(cands_upto(st0, g, i + 1 as int) == match branch_cand(b0, g) {
                    Some(e) => crate::order::sorted_insert_seq(cands_upto(st0, g, i as int), e),
                    None => cands_upto(st0, g, i as int),
                });
            }
            i += 1;
        }
        proof {
            let stf = prop_state(st0, g);
            assert forall|j: int| 0 <= j < self@.branches.len() implies #[trigger] self@.branches[j]
                == stf.branches[j] by {
                assert(self.branches@[j]@ == branch_step(st0.branches[j], g));
            }
            assert(self@.branches =~= stf.branches);
            assert(self@ =~= stf);
            assert forall|j: int| 0 <= j < self@.branches.len() implies #[trigger] self@.branches[j].root
                == st0.branches[j].root by {
                assert(self@.branches[j] == branch_step(st0.branches[j], g));
            }
            assert(crate::model::roots(self@) =~= crate::model::roots(st0));
            assert forall|j: int| 0 <= j < self@.branches.len() implies branch_wf(
                #[trigger] self@.branches[j],
            ) by {
                let bj0 = st0.branches[j];
                assert(branch_wf(bj0));
                assert(self@.branches[j] == branch_step(bj0, g));
                if bj0.deque.len() > 0 && !bj0.visits.contains(bj0.deque[0]) {
                    crate::order::lemma_sorted_insert_props(bj0.visits, bj0.deque[0]);
                    let nb = crate::graph::adj(g, bj0.deque[0]);
                    if nb.len() == 1 {
                        crate::order::lemma_sorted_insert_props(bj0.ends, nb[0]);
                    }
                }
            }
        }
        if cands.len() == 0 {
            None
        } else {
            Some(cands)
        }
    }
}

} // verus!
