//! The whole-graph scan that finds bubbles.
//!
//! The scan is specified as a small-step machine over [`DriverModel`]:
//! each step either processes one node popped from the global queue, or
//! advances an in-progress divergence search by one round.  The machine
//! is deterministic, and a terminal state (empty queue, no search in
//! progress) is a fixpoint, so all terminal states reachable from one
//! start agree; [`scan_result`] names that terminal state.  The
//! executable scan is verified to return exactly its bubbles, in
//! discovery order.
//!
//! A stalled search (no pending nodes in any branch, no bubble) is
//! recovered by the bounded restart heuristic: on the first stall the
//! current node becomes the probe cursor, each further stall enqueues
//! cursor-plus-one on the global queue, and after `max_restarts` probes
//! the divergence is abandoned with no bubble.

use vstd::prelude::*;

use handlegraph::hashgraph::HashGraph;

use crate::graph::{adj, graph_node_ids, graph_right_degree, graph_right_neighbors, node_in};
use crate::measure::{
    lemma_missing_count_insert, lemma_state_potential_step, missing_count, state_potential,
};
use crate::model::{
    can_cont, end_count, init_state, lemma_exhausted_stays, prop_cands, prop_state, state_wf,
    StateModel,
};
use crate::order::{lemma_sorted_insert_props, sorted_insert, sorted_insert_seq, strictly_sorted};
use crate::state::BubbleState;
use crate::Bubble;

verus! {

/// How many probe restarts a stalled divergence search is allowed before
/// it is abandoned.
pub const DEFAULT_MAX_RESTARTS: usize = 100;

/// How many times the whole scan is re-run past the last bubble found.
pub const DEFAULT_ROUNDS: usize = 10;

/// An in-progress divergence search, as the scan model sees it.
#[verifier::ext_equal]
pub ghost struct SearchModel {
    /// The divergence node being searched from.
    pub nid: u64,
    /// The state of the multi-branch search.
    pub st: StateModel,
    /// The probe cursor of the restart heuristic, once a stall happened.
    pub loop_end: Option<u64>,
    /// How many probes have been enqueued for this divergence.
    pub restarts: nat,
}

/// The whole state of the scan.
#[verifier::ext_equal]
pub ghost struct DriverModel {
    /// Nodes whose processing is complete, ascending.
    pub visited: Seq<u64>,
    /// The global pending queue, front first.
    pub queue: Seq<u64>,
    /// The bubbles found so far, in discovery order.
    pub bubbles: Seq<Bubble>,
    /// The divergence search in progress, if any.
    pub search: Option<SearchModel>,
}

/// The scan state at the start: only the seed node pending.
pub open spec fn init_driver(start: u64) -> DriverModel {
    DriverModel {
        visited: Seq::empty(),
        queue: seq![start],
        bubbles: Seq::empty(),
        search: None,
    }
}

/// Nothing left to do: empty queue, no search in progress.
pub open spec fn terminal(d: DriverModel) -> bool {
    d.queue.len() == 0 && d.search is None
}

/// The successor id a probe uses, wrapping at the top of the id space.
pub open spec fn wrap_succ(n: u64) -> u64 {
    if n == u64::MAX {
        0u64
    } else {
        (n + 1) as u64
    }
}

/// The bubbles confirmed by the first `i` candidates of a round, in
/// candidate order.
pub open spec fn collect_upto(st: StateModel, cands: Seq<u64>, i: int) -> Seq<Bubble>
    decreases i,
{
    if i <= 0 {
        Seq::empty()
    } else {
        let prev = collect_upto(st, cands, i - 1);
        if end_count(st, cands[i - 1]) == st.degree {
            prev.push(Bubble { start: st.start, end: cands[i - 1] })
        } else {
            prev
        }
    }
}

/// The bubbles confirmed by one round's candidates.
pub open spec fn collect_bubbles(st: StateModel, cands: Seq<u64>) -> Seq<Bubble> {
    collect_upto(st, cands, cands.len() as int)
}

/// One step of the scan.
///
/// With a search in progress, one round of it runs: its candidates are
/// checked in ascending order and every confirmed bubble is recorded; on
/// success the bubble's end is enqueued as the next node to process and
/// the divergence node becomes visited.  A stalled round drives the
/// restart heuristic, abandoning the divergence once `maxr` probes have
/// been spent.  With no search in progress, one node is popped: an
/// already-visited node is discarded; a node with right out-degree above
/// one opens a search seeded at its right-neighbors; any other node is
/// marked visited and its right-neighbors are enqueued.
pub open spec fn dstep(d: DriverModel, g: HashGraph, maxr: nat) -> DriverModel {
    match d.search {
        Some(s) => {
            let st1 = prop_state(s.st, g);
            let cands = prop_cands(s.st, g);
            let found = collect_bubbles(st1, cands);
            if found.len() > 0 {
                DriverModel {
                    visited: sorted_insert_seq(d.visited, s.nid),
                    queue: d.queue.push(found.last().end),
                    bubbles: d.bubbles + found,
                    search: None,
                }
            } else if !can_cont(st1) {
                if s.restarts >= maxr {
                    DriverModel {
                        visited: sorted_insert_seq(d.visited, s.nid),
                        queue: d.queue + adj(g, s.nid),
                        bubbles: d.bubbles,
                        search: None,
                    }
                } else {
                    match s.loop_end {
                        None => DriverModel {
                            search: Some(
                                SearchModel { st: st1, loop_end: Some(s.nid), ..s },
                            ),
                            ..d
                        },
                        Some(l) => DriverModel {
                            queue: d.queue.push(wrap_succ(l)),
                            search: Some(
                                SearchModel {
                                    st: st1,
                                    loop_end: Some(wrap_succ(l)),
                                    restarts: s.restarts + 1,
                                    ..s
                                },
                            ),
                            ..d
                        },
                    }
                }
            } else {
                DriverModel { search: Some(SearchModel { st: st1, ..s }), ..d }
            }
        },
        None => {
            if d.queue.len() == 0 {
                d
            } else {
                let n = d.queue[0];
                let q = d.queue.drop_first();
                if d.visited.contains(n) {
                    DriverModel { queue: q, ..d }
                } else {
                    let nb = adj(g, n);
                    if nb.len() > 1 {
                        DriverModel {
                            queue: q,
                            search: Some(
                                SearchModel {
                                    nid: n,
                                    st: init_state(nb.len(), n, nb),
                                    loop_end: None,
                                    restarts: 0,
                                },
                            ),
                            ..d
                        }
                    } else {
                        DriverModel {
                            visited: sorted_insert_seq(d.visited, n),
                            queue: q + nb,
                            bubbles: d.bubbles,
                            search: None,
                        }
                    }
                }
            }
        },
    }
}

/// `n` steps of the scan.
pub open spec fn dsteps(d: DriverModel, g: HashGraph, maxr: nat, n: nat) -> DriverModel
    decreases n,
{
    if n == 0 {
        d
    } else {
        dstep(dsteps(d, g, maxr, (n - 1) as nat), g, maxr)
    }
}

/// Some number of steps from the start reaches a terminal state.
pub open spec fn scan_terminates(g: HashGraph, maxr: nat, start: u64) -> bool {
    exists|n: nat| terminal(dsteps(init_driver(start), g, maxr, n))
}

/// The terminal state the scan reaches from `start`.  All terminal
/// states reachable from one start agree, so the choice does not matter.
pub open spec fn scan_result(g: HashGraph, maxr: nat, start: u64) -> DriverModel {
    dsteps(
        init_driver(start),
        g,
        maxr,
        choose|n: nat| terminal(dsteps(init_driver(start), g, maxr, n)),
    )
}

/// A terminal state is a fixpoint of the scan.
pub proof fn lemma_terminal_stays(d: DriverModel, g: HashGraph, maxr: nat, n: nat)
    requires
        terminal(d),
    ensures
        dsteps(d, g, maxr, n) == d,
    decreases n,
{
    if n > 0 {
        lemma_terminal_stays(d, g, maxr, (n - 1) as nat);
    }
}

/// Running `m` steps and then `n` more is running `m + n` steps.
pub proof fn lemma_dsteps_add(d: DriverModel, g: HashGraph, maxr: nat, m: nat, n: nat)
    ensures
        dsteps(d, g, maxr, (m + n) as nat) == dsteps(dsteps(d, g, maxr, m), g, maxr, n),
    decreases n,
{
    if n > 0 {
        lemma_dsteps_add(d, g, maxr, m, (n - 1) as nat);
        assert(((m + n) as nat - 1) as nat == (m + ((n - 1) as nat)) as nat);
    }
}

/// The scan is deterministic: any two step counts that both reach a
/// terminal state reach the same state.
pub proof fn lemma_terminal_agree(start: u64, g: HashGraph, maxr: nat, a: nat, b: nat)
    requires
        terminal(dsteps(init_driver(start), g, maxr, a)),
        terminal(dsteps(init_driver(start), g, maxr, b)),
    ensures
        dsteps(init_driver(start), g, maxr, a) == dsteps(init_driver(start), g, maxr, b),
{
    let d0 = init_driver(start);
    if a <= b {
        lemma_dsteps_add(d0, g, maxr, a, (b - a) as nat);
        lemma_terminal_stays(dsteps(d0, g, maxr, a), g, maxr, (b - a) as nat);
    } else {
        lemma_dsteps_add(d0, g, maxr, b, (a - b) as nat);
        lemma_terminal_stays(dsteps(d0, g, maxr, b), g, maxr, (a - b) as nat);
    }
}

/// The probe successor of an id, wrapping at the top of the id space.
fn succ(n: u64) -> (r: u64)
    ensures
        r == wrap_succ(n),
{
    if n == u64::MAX {
        0
    } else {
        n + 1
    }
}

/// Append every element of `items` to `queue`, in order.
fn push_all(queue: &mut Vec<u64>, items: &Vec<u64>)
    ensures
        final(queue)@ == old(queue)@ + items@,
{
    let mut k: usize = 0;
    while k < items.len()
        invariant
            k <= items.len(),
            queue@ == old(queue)@ + items@.subrange(0, k as int),
        decreases items.len() - k,
    {
        queue.push(items[k]);
        proof {
            assert(queue@ =~= old(queue)@ + items@.subrange(0, k + 1 as int));
        }
        k += 1;
    }
    proof {
        assert(items@.subrange(0, items@.len() as int) =~= items@);
    }
}

/// Scan the whole graph once from `start`, with the given restart bound,
/// and return the bubbles found, in discovery order: exactly the bubbles
/// of the terminal state of the scan machine.
#[verifier::loop_isolation(false)]
#[verifier::rlimit(60)]
pub fn find_bubbles_with(graph: &HashGraph, start: u64, max_restarts: usize) -> (r: Vec<Bubble>)
    ensures
        scan_terminates(*graph, max_restarts as nat, start),
        r@ == scan_result(*graph, max_restarts as nat, start).bubbles,
{
    let ghost g = *graph;
    let ghost maxr = max_restarts as nat;
    let ghost d0 = init_driver(start);
    let nodes = graph_node_ids(graph);
    let mut visited: Vec<u64> = Vec::new();
    let mut queue: Vec<u64> = Vec::new();
    queue.push(start);
    let mut bubbles: Vec<Bubble> = Vec::new();
    let ghost mut k: nat = 0;
    proof {
        assert(dsteps(d0, g, maxr, 0) == d0);
        assert(queue@ =~= seq![start]);
    }
    while queue.len() > 0
        invariant
            strictly_sorted(visited@),
            (dsteps(d0, g, maxr, k).search is None),
            dsteps(d0, g, maxr, k).visited == visited@,
            dsteps(d0, g, maxr, k).queue == queue@,
            dsteps(d0, g, maxr, k).bubbles == bubbles@,
        decreases missing_count(nodes@, visited@), queue@.len(),
    {
        let ghost dpre = dsteps(d0, g, maxr, k);
        let nid = queue.remove(0);
        proof {
            assert(queue@ =~= dpre.queue.drop_first());
        }
        if crate::order::vec_contains(&visited, nid) {
            proof {
                k = (k + 1) as nat;
                assert(dsteps(d0, g, maxr, k) == dstep(dpre, g, maxr));
                assert(dstep(dpre, g, maxr) =~= (DriverModel {
                    queue: dpre.queue.drop_first(),
                    ..dpre
                }));
            }
        } else {
            let deg = graph_right_degree(graph, nid);
            if deg > 1 {
                let nbs = graph_right_neighbors(graph, nid);
                proof {
                    assert(adj(g, nid).len() > 1);
                    assert(node_in(g, nid));
                    assert(nodes@.contains(nid));
                }
                let mut bubble = BubbleState::new(deg, nid, &nbs);
                let ghost vpre = visited@;
                proof {
                    k = (k + 1) as nat;
                    assert(dsteps(d0, g, maxr, k) == dstep(dpre, g, maxr));
                    assert(dstep(dpre, g, maxr) =~= (DriverModel {
                        queue: dpre.queue.drop_first(),
                        search: Some(
                            SearchModel {
                                nid,
                                st: init_state(adj(g, nid).len(), nid, adj(g, nid)),
                                loop_end: None,
                                restarts: 0,
                            },
                        ),
                        ..dpre
                    }));
                }
                let mut found = false;
                let mut done = false;
                let mut loop_end: Option<u64> = None;
                let mut restarts: usize = 0;
                while !done
                    invariant
                        strictly_sorted(visited@),
                        dsteps(d0, g, maxr, k).visited == visited@,
                        dsteps(d0, g, maxr, k).queue == queue@,
                        dsteps(d0, g, maxr, k).bubbles == bubbles@,
                        !done ==> restarts <= max_restarts,
                        !done ==> bubble.wf(),
                        !done ==> !found,
                        !done ==> visited@ == vpre,
                        !done ==> (dsteps(d0, g, maxr, k).search == Some(
                            SearchModel {
                                nid,
                                st: bubble@,
                                loop_end,
                                restarts: restarts as nat,
                            },
                        )),
                        done ==> (dsteps(d0, g, maxr, k).search is None),
                        done ==> visited@ == sorted_insert_seq(vpre, nid),
                    decreases
                            (if done {
                                0int
                            } else {
                                1int
                            }),
                            state_potential(g, nodes@, bubble@),
                            (if loop_end is None {
                                1int
                            } else {
                                0int
                            }),
                            max_restarts - restarts,
                {
                    let ghost din = dsteps(d0, g, maxr, k);
                    let ghost st_pre = bubble@;
                    let cand_opt = bubble.propagate(graph);
                    let ghost st1 = bubble@;
                    let ghost cands = prop_cands(st_pre, g);
                    let ghost bpre = bubbles@;
                    if let Some(ends) = cand_opt {
                        let mut ei: usize = 0;
                        while ei < ends.len()
                            invariant
                                ei <= ends.len(),
                                ends@ == cands,
                                bubble@ == st1,
                                bubbles@ == bpre + collect_upto(st1, cands, ei as int),
                                found == (collect_upto(st1, cands, ei as int).len() > 0),
                            decreases ends.len() - ei,
                        {
                            if let Some(bb) = bubble.check_finished(ends[ei]) {
                                found = true;
                                bubbles.push(bb);
                            }
                            proof {
                                assert(bubbles@ =~= bpre + collect_upto(
                                    st1,
                                    cands,
                                    ei + 1 as int,
                                ));
                            }
                            ei += 1;
                        }
                        proof {
                            assert(collect_upto(st1, cands, ends@.len() as int)
                                == collect_bubbles(st1, cands));
                        }
                    } else {
                        proof {
                            lemma_collect_empty(st1, cands);
                        }
                    }
                    let ghost newb = collect_bubbles(st1, cands);
                    proof {
                        assert(bubbles@ == bpre + newb);
                        assert(found == (newb.len() > 0));
                    }
                    if found {
                        let lastb = bubbles[bubbles.len() - 1];
                        queue.push(lastb.end);
                        sorted_insert(&mut visited, nid);
                        proof {
                            lemma_sorted_insert_props(vpre, nid);
                            k = (k + 1) as nat;
                            assert(dsteps(d0, g, maxr, k) == dstep(din, g, maxr));
                            assert(dstep(din, g, maxr) =~= (DriverModel {
                                visited: sorted_insert_seq(din.visited, nid),
                                queue: din.queue.push(newb.last().end),
                                bubbles: din.bubbles + newb,
                                search: None,
                            }));
                        }
                        done = true;
                    } else if !bubble.can_continue() {
                        proof {
                            if !can_cont(st_pre) {
                                lemma_exhausted_stays(st_pre, g);
                            }
                            lemma_state_potential_step(g, nodes@, st_pre);
                        }
                        if restarts >= max_restarts {
                            let nbs2 = graph_right_neighbors(graph, nid);
                            push_all(&mut queue, &nbs2);
                            sorted_insert(&mut visited, nid);
                            proof {
                                lemma_sorted_insert_props(vpre, nid);
                                k = (k + 1) as nat;
                                assert(dsteps(d0, g, maxr, k) == dstep(din, g, maxr));
                                assert(dstep(din, g, maxr) =~= (DriverModel {
                                    visited: sorted_insert_seq(din.visited, nid),
                                    queue: din.queue + adj(g, nid),
                                    bubbles: din.bubbles,
                                    search: None,
                                }));
                            }
                            done = true;
                        } else {
                            match loop_end {
                                None => {
                                    loop_end = Some(nid);
                                    proof {
                                        k = (k + 1) as nat;
                                        assert(dsteps(d0, g, maxr, k) == dstep(din, g, maxr));
                                        assert(dstep(din, g, maxr) =~= (DriverModel {
                                            search: Some(
                                                SearchModel {
                                                    nid,
                                                    st: st1,
                                                    loop_end: Some(nid),
                                                    restarts: restarts as nat,
                                                },
                                            ),
                                            ..din
                                        }));
                                    }
                                },
                                Some(l) => {
                                    let p = succ(l);
                                    queue.push(p);
                                    restarts = restarts + 1;
                                    loop_end = Some(p);
                                    proof {
                                        k = (k + 1) as nat;
                                        assert(dsteps(d0, g, maxr, k) == dstep(din, g, maxr));
                                        assert(dstep(din, g, maxr) =~= (DriverModel {
                                            queue: din.queue.push(wrap_succ(l)),
                                            search: Some(
                                                SearchModel {
                                                    nid,
                                                    st: st1,
                                                    loop_end: Some(wrap_succ(l)),
                                                    restarts: restarts as nat,
                                                },
                                            ),
                                            ..din
                                        }));
                                    }
                                },
                            }
                        }
                    } else {
                        proof {
                            if !can_cont(st_pre) {
                                lemma_exhausted_stays(st_pre, g);
                                assert(false);
                            }
                            lemma_state_potential_step(g, nodes@, st_pre);
                            k = (k + 1) as nat;
                            assert(dsteps(d0, g, maxr, k) == dstep(din, g, maxr));
                            assert(dstep(din, g, maxr) =~= (DriverModel {
                                search: Some(
                                    SearchModel {
                                        nid,
                                        st: st1,
                                        loop_end,
                                        restarts: restarts as nat,
                                    },
                                ),
                                ..din
                            }));
                        }
                    }
                }
                proof {
                    lemma_sorted_insert_props(vpre, nid);
                    lemma_missing_count_insert(nodes@, vpre, visited@, nid);
                }
            } else {
                let nbs = graph_right_neighbors(graph, nid);
                let ghost vpre = visited@;
                push_all(&mut queue, &nbs);
                sorted_insert(&mut visited, nid);
                proof {
                    lemma_sorted_insert_props(vpre, nid);
                    lemma_missing_count_insert(nodes@, vpre, visited@, nid);
                    if !node_in(g, nid) || !crate::graph::handle_ok(nid) {
                        assert(adj(g, nid) =~= Seq::<u64>::empty());
                    } else {
                        assert(nodes@.contains(nid));
                    }
                    k = (k + 1) as nat;
                    assert(dsteps(d0, g, maxr, k) == dstep(dpre, g, maxr));
                    assert(dstep(dpre, g, maxr) =~= (DriverModel {
                        visited: sorted_insert_seq(dpre.visited, nid),
                        queue: dpre.queue.drop_first() + adj(g, nid),
                        bubbles: dpre.bubbles,
                        search: None,
                    }));
                }
            }
        }
    }
    proof {
        let df = dsteps(d0, g, maxr, k);
        assert(terminal(df));
        assert(scan_terminates(g, maxr, start));
        let n0 = choose|n: nat| terminal(dsteps(d0, g, maxr, n));
        lemma_terminal_agree(start, g, maxr, k, n0);
    }
    bubbles
}

/// A round that yielded no candidates confirms no bubbles.
proof fn lemma_collect_empty(st: StateModel, cands: Seq<u64>)
    requires
        cands.len() == 0,
    ensures
        collect_bubbles(st, cands) =~= Seq::<Bubble>::empty(),
{
}

/// Scan the whole graph once from `start` with the default restart
/// bound.
pub fn find_bubbles(graph: &HashGraph, start: u64) -> (r: Vec<Bubble>)
    ensures
        scan_terminates(*graph, DEFAULT_MAX_RESTARTS as nat, start),
        r@ == scan_result(*graph, DEFAULT_MAX_RESTARTS as nat, start).bubbles,
{
    find_bubbles_with(graph, start, DEFAULT_MAX_RESTARTS)
}

/// The concatenated results of up to `fuel` scans, each resuming just
/// past the previous scan's last bubble end, stopping early on a scan
/// that finds nothing.
pub open spec fn rounds_result(g: HashGraph, maxr: nat, start: u64, fuel: nat) -> Seq<Bubble>
    decreases fuel,
{
    if fuel == 0 {
        Seq::empty()
    } else {
        let part = scan_result(g, maxr, start).bubbles;
        if part.len() == 0 {
            Seq::empty()
        } else {
            part + rounds_result(g, maxr, wrap_succ(part.last().end), (fuel - 1) as nat)
        }
    }
}

/// Run the scan up to ten times, resuming each run just past the last
/// bubble's end, and concatenate the results in discovery order.
pub fn find_bubbles_rounds(graph: &HashGraph, start: u64) -> (r: Vec<Bubble>)
    ensures
        r@ == rounds_result(
            *graph,
            DEFAULT_MAX_RESTARTS as nat,
            start,
            DEFAULT_ROUNDS as nat,
        ),
{
    let ghost g = *graph;
    let ghost maxr = DEFAULT_MAX_RESTARTS as nat;
    let mut out: Vec<Bubble> = Vec::new();
    let mut cur = start;
    let mut i: usize = 0;
    loop
        invariant_except_break
            i <= DEFAULT_ROUNDS,
            out@ + rounds_result(g, maxr, cur, (DEFAULT_ROUNDS - i) as nat) == rounds_result(
                g,
                maxr,
                start,
                DEFAULT_ROUNDS as nat,
            ),
            g == *graph,
            maxr == DEFAULT_MAX_RESTARTS as nat,
        ensures
            out@ == rounds_result(g, maxr, start, DEFAULT_ROUNDS as nat),
        decreases DEFAULT_ROUNDS - i,
    {
        if i == DEFAULT_ROUNDS {
            proof {
                assert(rounds_result(g, maxr, cur, 0) =~= Seq::<Bubble>::empty());
                assert(out@ =~= out@ + Seq::<Bubble>::empty());
            }
            break;
        }
        let mut part = find_bubbles_with(graph, cur, DEFAULT_MAX_RESTARTS);
        proof {
            assert(part@ == scan_result(g, maxr, cur).bubbles);
        }
        if part.len() == 0 {
            proof {
                assert(rounds_result(g, maxr, cur, (DEFAULT_ROUNDS - i) as nat) =~= Seq::<
                    Bubble,
                >::empty());
                assert(out@ =~= out@ + Seq::<Bubble>::empty());
            }
            break;
        }
        let last_end = part[part.len() - 1].end;
        let ghost fuel = (DEFAULT_ROUNDS - i) as nat;
        proof {
            assert(rounds_result(g, maxr, cur, fuel) == part@ + rounds_result(
                g,
                maxr,
                wrap_succ(last_end),
                (fuel - 1) as nat,
            ));
        }
        let ghost opre = out@;
        out.append(&mut part);
        proof {
            assert(opre + rounds_result(g, maxr, cur, fuel) =~= out@ + rounds_result(
                g,
                maxr,
                wrap_succ(last_end),
                (fuel - 1) as nat,
            ));
        }
        cur = succ(last_end);
        i += 1;
    }
    out
}

} // verus!
