use bubbles::driver::{find_bubbles, find_bubbles_rounds, find_bubbles_with};
use bubbles::graph::{graph_right_degree, graph_right_neighbors};
use bubbles::state::BubbleState;
use bubbles::Bubble;

use handlegraph::handle::{Edge, Handle, NodeId};
use handlegraph::hashgraph::HashGraph;
use handlegraph::mutablehandlegraph::MutableHandleGraph;

fn fwd(id: u64) -> Handle {
    Handle::pack(NodeId::from(id), false)
}

fn graph_from_edges(node_count: u64, edges: &[(u64, u64)]) -> HashGraph {
    let mut g = HashGraph::new();
    for id in 1..=node_count {
        g.create_handle("A", NodeId::from(id));
    }
    for (a, b) in edges {
        g.create_edge(&Edge(fwd(*a), fwd(*b)));
    }
    g
}

fn diamond() -> HashGraph {
    graph_from_edges(4, &[(1, 2), (1, 3), (2, 4), (3, 4)])
}

#[test]
fn diamond_yields_one_bubble() {
    let g = diamond();
    let bubbles = find_bubbles(&g, 1);
    assert_eq!(bubbles, vec![Bubble { start: 1, end: 4 }]);
}

#[test]
fn diamond_rounds_yield_one_bubble() {
    let g = diamond();
    let bubbles = find_bubbles_rounds(&g, 1);
    assert_eq!(bubbles, vec![Bubble { start: 1, end: 4 }]);
}

#[test]
fn linear_chain_yields_no_bubble() {
    let g = graph_from_edges(3, &[(1, 2), (2, 3)]);
    assert!(find_bubbles(&g, 1).is_empty());
    assert!(find_bubbles_rounds(&g, 1).is_empty());
}

#[test]
fn chained_diamonds_yield_two_bubbles_in_order() {
    let g = graph_from_edges(
        8,
        &[
            (1, 2),
            (1, 3),
            (2, 4),
            (3, 4),
            (4, 5),
            (5, 6),
            (5, 7),
            (6, 8),
            (7, 8),
        ],
    );
    let expected = vec![Bubble { start: 1, end: 4 }, Bubble { start: 5, end: 8 }];
    assert_eq!(find_bubbles(&g, 1), expected);
    assert_eq!(find_bubbles_rounds(&g, 1), expected);
}

/// A divergence whose branches run into a cycle that never converges:
/// the bounded restart heuristic must fire and the scan must still
/// terminate with no bubble.
#[test]
fn unconverging_cycle_terminates_with_no_bubble() {
    let g = graph_from_edges(
        7,
        &[(1, 2), (1, 3), (2, 3), (2, 6), (3, 2), (3, 7)],
    );
    assert!(find_bubbles(&g, 1).is_empty());
    assert!(find_bubbles_rounds(&g, 1).is_empty());
}

#[test]
fn unconverging_cycle_with_zero_restarts() {
    let g = graph_from_edges(
        7,
        &[(1, 2), (1, 3), (2, 3), (2, 6), (3, 2), (3, 7)],
    );
    assert!(find_bubbles_with(&g, 1, 0).is_empty());
}

/// The probe restarts of a stalled divergence enqueue ids past the stall
/// point, so a component unreachable by edges can still be scanned.
#[test]
fn restart_probes_reach_a_detached_diamond() {
    let g = graph_from_edges(7, &[(1, 2), (1, 3), (4, 5), (4, 6), (5, 7), (6, 7)]);
    assert_eq!(find_bubbles(&g, 1), vec![Bubble { start: 4, end: 7 }]);
    // with no restarts allowed, the detached diamond stays unseen
    assert!(find_bubbles_with(&g, 1, 0).is_empty());
}

/// A later round resumes just past the last bubble's end and can pick up
/// a component the first round never reached.
#[test]
fn rounds_resume_past_last_bubble() {
    let g = graph_from_edges(
        8,
        &[(1, 2), (1, 3), (2, 4), (3, 4), (5, 6), (5, 7), (6, 8), (7, 8)],
    );
    assert_eq!(find_bubbles(&g, 1), vec![Bubble { start: 1, end: 4 }]);
    assert_eq!(
        find_bubbles_rounds(&g, 1),
        vec![Bubble { start: 1, end: 4 }, Bubble { start: 5, end: 8 }]
    );
}

#[test]
fn scan_from_missing_node_finds_nothing() {
    let g = diamond();
    assert!(find_bubbles(&g, 99).is_empty());
}

#[test]
fn degree_counts_right_edges() {
    let g = diamond();
    assert_eq!(graph_right_degree(&g, 1), 2);
    assert_eq!(graph_right_degree(&g, 2), 1);
    assert_eq!(graph_right_degree(&g, 4), 0);
    assert_eq!(graph_right_degree(&g, 99), 0);
}

#[test]
fn neighbors_are_reported_in_stored_order() {
    let g = diamond();
    assert_eq!(graph_right_neighbors(&g, 1), vec![2, 3]);
    assert_eq!(graph_right_neighbors(&g, 2), vec![4]);
    assert_eq!(graph_right_neighbors(&g, 4), Vec::<u64>::new());
    assert_eq!(graph_right_neighbors(&g, 99), Vec::<u64>::new());
}

#[test]
fn new_state_is_keyed_by_distinct_roots() {
    let nodes = vec![3u64, 2, 3, 2];
    let st = BubbleState::new(2, 1, &nodes);
    let roots: Vec<u64> = st.branches.iter().map(|b| b.root).collect();
    assert_eq!(roots, vec![2, 3]);
    for b in &st.branches {
        assert!(b.visits.is_empty());
        assert!(b.ends.is_empty());
        assert_eq!(b.deque, vec![b.root]);
    }
    assert_eq!(st.start, 1);
    assert_eq!(st.degree, 2);
}

#[test]
fn propagate_reports_the_diamond_candidate() {
    let g = diamond();
    let mut st = BubbleState::new(2, 1, &vec![2u64, 3]);
    assert!(st.can_continue());
    let cands = st.propagate(&g);
    assert_eq!(cands, Some(vec![4u64]));
    assert_eq!(st.check_finished(4), Some(Bubble { start: 1, end: 4 }));
    assert_eq!(st.check_finished(2), None);
}

#[test]
fn check_finished_needs_every_branch() {
    let g = graph_from_edges(4, &[(1, 2), (1, 3), (2, 4)]);
    let mut st = BubbleState::new(2, 1, &vec![2u64, 3]);
    let cands = st.propagate(&g);
    // only the branch rooted at 2 flags node 4
    assert_eq!(cands, Some(vec![4u64]));
    assert_eq!(st.check_finished(4), None);
}

#[test]
fn exhausted_search_stays_exhausted() {
    let g = graph_from_edges(3, &[(1, 2), (1, 3)]);
    let mut st = BubbleState::new(2, 1, &vec![2u64, 3]);
    let mut rounds: usize = 0;
    while st.can_continue() {
        st.propagate(&g);
        rounds += 1;
        assert!(rounds < 100, "search did not exhaust");
    }
    for _ in 0..3 {
        assert_eq!(st.propagate(&g), None);
        assert!(!st.can_continue());
    }
}

#[test]
fn revisited_node_is_discarded_without_effect() {
    // 2 -> 3 -> 2 is a loop; the branch rooted at 2 revisits 2.
    let g = graph_from_edges(3, &[(1, 2), (2, 3), (3, 2)]);
    let mut st = BubbleState::new(1, 1, &vec![2u64]);
    st.propagate(&g); // visits 2, flags 3, queues 3
    st.propagate(&g); // visits 3, flags 2, queues 2
    let visits_before = st.branches[0].visits.clone();
    let ends_before = st.branches[0].ends.clone();
    st.propagate(&g); // pops 2 again: a no-op beyond the pop
    assert_eq!(st.branches[0].visits, visits_before);
    assert_eq!(st.branches[0].ends, ends_before);
    assert!(st.branches[0].deque.is_empty());
}
