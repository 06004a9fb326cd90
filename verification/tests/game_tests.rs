use edge_game::engine::net_score_plain;
use edge_game::canon::{CanonicalEdges, Vertex};
use edge_game::gen::{edges_for_complete_graph, edges_for_m_by_n_grid, edges_for_wheel};
use edge_game::graph::GameGraph;
use edge_game::laws::canonical_key_is_stable;
use edge_game::runner::{outcome_of, GameOutcome, GameRunner};

#[test]
fn self_loop_is_terminal_and_worth_one() {
    let mut g = GameGraph::new(vec![(0, 0)]);
    assert!(g.is_tree());
    assert_eq!(net_score_plain(&vec![(0, 0)]), 1);
}

#[test]
fn path_and_star_and_two_trees_are_forests() {
    let mut path = GameGraph::new(vec![(0, 1), (1, 2), (2, 3)]);
    assert!(path.is_tree());
    let mut star = GameGraph::new(vec![(0, 1), (0, 2), (0, 3)]);
    assert!(star.is_tree());
    let mut two_trees = GameGraph::new(vec![(0, 1), (1, 2), (3, 4)]);
    assert!(two_trees.is_tree());
}

#[test]
fn cycle_and_overfull_graphs_are_not_forests() {
    // One edge more than a spanning tree of the same vertices.
    let mut triangle = GameGraph::new(vec![(0, 1), (1, 2), (2, 0)]);
    assert!(!triangle.is_tree());
    // Two parallel edges: a cycle of length two.
    let mut doubled = GameGraph::new(vec![(0, 1), (0, 1)]);
    assert!(!doubled.is_tree());
    // More edges than vertices: the short-circuit answer.
    let mut overfull = GameGraph::new(vec![(0, 1), (0, 1), (0, 1)]);
    assert!(!overfull.is_tree());
}

#[test]
fn forest_value_is_vertex_count() {
    assert_eq!(net_score_plain(&vec![(0, 1), (1, 2)]), 3);
    assert_eq!(net_score_plain(&vec![(0, 1), (0, 2), (0, 3)]), 4);
    assert_eq!(net_score_plain(&vec![(0, 1), (1, 2), (3, 4)]), 5);
}

#[test]
fn triangle_value_is_minus_three() {
    // Any first cut leaves a 3-vertex path, a forest worth 3 to the opponent.
    assert_eq!(net_score_plain(&vec![(0, 1), (1, 2), (2, 0)]), -3);
}

#[test]
fn triangle_value_is_reproducible() {
    let a = net_score_plain(&vec![(0, 1), (1, 2), (2, 0)]);
    let b = net_score_plain(&vec![(0, 1), (1, 2), (2, 0)]);
    assert_eq!(a, b);
}

#[test]
fn score_stays_within_vertex_count_bounds() {
    let edges = vec![(0, 1), (1, 2), (2, 0), (0, 3)];
    let v = 4i64;
    let score = net_score_plain(&edges);
    assert!(-v <= score && score <= v);
}

#[test]
fn memoized_search_matches_plain_search() {
    let cases: Vec<Vec<(usize, usize)>> = vec![
        vec![(0, 0)],
        vec![(0, 1), (1, 2), (2, 0)],
        vec![(0, 1), (1, 2), (2, 0), (0, 3)],
        edges_for_m_by_n_grid(2, 2),
        edges_for_complete_graph(3),
    ];
    for edges in cases {
        let plain = net_score_plain(&edges);
        let mut runner = GameRunner::new(edges);
        assert_eq!(runner.run(), plain);
    }
}

#[test]
fn memoized_search_reuses_stored_scores() {
    let mut runner = GameRunner::new(vec![(0, 1), (1, 2), (2, 0)]);
    let first = runner.run();
    // The second run answers from the table alone and must agree.
    let second = runner.run();
    assert_eq!(first, second);
    assert!(!runner.memo_pairs().is_empty());
}

#[test]
fn preloaded_memo_entry_decides_the_answer() {
    // A stored score under the position's key short-circuits the search.
    let mut g = GameGraph::new(vec![(0, 1), (1, 2), (2, 0)]);
    let key = g.get_key();
    let mut runner = GameRunner::new(vec![(0, 1), (1, 2), (2, 0)]);
    runner.preload_memo(key, 42);
    assert_eq!(runner.run(), 42);
}

#[test]
fn memo_pairs_round_trip_through_lines() {
    let mut runner = GameRunner::new(vec![(0, 1)]);
    runner.preload_memo(String::from("0-1"), -7);
    let pairs = runner.memo_pairs();
    assert_eq!(pairs.len(), 1);
    let line = edge_game::text::render_memo_line(&pairs[0].0, pairs[0].1);
    assert_eq!(line, "0-1,-7");
    let parsed = edge_game::text::parse_memo_line(&line).unwrap();
    assert_eq!(parsed.0, "0-1");
    assert_eq!(parsed.1, -7);
}

#[test]
fn edge_cut_scores_two_for_a_lone_edge() {
    let runner = GameRunner::new(vec![(0, 1)]);
    let g = GameGraph::new(vec![(0, 1)]);
    let (after, points) = runner.cut_edge(&g, (0, 1));
    assert_eq!(points, 2);
    assert_eq!(after.num_vertices, 0);
    assert!(!after.contains_vertex(0));
    assert!(!after.contains_vertex(1));
}

#[test]
fn edge_cut_scores_zero_when_both_endpoints_stay() {
    let runner = GameRunner::new(vec![(0, 1), (1, 2), (2, 0)]);
    let g = GameGraph::new(vec![(0, 1), (1, 2), (2, 0)]);
    let (after, points) = runner.cut_edge(&g, (0, 1));
    assert_eq!(points, 0);
    assert_eq!(after.num_edges, 2);
    assert!(after.contains_vertex(0));
    assert!(after.contains_vertex(1));
}

#[test]
fn edge_cut_removes_one_occurrence_only() {
    let runner = GameRunner::new(vec![(0, 1), (0, 1)]);
    let g = GameGraph::new(vec![(0, 1), (0, 1)]);
    let (after, points) = runner.cut_edge(&g, (0, 1));
    assert_eq!(points, 0);
    assert_eq!(after.num_edges, 1);
    assert!(after.contains_vertex(0));
}

#[test]
fn canonical_key_of_a_self_loop() {
    let mut g = GameGraph::new(vec![(0, 0)]);
    assert_eq!(g.get_key(), "0-0");
}

#[test]
fn canonical_key_of_the_triangle() {
    let mut g = GameGraph::new(vec![(0, 1), (1, 2), (2, 0)]);
    assert_eq!(g.get_key(), "0-1|0-2|1-2");
}

#[test]
fn canonical_key_is_isomorphism_invariant() {
    let mut a = GameGraph::new(vec![(0, 1), (1, 2), (2, 0)]);
    let mut b = GameGraph::new(vec![(5, 7), (7, 9), (9, 5)]);
    assert_eq!(a.get_key(), b.get_key());
    let mut p = GameGraph::new(vec![(0, 1), (1, 2)]);
    let mut q = GameGraph::new(vec![(10, 11), (11, 12)]);
    assert_eq!(p.get_key(), q.get_key());
    let mut s = GameGraph::new(vec![(0, 1), (0, 2), (0, 3)]);
    let mut t = GameGraph::new(vec![(9, 4), (9, 6), (9, 8)]);
    assert_eq!(s.get_key(), t.get_key());
}

#[test]
fn canonical_key_is_order_invariant() {
    let mut a = GameGraph::new(vec![(0, 1), (1, 2), (2, 0)]);
    let mut b = GameGraph::new(vec![(2, 0), (0, 1), (1, 2)]);
    assert_eq!(a.get_key(), b.get_key());
    let mut p = GameGraph::new(vec![(3, 4), (4, 5), (5, 6)]);
    let mut q = GameGraph::new(vec![(5, 6), (3, 4), (4, 5)]);
    assert_eq!(p.get_key(), q.get_key());
}

#[test]
fn canonical_key_is_idempotent() {
    let mut g = GameGraph::new(vec![(0, 1), (1, 2), (2, 0), (0, 3)]);
    let (first, second) = canonical_key_is_stable(&mut g);
    assert_eq!(first, second);
}

#[test]
fn complete_graph_of_three_is_the_triangle() {
    assert_eq!(edges_for_complete_graph(3), vec![(0, 1), (0, 2), (1, 2)]);
}

#[test]
fn two_by_two_grid_is_all_border_loops() {
    assert_eq!(
        edges_for_m_by_n_grid(2, 2),
        vec![(0, 0), (0, 0), (1, 1), (1, 1), (2, 2), (2, 2), (3, 3), (3, 3)]
    );
}

#[test]
fn three_by_three_grid_wires_the_interior() {
    let edges = edges_for_m_by_n_grid(3, 3);
    assert_eq!(edges.len(), 18);
    // The center cell 4 links down to 7 and right to 5.
    assert_eq!(edges[8], (4, 7));
    assert_eq!(edges[9], (4, 5));
    // A top-row cell loops vertically.
    assert_eq!(edges[0], (0, 0));
}

#[test]
fn wheel_of_three_has_rim_and_spokes() {
    assert_eq!(
        edges_for_wheel(3),
        vec![(0, 1), (0, 3), (1, 2), (1, 3), (2, 0), (2, 3)]
    );
}

#[test]
fn vertex_counts_neighbors_and_loops() {
    let v = Vertex::new(2, vec![1, 2, 3, 2]);
    assert_eq!(v.num_neighbors, 4);
    assert_eq!(v.num_loops, 2);
    let mut w = Vertex::new(0, vec![1]);
    w.add_neighbor(0);
    assert_eq!(w.num_neighbors, 2);
    assert_eq!(w.num_loops, 1);
}

#[test]
fn labeler_relabels_onto_small_ids() {
    let mut labeler = CanonicalEdges::new(vec![(10, 20), (20, 30)]);
    let canonical = labeler.calc();
    assert_eq!(canonical, vec![(0, 2), (1, 2)]);
}

#[test]
fn labeler_keeps_every_edge_occurrence() {
    // Parallel edges and a self-loop each survive the relabeling once.
    let mut labeler = CanonicalEdges::new(vec![(7, 8), (7, 8), (8, 8), (8, 9)]);
    let canonical = labeler.calc();
    assert_eq!(canonical.len(), 4);
}

#[test]
fn parse_edge_lines() {
    assert_eq!(edge_game::text::parse_edge_line("3,5"), Some((3, 5)));
    assert_eq!(edge_game::text::parse_edge_line("0,0"), Some((0, 0)));
    // Extra fields are ignored, as the loader ignores them.
    assert_eq!(edge_game::text::parse_edge_line("7,8,9"), Some((7, 8)));
    assert_eq!(edge_game::text::parse_edge_line("x,5"), None);
    assert_eq!(edge_game::text::parse_edge_line("35"), None);
    assert_eq!(edge_game::text::parse_edge_line(""), None);
    assert_eq!(edge_game::text::parse_edge_line("3,"), None);
}

#[test]
fn parse_memo_lines() {
    let p = edge_game::text::parse_memo_line("0-1|0-2|1-2,-3").unwrap();
    assert_eq!(p.0, "0-1|0-2|1-2");
    assert_eq!(p.1, -3);
    let q = edge_game::text::parse_memo_line("0-0,1").unwrap();
    assert_eq!(q.0, "0-0");
    assert_eq!(q.1, 1);
    assert_eq!(edge_game::text::parse_memo_line("nocomma"), None);
    assert_eq!(edge_game::text::parse_memo_line("k,notanumber"), None);
    assert_eq!(edge_game::text::parse_memo_line("k,"), None);
    let extreme = edge_game::text::parse_memo_line("k,-9223372036854775808").unwrap();
    assert_eq!(extreme.1, i64::MIN);
}

#[test]
fn outcome_announcements() {
    assert!(matches!(outcome_of(3), GameOutcome::PlayerOneWins));
    assert!(matches!(outcome_of(-1), GameOutcome::PlayerTwoWins));
    assert!(matches!(outcome_of(0), GameOutcome::Tie));
}

#[test]
fn progress_tracks_shallowest_solved_level() {
    let mut runner = GameRunner::new(vec![(0, 1), (1, 2), (2, 0)]);
    assert_eq!(runner.track_progress(5), None);
    assert_eq!(runner.track_progress(3), Some((3, 1)));
    assert_eq!(runner.track_progress(3), Some((3, 2)));
    assert_eq!(runner.track_progress(1), Some((1, 1)));
    assert_eq!(runner.track_progress(2), None);
}

#[test]
fn search_records_progress_milestones() {
    // The triangle's root position is the only one at or above the top
    // level, so exactly one milestone is recorded.
    let mut runner = GameRunner::new(vec![(0, 1), (1, 2), (2, 0)]);
    assert!(runner.milestones.is_empty());
    runner.run();
    assert_eq!(runner.milestones, vec![(0, 1)]);
}

#[test]
fn grid_game_runs_both_ways() {
    let edges = edges_for_m_by_n_grid(2, 3);
    let plain = net_score_plain(&edges);
    let mut runner = GameRunner::new(edges);
    let memoized = runner.run();
    assert_eq!(plain, memoized);
    assert!(plain.abs() <= 6);
}
