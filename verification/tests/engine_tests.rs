use repgraph::engine::AugMultiGraph;
use repgraph::nodes::{kind_from_name, NodeKind};
use repgraph::{read_version, GraphContext, WEIGHT_SCALE};

fn fx(x: f64) -> i128 {
    (x * (WEIGHT_SCALE as f64)).round() as i128
}

#[test]
fn version_string() {
    assert_eq!(read_version(), "0.1.0");
}

#[test]
fn kind_follows_first_character() {
    assert!(kind_from_name("U123") == NodeKind::User);
    assert!(kind_from_name("B123") == NodeKind::Beacon);
    assert!(kind_from_name("C123") == NodeKind::Comment);
    assert!(kind_from_name("X123") == NodeKind::Unknown);
    assert!(kind_from_name("") == NodeKind::Unknown);
}

#[test]
fn graph_context_names() {
    let c = GraphContext::null();
    assert_eq!(c.context_name(), "");
    let c = GraphContext::new("");
    assert_eq!(c.context_name(), "");
    let c = GraphContext::new("X");
    assert_eq!(c.context_name(), "X");
}

#[test]
fn node_ids_are_stable() {
    let mut g = AugMultiGraph::new();
    g.write_put_edge("", "U_a", "U_b", fx(1.0));
    let ida = g.find_node_id("U_a").unwrap();
    let idb = g.find_node_id("U_b").unwrap();
    g.write_put_edge("", "U_c", "U_d", fx(1.0));
    g.write_put_edge("X", "U_e", "U_a", fx(0.5));
    assert_eq!(g.find_node_id("U_a").unwrap(), ida);
    assert_eq!(g.find_node_id("U_b").unwrap(), idb);
}

#[test]
fn composition_across_contexts() {
    // a comment-sourced edge, so the delta rule applies
    let mut g = AugMultiGraph::new();
    g.write_put_edge("X", "C_s", "U_b", fx(1.0));
    let s = g.find_node_id("C_s").unwrap();
    let d = g.find_node_id("U_b").unwrap();
    assert_eq!(g.edge_weight("", s, d), fx(1.0));
    g.write_put_edge("Y", "C_s", "U_b", fx(0.5));
    assert_eq!(g.edge_weight("", s, d), fx(1.5));
    g.write_delete_edge("X", "C_s", "U_b");
    assert_eq!(g.edge_weight("", s, d), fx(0.5));
    assert_eq!(g.edge_weight("X", s, d), 0);
    assert_eq!(g.edge_weight("Y", s, d), fx(0.5));
}

#[test]
fn user_edges_broadcast_to_all_contexts() {
    let mut g = AugMultiGraph::new();
    g.write_create_context("X");
    g.write_create_context("Y");
    g.write_put_edge("X", "U_a", "U_b", fx(1.0));
    let s = g.find_node_id("U_a").unwrap();
    let d = g.find_node_id("U_b").unwrap();
    assert_eq!(g.edge_weight("", s, d), fx(1.0));
    assert_eq!(g.edge_weight("X", s, d), fx(1.0));
    assert_eq!(g.edge_weight("Y", s, d), fx(1.0));
}

#[test]
fn put_edge_twice_is_idempotent() {
    let mut g = AugMultiGraph::new();
    g.write_put_edge("X", "C_s", "U_b", fx(0.7));
    let s = g.find_node_id("C_s").unwrap();
    let d = g.find_node_id("U_b").unwrap();
    let null_w = g.edge_weight("", s, d);
    let x_w = g.edge_weight("X", s, d);
    g.write_put_edge("X", "C_s", "U_b", fx(0.7));
    assert_eq!(g.edge_weight("", s, d), null_w);
    assert_eq!(g.edge_weight("X", s, d), x_w);
}

#[test]
fn put_then_delete_restores_null() {
    let mut g = AugMultiGraph::new();
    g.write_put_edge("Y", "C_s", "U_b", fx(0.3));
    let s = g.find_node_id("C_s").unwrap();
    let d = g.find_node_id("U_b").unwrap();
    let null_before = g.edge_weight("", s, d);
    g.write_put_edge("X", "C_s", "U_b", fx(0.9));
    g.write_delete_edge("X", "C_s", "U_b");
    assert_eq!(g.edge_weight("X", s, d), 0);
    assert_eq!(g.edge_weight("", s, d), null_before);
}

#[test]
fn delete_node_zeroes_outgoing_edges() {
    let mut g = AugMultiGraph::new();
    g.write_put_edge("", "C_s", "U_b", fx(0.4));
    g.write_put_edge("", "C_s", "U_c", fx(0.6));
    let s = g.find_node_id("C_s").unwrap();
    let b = g.find_node_id("U_b").unwrap();
    let c = g.find_node_id("U_c").unwrap();
    g.write_delete_node("", "C_s");
    assert_eq!(g.edge_weight("", s, b), 0);
    assert_eq!(g.edge_weight("", s, c), 0);
    // the node keeps its id
    assert_eq!(g.find_node_id("C_s").unwrap(), s);
}

#[test]
fn read_node_score_uses_cached_ranks() {
    let mut g = AugMultiGraph::new();
    g.write_put_edge("", "U_a", "U_b", fx(1.0));
    let b = g.find_node_id("U_b").unwrap();
    g.put_ranks("", "U_a", vec![(b, fx(0.75))]);
    let rows = g.read_node_score("", "U_a", "U_b");
    assert_eq!(rows.len(), 1);
    assert_eq!(rows[0].0, "U_a");
    assert_eq!(rows[0].1, "U_b");
    assert_eq!(rows[0].2, fx(0.75));
    // the reverse direction has no cached walks: score zero
    let rows = g.read_node_score("", "U_b", "U_a");
    assert_eq!(rows[0].2, 0);
}

#[test]
fn writes_invalidate_rank_cache() {
    let mut g = AugMultiGraph::new();
    g.write_put_edge("", "U_a", "U_b", fx(1.0));
    let b = g.find_node_id("U_b").unwrap();
    g.put_ranks("", "U_a", vec![(b, fx(0.75))]);
    assert!(g.ranks_fresh("", "U_a"));
    g.write_put_edge("", "U_a", "U_c", fx(0.5));
    assert!(!g.ranks_fresh("", "U_a"));
    let rows = g.read_node_score("", "U_a", "U_b");
    assert_eq!(rows[0].2, 0);
}

#[test]
fn read_scores_boundaries_and_order() {
    let mut g = AugMultiGraph::new();
    g.write_put_edge("", "U_a", "U_b", fx(1.0));
    g.write_put_edge("", "U_a", "U_c", fx(1.0));
    g.write_put_edge("", "U_a", "U_d", fx(1.0));
    let b = g.find_node_id("U_b").unwrap();
    let c = g.find_node_id("U_c").unwrap();
    let d = g.find_node_id("U_d").unwrap();
    g.put_ranks("", "U_a", vec![(b, fx(0.2)), (c, fx(0.9)), (d, fx(-0.5))]);
    // count == 0 gives an empty page
    let rows = g.read_scores("", "U_a", "", false, i128::MAX, true, i128::MIN, true, 0, 0);
    assert!(rows.is_empty());
    // index beyond the result gives an empty page
    let rows = g.read_scores("", "U_a", "", false, i128::MAX, true, i128::MIN, true, 10, 5);
    assert!(rows.is_empty());
    // sorted by score magnitude descending, at most `count` rows
    let rows = g.read_scores("", "U_a", "", false, i128::MAX, true, i128::MIN, true, 0, 2);
    assert_eq!(rows.len(), 2);
    assert_eq!(rows[0].1, "U_c");
    assert_eq!(rows[0].2, fx(0.9));
    assert_eq!(rows[1].1, "U_d");
    assert_eq!(rows[1].2, fx(-0.5));
}

#[test]
fn read_scores_kind_filter_and_window() {
    let mut g = AugMultiGraph::new();
    g.write_put_edge("", "U_a", "U_b", fx(1.0));
    g.write_put_edge("", "U_a", "B_x", fx(1.0));
    let b = g.find_node_id("U_b").unwrap();
    let bx = g.find_node_id("B_x").unwrap();
    g.put_ranks("", "U_a", vec![(b, fx(0.4)), (bx, fx(0.6))]);
    let rows = g.read_scores("", "U_a", "B", false, i128::MAX, true, i128::MIN, true, 0, 10);
    assert_eq!(rows.len(), 1);
    assert_eq!(rows[0].1, "B_x");
    // a strict lower bound excludes equal scores
    let rows = g.read_scores("", "U_a", "", false, i128::MAX, true, fx(0.4), false, 0, 10);
    assert_eq!(rows.len(), 1);
    assert_eq!(rows[0].1, "B_x");
    // invalid kind strings give empty results
    let rows = g.read_scores("", "U_a", "Z", false, i128::MAX, true, i128::MIN, true, 0, 10);
    assert!(rows.is_empty());
}

#[test]
fn focus_neighbourhood_contracts_comment_hops() {
    let mut g = AugMultiGraph::new();
    // pads make each positive sum exactly 1.0, so normalisation is identity
    g.write_put_edge("", "U_a", "C_1", fx(0.8));
    g.write_put_edge("", "U_a", "U_pad", fx(0.2));
    g.write_put_edge("", "C_1", "U_b", fx(0.6));
    g.write_put_edge("", "C_1", "U_pad2", fx(0.4));
    let rows = g.read_graph("", "U_a", "U_a", true, 0, 100);
    assert!(rows.iter().any(|r| r.0 == "U_a" && r.1 == "U_b" && r.2 == fx(0.48)));
    assert!(rows.iter().all(|r| r.0 != "C_1" && r.1 != "C_1"));
    // with ego == focus every row starts at the focus
    assert!(rows.iter().all(|r| r.0 == "U_a"));
    // positive_only on this input emits positive weights only
    assert!(rows.iter().all(|r| r.2 > 0));
}

#[test]
fn double_negative_contraction_flips_sign() {
    let mut g = AugMultiGraph::new();
    g.write_put_edge("", "U_a", "C_1", fx(-0.8));
    g.write_put_edge("", "U_a", "U_pad", fx(1.0));
    g.write_put_edge("", "C_1", "U_b", fx(-0.6));
    g.write_put_edge("", "C_1", "U_pad2", fx(1.0));
    let rows = g.read_graph("", "U_a", "U_a", false, 0, 100);
    // the product of two negatives is positive; the double-negative rule
    // then flips it negative
    assert!(rows.iter().any(|r| r.0 == "U_a" && r.1 == "U_b" && r.2 == fx(-0.48)));
}

#[test]
fn marked_beacons_leave_the_feed() {
    let mut g = AugMultiGraph::new();
    g.write_put_edge("", "U_a", "B_1", fx(1.0));
    g.write_put_edge("", "U_c", "B_1", fx(1.0));
    let b1 = g.find_node_id("B_1").unwrap();
    g.put_ranks("", "U_a", vec![(b1, fx(0.5))]);
    g.put_ranks("", "U_c", vec![(b1, fx(0.5))]);
    let before = g.read_unmarked_beacons("", "U_a");
    assert_eq!(before.len(), 1);
    assert_eq!(before[0].0, "B_1");
    g.write_mark_beacons("", "U_a");
    // marking dropped U_a's rank cache; refresh it
    g.put_ranks("", "U_a", vec![(b1, fx(0.5))]);
    let after = g.read_unmarked_beacons("", "U_a");
    assert!(after.is_empty());
    // a different source still sees the beacon
    let other = g.read_unmarked_beacons("", "U_c");
    assert_eq!(other.len(), 1);
    assert_eq!(other[0].0, "B_1");
}

#[test]
fn read_connected_lists_neighbours() {
    let mut g = AugMultiGraph::new();
    g.write_put_edge("", "U_a", "U_b", fx(1.0));
    g.write_put_edge("", "U_a", "U_c", fx(-0.5));
    let rows = g.read_connected("", "U_a");
    assert_eq!(rows.len(), 2);
    assert!(rows.iter().all(|r| r.0 == "U_a"));
    assert!(rows.iter().any(|r| r.1 == "U_b"));
    assert!(rows.iter().any(|r| r.1 == "U_c"));
}

#[test]
fn read_edges_lists_every_edge() {
    let mut g = AugMultiGraph::new();
    g.write_put_edge("", "U_a", "U_b", fx(1.0));
    g.write_put_edge("", "C_s", "U_b", fx(0.25));
    let rows = g.read_edges("");
    assert!(rows.iter().any(|r| r.0 == "U_a" && r.1 == "U_b" && r.2 == fx(1.0)));
    assert!(rows.iter().any(|r| r.0 == "C_s" && r.1 == "U_b" && r.2 == fx(0.25)));
    assert!(g.read_edges("missing").is_empty());
}

#[test]
fn read_mutual_scores_pairs_users() {
    let mut g = AugMultiGraph::new();
    g.write_put_edge("", "U_a", "U_b", fx(1.0));
    g.write_put_edge("", "U_b", "U_a", fx(1.0));
    let a = g.find_node_id("U_a").unwrap();
    let b = g.find_node_id("U_b").unwrap();
    g.put_ranks("", "U_a", vec![(b, fx(0.7))]);
    g.put_ranks("", "U_b", vec![(a, fx(0.3))]);
    let rows = g.read_mutual_scores("", "U_a");
    assert_eq!(rows.len(), 1);
    assert_eq!(rows[0].0, "U_b");
    assert_eq!(rows[0].1, fx(0.7));
    assert_eq!(rows[0].2, fx(0.3));
}

#[test]
fn reset_clears_everything() {
    let mut g = AugMultiGraph::new();
    g.write_put_edge("", "U_a", "U_b", fx(1.0));
    g.write_reset();
    assert!(!g.node_exists("U_a"));
    assert!(g.read_node_list().is_empty());
}

#[test]
fn node_list_holds_names_in_id_order() {
    let mut g = AugMultiGraph::new();
    g.write_put_edge("", "U_a", "U_b", fx(1.0));
    let names = g.read_node_list();
    assert_eq!(names[0].0, "U_a");
    assert_eq!(names[1].0, "U_b");
}

#[test]
fn pathfinding_step_adds_contracted_path() {
    let mut g = AugMultiGraph::new();
    // ego -> C_m -> focus, pads keeping sums at 1.0
    g.write_put_edge("", "U_e", "C_m", fx(0.5));
    g.write_put_edge("", "U_e", "U_p1", fx(0.5));
    g.write_put_edge("", "C_m", "U_f", fx(1.0));
    g.write_put_edge("", "U_f", "U_p2", fx(1.0));
    let rows = g.read_graph("", "U_e", "U_f", false, 0, 100);
    // the ego-to-focus path U_e -> C_m -> U_f is contracted to U_e -> U_f
    assert!(rows.iter().any(|r| r.0 == "U_e" && r.1 == "U_f" && r.2 == fx(0.5)));
}

#[test]
fn pathfinding_terminates_without_a_path() {
    let mut g = AugMultiGraph::new();
    g.write_put_edge("", "U_a", "U_b", fx(1.0));
    g.write_put_edge("", "U_x", "U_y", fx(1.0));
    // no path from U_a to U_x: the search fails within its iteration cap
    // and only the focus neighbourhood is returned
    let rows = g.read_graph("", "U_a", "U_x", false, 0, 100);
    assert!(rows.iter().all(|r| r.2 != 0));
}

#[test]
fn hide_personal_drops_linking_comments() {
    let mut g = AugMultiGraph::new();
    g.write_put_edge("", "U_a", "C_r", fx(1.0));
    // the comment links back to the ego
    g.write_put_edge("", "C_r", "U_a", fx(1.0));
    let c = g.find_node_id("C_r").unwrap();
    g.put_ranks("", "U_a", vec![(c, fx(0.5))]);
    let shown = g.read_scores("", "U_a", "", false, i128::MAX, true, i128::MIN, true, 0, 10);
    assert_eq!(shown.len(), 1);
    let hidden = g.read_scores("", "U_a", "", true, i128::MAX, true, i128::MIN, true, 0, 10);
    assert!(hidden.is_empty());
}

#[test]
fn repeated_reads_are_stable_without_writes() {
    let mut g = AugMultiGraph::new();
    g.write_put_edge("", "U_a", "U_b", fx(1.0));
    let b = g.find_node_id("U_b").unwrap();
    g.put_ranks("", "U_a", vec![(b, fx(0.42))]);
    let first = g.read_node_score("", "U_a", "U_b");
    let second = g.read_node_score("", "U_a", "U_b");
    assert_eq!(first, second);
}

#[test]
fn normalized_weight_divides_by_positive_sum() {
    let mut g = AugMultiGraph::new();
    g.write_put_edge("", "C_s", "U_b", fx(0.5));
    g.write_put_edge("", "C_s", "U_c", fx(1.5));
    let s = g.find_node_id("C_s").unwrap();
    let b = g.find_node_id("U_b").unwrap();
    // 0.5 normalised by a positive sum of 2.0 is 0.25
    assert_eq!(g.edge_weight_normalized("", s, b), fx(0.25));
}

#[test]
fn unknown_inputs_give_zero_or_empty() {
    let mut g = AugMultiGraph::new();
    g.write_put_edge("", "U_a", "U_b", fx(1.0));
    let rows = g.read_node_score("missing", "U_a", "U_b");
    assert_eq!(rows[0].2, 0);
    let rows = g.read_node_score("", "U_zzz", "U_b");
    assert_eq!(rows[0].2, 0);
    assert!(g.read_scores("", "U_zzz", "", false, i128::MAX, true, i128::MIN, true, 0, 10).is_empty());
    assert!(g.read_graph("", "U_zzz", "U_b", false, 0, 10).is_empty());
    assert!(g.read_connected("", "U_zzz").is_empty());
    assert!(g.read_unmarked_beacons("", "U_zzz").is_empty());
}

#[test]
fn vanished_positive_sum_divides_by_epsilon() {
    // a source with no positive outgoing edges has positive sum zero; the
    // divisor is then floored at the estimator's epsilon (1e-10), so the
    // normalised weight is the raw weight scaled by 1e10
    let mut g = AugMultiGraph::new();
    g.write_put_edge("", "C_s", "U_b", fx(-0.5));
    let s = g.find_node_id("C_s").unwrap();
    let b = g.find_node_id("U_b").unwrap();
    assert_eq!(
        g.edge_weight_normalized("", s, b),
        fx(-0.5) * repgraph::EPSILON_INV
    );
}
