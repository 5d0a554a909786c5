use mermaid_layout::ir::{Edge, EdgeStyle};
use mermaid_layout::layered::{
    candidate_rule, compute_rank_metrics, edge_snapshots, feedback_edge_snapshots, rank_position,
    rank_snapshots, ranked_nodes, try_compute_rank_metrics, CandidateRule, LayeredCountMetrics, LayeredEdgeSnapshot,
    LayeredNodePlacement, ManualLayoutRanks,
};

fn edge(from: &str, to: &str) -> Edge {
    Edge {
        from: from.to_string(),
        to: to.to_string(),
        label: None,
        start_label: None,
        end_label: None,
        directed: true,
        arrow_start: false,
        arrow_end: true,
        arrow_start_kind: None,
        arrow_end_kind: None,
        start_decoration: None,
        end_decoration: None,
        style: EdgeStyle::Solid,
    }
}

fn ranks(rows: &[&[&str]], reversed: &[(&str, &str)]) -> ManualLayoutRanks {
    ManualLayoutRanks {
        rank_nodes: rows.iter().map(|r| r.iter().map(|s| s.to_string()).collect()).collect(),
        feedback_edges: reversed.iter().map(|(a, b)| (a.to_string(), b.to_string())).collect(),
    }
}

fn snap(from: &str, to: &str, from_rank: usize, to_rank: usize, feedback: bool) -> LayeredEdgeSnapshot {
    LayeredEdgeSnapshot {
        from: from.to_string(),
        to: to.to_string(),
        from_rank,
        to_rank,
        rank_span: from_rank.abs_diff(to_rank),
        feedback,
    }
}

fn place(id: &str, rank: usize, order: usize) -> LayeredNodePlacement {
    LayeredNodePlacement { id: id.to_string(), rank, order }
}

fn base_metrics() -> LayeredCountMetrics {
    LayeredCountMetrics {
        node_overlaps: 0,
        adjacent_rank_crossings: 3,
        straight_line_crossings: 8,
        feedback_edges: 2,
        total_rank_span: 20,
    }
}

#[test]
fn rank_snapshot_orders_nodes_by_rank() {
    let r = ranks(&[&["A"], &["B"]], &[]);
    let snaps = rank_snapshots(&r);
    assert_eq!(snaps.len(), 2);
    assert_eq!(snaps[0].index, 0);
    assert_eq!(snaps[0].nodes, vec!["A".to_string()]);
    assert_eq!(snaps[1].index, 1);
    assert_eq!(snaps[1].nodes, vec!["B".to_string()]);
    assert_eq!(rank_position(&r, "A"), Some((0, 0)));
    assert_eq!(rank_position(&r, "B"), Some((1, 0)));
    assert_eq!(rank_position(&r, "C"), None);
}

#[test]
fn rank_position_takes_the_last_listing() {
    let r = ranks(&[&["A", "B", "A"], &["C", "B"]], &[]);
    assert_eq!(rank_position(&r, "A"), Some((0, 2)));
    assert_eq!(rank_position(&r, "B"), Some((1, 1)));
    assert_eq!(rank_position(&r, "C"), Some((1, 0)));
}

#[test]
fn edge_snapshots_record_ranks_spans_and_feedback() {
    let r = ranks(&[&["A"], &["B", "C"], &["D"]], &[("B", "D")]);
    let edges = vec![edge("A", "B"), edge("B", "D"), edge("D", "A"), edge("A", "X"), edge("C", "C")];
    let snaps = edge_snapshots(&edges, &r);
    assert_eq!(
        snaps,
        vec![
            snap("A", "B", 0, 1, false),
            snap("B", "D", 1, 2, true),
            snap("D", "A", 2, 0, true),
            snap("C", "C", 1, 1, true),
        ]
    );
    assert_eq!(snaps[2].rank_span, 2);
}

#[test]
fn feedback_edges_are_sorted_and_deduplicated() {
    let edges = vec![
        snap("b", "a", 1, 0, true),
        snap("a", "z", 0, 2, false),
        snap("a", "c", 2, 0, true),
        snap("b", "a", 1, 0, true),
        snap("a", "b", 1, 1, true),
    ];
    let fb = feedback_edge_snapshots(&edges);
    let pairs: Vec<(&str, &str)> = fb.iter().map(|e| (e.from.as_str(), e.to.as_str())).collect();
    assert_eq!(pairs, vec![("a", "b"), ("a", "c"), ("b", "a")]);
}

#[test]
fn no_feedback_edges_gives_an_empty_list() {
    let edges = vec![snap("a", "b", 0, 1, false)];
    assert!(feedback_edge_snapshots(&edges).is_empty());
}

#[test]
fn rank_metrics_count_crossings_between_adjacent_ranks() {
    let nodes = vec![place("a", 0, 0), place("b", 0, 1), place("c", 1, 0), place("d", 1, 1)];
    let edges = vec![snap("a", "d", 0, 1, false), snap("b", "c", 0, 1, false)];
    let m = compute_rank_metrics(&nodes, &edges);
    assert_eq!(m.adjacent_rank_crossings, 1);
    assert_eq!(m.feedback_edges, 0);
    assert_eq!(m.total_rank_span, 2);
}

#[test]
fn rank_metrics_skip_shared_ends_and_long_edges() {
    let nodes = vec![place("a", 0, 0), place("b", 0, 1), place("c", 1, 0), place("d", 2, 0)];
    let edges = vec![
        snap("a", "c", 0, 1, false),
        snap("b", "c", 0, 1, false),
        snap("a", "d", 0, 2, false),
        snap("d", "a", 2, 0, true),
        snap("b", "x", 0, 1, false),
    ];
    let m = compute_rank_metrics(&nodes, &edges);
    assert_eq!(m.adjacent_rank_crossings, 0);
    assert_eq!(m.feedback_edges, 1);
    assert_eq!(m.total_rank_span, 7);
}

#[test]
fn rank_metrics_count_each_crossing_pair_once() {
    let nodes = vec![
        place("a", 0, 0),
        place("b", 0, 1),
        place("c", 0, 2),
        place("x", 1, 0),
        place("y", 1, 1),
        place("z", 1, 2),
    ];
    let edges = vec![snap("a", "z", 0, 1, false), snap("b", "y", 0, 1, false), snap("c", "x", 0, 1, false)];
    let m = compute_rank_metrics(&nodes, &edges);
    assert_eq!(m.adjacent_rank_crossings, 3);
}

#[test]
fn candidate_guard_rejects_crossing_proxy_regressions() {
    let current = base_metrics();
    let mut candidate = base_metrics();
    candidate.adjacent_rank_crossings = 2;
    candidate.straight_line_crossings = 9;
    assert_eq!(candidate_rule(&current, &candidate), CandidateRule::Reject);
}

#[test]
fn candidate_guard_weighs_equal_counts_by_centerlines() {
    let current = base_metrics();
    let candidate = base_metrics();
    assert_eq!(candidate_rule(&current, &candidate), CandidateRule::ShorterCenterlines);
}

#[test]
fn candidate_guard_picks_the_first_improved_metric() {
    let current = base_metrics();
    let mut candidate = base_metrics();
    candidate.adjacent_rank_crossings = 2;
    assert_eq!(candidate_rule(&current, &candidate), CandidateRule::FewerAdjacentRankCrossings);
    let mut candidate = base_metrics();
    candidate.straight_line_crossings = 7;
    assert_eq!(candidate_rule(&current, &candidate), CandidateRule::FewerStraightLineCrossings);
    let mut candidate = base_metrics();
    candidate.feedback_edges = 1;
    assert_eq!(candidate_rule(&current, &candidate), CandidateRule::FewerFeedbackEdges);
    let mut candidate = base_metrics();
    candidate.total_rank_span = 19;
    assert_eq!(candidate_rule(&current, &candidate), CandidateRule::ShorterTotalRankSpan);
    let mut candidate = base_metrics();
    candidate.total_rank_span = 25;
    assert_eq!(candidate_rule(&current, &candidate), CandidateRule::ShorterCenterlines);
}

#[test]
fn candidate_guard_rejects_new_overlaps_or_feedback() {
    let current = base_metrics();
    let mut candidate = base_metrics();
    candidate.node_overlaps = 1;
    candidate.adjacent_rank_crossings = 0;
    assert_eq!(candidate_rule(&current, &candidate), CandidateRule::Reject);
    let mut candidate = base_metrics();
    candidate.feedback_edges = 3;
    candidate.total_rank_span = 1;
    assert_eq!(candidate_rule(&current, &candidate), CandidateRule::Reject);
}

#[test]
fn rank_metrics_report_an_overflowing_span() {
    let nodes = vec![place("a", 0, 0)];
    let edges = vec![snap("a", "b", 0, 1, false), snap("b", "c", 1, 2, false)];
    let mut big = edges.clone();
    big[0].rank_span = usize::MAX;
    assert!(try_compute_rank_metrics(&nodes, &big).is_none());
    let m = try_compute_rank_metrics(&nodes, &edges).expect("small counts fit");
    assert_eq!(m.total_rank_span, 2);
    assert_eq!(m.feedback_edges, 0);
    assert_eq!(m.adjacent_rank_crossings, 0);
}

#[test]
fn ranked_nodes_keep_list_order_and_skip_unranked_ids() {
    let r = ranks(&[&["B"], &["A", "C"]], &[]);
    let ids = vec!["A".to_string(), "X".to_string(), "B".to_string(), "C".to_string()];
    let placed = ranked_nodes(&ids, &r);
    let seen: Vec<(usize, usize, usize)> = placed.iter().map(|p| (p.index, p.rank, p.order)).collect();
    assert_eq!(seen, vec![(0, 1, 0), (2, 0, 0), (3, 1, 1)]);
}
