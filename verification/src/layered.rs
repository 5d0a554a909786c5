//! The integer and text side of the layered node-placement snapshot: rank
//! lookups, rank and edge snapshots, the sorted feedback-edge list, the
//! rank-based placement metrics, and the rule by which a candidate layout is
//! weighed against the current one. Node geometry (positions and sizes) and
//! the metrics measured on it belong to the renderer.

use vstd::prelude::*;
use crate::ir::{Direction, Edge, direction_of_token, ascii_upper_text};
use crate::text::{text_equal, text_less, text_lt, lemma_text_lt_irreflexive, lemma_text_lt_transitive, lemma_text_lt_total};

verus! {

/// The keyword for a direction (`TD`, `BT`, `LR`, `RL`).
pub open spec fn direction_text(direction: Direction) -> Seq<char> {
    match direction {
        Direction::TopDown => "TD"@,
        Direction::BottomTop => "BT"@,
        Direction::LeftRight => "LR"@,
        Direction::RightLeft => "RL"@,
    }
}

/// The keyword naming a direction in the snapshot.
pub fn direction_name(direction: Direction) -> (name: &'static str)
    ensures
        name@ == direction_text(direction),
{
    match direction {
        Direction::TopDown => "TD",
        Direction::BottomTop => "BT",
        Direction::LeftRight => "LR",
        Direction::RightLeft => "RL",
    }
}

/// A direction's keyword parses back to that direction.
pub proof fn lemma_direction_name_round_trip(direction: Direction)
    ensures
        direction_of_token(direction_text(direction)) == Some(direction),
{
    reveal_strlit("TD");
    reveal_strlit("BT");
    reveal_strlit("LR");
    reveal_strlit("RL");
    let t = direction_text(direction);
    assert(ascii_upper_text(t) =~= t);
    assert(t =~= seq![t[0], t[1]]);
}

/// The ranks handed over by the layered ranking stage: the node ids of each
/// rank in within-rank order, and the edges the ranking reversed.
#[derive(Debug, Clone)]
pub struct ManualLayoutRanks {
    pub rank_nodes: Vec<Vec<String>>,
    pub feedback_edges: Vec<(String, String)>,
}

/// One rank of the snapshot.
#[derive(Debug, Clone, PartialEq)]
pub struct LayeredRankSnapshot {
    pub index: usize,
    pub nodes: Vec<String>,
}

/// One edge of the snapshot, with the ranks of its ends.
#[derive(Debug, Clone, PartialEq)]
pub struct LayeredEdgeSnapshot {
    pub from: String,
    pub to: String,
    pub from_rank: usize,
    pub to_rank: usize,
    pub rank_span: usize,
    pub feedback: bool,
}

/// An edge that points against the rank order.
#[derive(Debug, Clone, PartialEq, Eq)]
pub struct LayeredFeedbackEdgeSnapshot {
    pub from: String,
    pub to: String,
}

/// The abstract content of a [`LayeredEdgeSnapshot`].
pub struct EdgeSnapshotView {
    pub from: Seq<char>,
    pub to: Seq<char>,
    pub from_rank: int,
    pub to_rank: int,
    pub rank_span: int,
    pub feedback: bool,
}

impl View for LayeredEdgeSnapshot {
    type V = EdgeSnapshotView;

    open spec fn view(&self) -> EdgeSnapshotView {
        EdgeSnapshotView {
            from: self.from@,
            to: self.to@,
            from_rank: self.from_rank as int,
            to_rank: self.to_rank as int,
            rank_span: self.rank_span as int,
            feedback: self.feedback,
        }
    }
}

/// The texts of a list of strings.
pub open spec fn texts(v: Seq<String>) -> Seq<Seq<char>> {
    v.map_values(|s: String| s@)
}

impl ManualLayoutRanks {
    /// The node ids of each rank, as texts.
    pub open spec fn rows(&self) -> Seq<Seq<Seq<char>>> {
        self.rank_nodes@.map_values(|row: Vec<String>| texts(row@))
    }

    /// The reversed edges, as pairs of texts.
    pub open spec fn feedback_pairs(&self) -> Seq<(Seq<char>, Seq<char>)> {
        self.feedback_edges@.map_values(|p: (String, String)| (p.0@, p.1@))
    }
}

/// The last position of `id` in a row.
pub open spec fn last_in_row(row: Seq<Seq<char>>, id: Seq<char>) -> Option<int>
    decreases row.len(),
{
    if row.len() == 0 {
        None
    } else if row.last() == id {
        Some(row.len() - 1)
    } else {
        last_in_row(row.drop_last(), id)
    }
}

/// The (rank, order) of `id`: its last occurrence when the ranks are read
/// rank by rank, each in order, so a later listing of an id wins.
pub open spec fn rank_position_of(rows: Seq<Seq<Seq<char>>>, id: Seq<char>) -> Option<(int, int)>
    decreases rows.len(),
{
    if rows.len() == 0 {
        None
    } else {
        match last_in_row(rows.last(), id) {
            Some(o) => Some((rows.len() - 1, o)),
            None => rank_position_of(rows.drop_last(), id),
        }
    }
}

/// A found position lies inside the ranks and holds the id.
pub proof fn lemma_rank_position_in_bounds(rows: Seq<Seq<Seq<char>>>, id: Seq<char>)
    ensures
        rank_position_of(rows, id) matches Some((r, o)) ==> 0 <= r < rows.len() && 0 <= o
            < rows[r].len() && rows[r][o] == id,
    decreases rows.len(),
{
    if rows.len() > 0 {
        lemma_last_in_row_in_bounds(rows.last(), id);
        if last_in_row(rows.last(), id) is None {
            lemma_rank_position_in_bounds(rows.drop_last(), id);
        }
    }
}

/// A found row position lies inside the row and holds the id.
pub proof fn lemma_last_in_row_in_bounds(row: Seq<Seq<char>>, id: Seq<char>)
    ensures
        last_in_row(row, id) matches Some(o) ==> 0 <= o < row.len() && row[o] == id,
    decreases row.len(),
{
    if row.len() > 0 && row.last() != id {
        lemma_last_in_row_in_bounds(row.drop_last(), id);
    }
}

/// The rank and within-rank order of a node id, if it is ranked.
pub fn rank_position(ranks: &ManualLayoutRanks, id: &str) -> (pos: Option<(usize, usize)>)
    ensures
        match pos {
            Some((r, o)) => rank_position_of(ranks.rows(), id@) == Some((r as int, o as int)),
            None => rank_position_of(ranks.rows(), id@) is None,
        },
{
    let ghost rows = ranks.rows();
    let mut r = ranks.rank_nodes.len();
    assert(rows.take(r as int) =~= rows);
    while r > 0
        invariant
            r <= ranks.rank_nodes@.len(),
            rows == ranks.rows(),
            rank_position_of(rows, id@) == rank_position_of(rows.take(r as int), id@),
        decreases r,
    {
        let row = &ranks.rank_nodes[r - 1];
        let ghost rowv = texts(row@);
        assert(rows.take(r as int).last() == rowv);
        assert(rows.take(r as int).drop_last() =~= rows.take(r - 1));
        let mut o = row.len();
        assert(rowv.take(o as int) =~= rowv);
        while o > 0
            invariant
                0 < r <= ranks.rank_nodes@.len(),
                rows == ranks.rows(),
                rank_position_of(rows, id@) == rank_position_of(rows.take(r as int), id@),
                rows.take(r as int).last() == rowv,
                o <= row@.len(),
                rowv == texts(row@),
                last_in_row(rowv, id@) == last_in_row(rowv.take(o as int), id@),
            decreases o,
        {
            assert(rowv.take(o as int).last() == row@[o - 1]@);
            assert(rowv.take(o as int).drop_last() =~= rowv.take(o - 1));
            if text_equal(row[o - 1].as_str(), id) {
                return Some((r - 1, o - 1));
            }
            o = o - 1;
        }
        assert(rowv.take(0) =~= Seq::<Seq<char>>::empty());
        r = r - 1;
    }
    None
}

/// The snapshot of each rank: its index and its node ids.
pub fn rank_snapshots(ranks: &ManualLayoutRanks) -> (snaps: Vec<LayeredRankSnapshot>)
    ensures
        snaps@.len() == ranks.rank_nodes@.len(),
        forall|i: int|
            0 <= i < snaps@.len() ==> (#[trigger] snaps@[i]).index == i && texts(snaps@[i].nodes@)
                == ranks.rows()[i],
{
    let n = ranks.rank_nodes.len();
    let mut snaps: Vec<LayeredRankSnapshot> = Vec::new();
    let mut i: usize = 0;
    while i < n
        invariant
            n == ranks.rank_nodes@.len(),
            i <= n,
            snaps@.len() == i,
            forall|k: int|
                0 <= k < i ==> (#[trigger] snaps@[k]).index == k && texts(snaps@[k].nodes@)
                    == ranks.rows()[k],
        decreases n - i,
    {
        let nodes = ranks.rank_nodes[i].clone();
        proof {
            assert forall|k: int| 0 <= k < nodes@.len() implies nodes@[k]
                == ranks.rank_nodes@[i as int]@[k] by {
                assert(vstd::pervasive::cloned(ranks.rank_nodes@[i as int]@[k], nodes@[k]));
            }
            assert(texts(nodes@) =~= ranks.rows()[i as int]);
        }
        snaps.push(LayeredRankSnapshot { index: i, nodes });
        i = i + 1;
    }
    snaps
}

/// A laid-out node that the ranking placed: its position in the node list
/// and its rank and within-rank order.
#[derive(Debug, Clone, Copy, PartialEq, Eq)]
pub struct RankedNode {
    pub index: usize,
    pub rank: usize,
    pub order: usize,
}

/// The ranked nodes among `ids`, in list order: each id that has a rank
/// position, with that position.
pub open spec fn ranked_nodes_of(rows: Seq<Seq<Seq<char>>>, ids: Seq<Seq<char>>) -> Seq<RankedNode>
    decreases ids.len(),
{
    if ids.len() == 0 {
        seq![]
    } else {
        let prev = ranked_nodes_of(rows, ids.drop_last());
        match rank_position_of(rows, ids.last()) {
            Some((r, o)) => prev.push(
                RankedNode { index: (ids.len() - 1) as usize, rank: r as usize, order: o as usize },
            ),
            None => prev,
        }
    }
}

/// The nodes of the snapshot: of the laid-out node ids, in their order,
/// those the ranking placed, with their rank and order.
pub fn ranked_nodes(ids: &Vec<String>, ranks: &ManualLayoutRanks) -> (placed: Vec<RankedNode>)
    ensures
        placed@ == ranked_nodes_of(ranks.rows(), texts(ids@)),
{
    let ghost idv = texts(ids@);
    let n = ids.len();
    let mut placed: Vec<RankedNode> = Vec::new();
    let mut i: usize = 0;
    assert(idv.take(0) =~= Seq::<Seq<char>>::empty());
    while i < n
        invariant
            n == ids@.len(),
            i <= n,
            idv == texts(ids@),
            placed@ == ranked_nodes_of(ranks.rows(), idv.take(i as int)),
        decreases n - i,
    {
        proof {
            assert(idv.take(i + 1).drop_last() =~= idv.take(i as int));
            assert(idv.take(i + 1).last() == ids@[i as int]@);
        }
        match rank_position(ranks, ids[i].as_str()) {
            Some((rank, order)) => {
                placed.push(RankedNode { index: i, rank, order });
            },
            None => {},
        }
        i = i + 1;
    }
    assert(idv.take(n as int) =~= idv);
    placed
}

/// The pair of end ids of each edge.
pub open spec fn edge_ends(edges: Seq<Edge>) -> Seq<(Seq<char>, Seq<char>)> {
    edges.map_values(|e: Edge| (e.from@, e.to@))
}

/// The views of a list of edge snapshots.
pub open spec fn edge_snapshot_views(v: Seq<LayeredEdgeSnapshot>) -> Seq<EdgeSnapshotView> {
    v.map_values(|e: LayeredEdgeSnapshot| e@)
}

/// The snapshot of one edge, when both of its ends are ranked: it is a
/// feedback edge when the ranking reversed it or when it does not point to a
/// later rank.
pub open spec fn edge_snapshot_of(
    rows: Seq<Seq<Seq<char>>>,
    reversed: Seq<(Seq<char>, Seq<char>)>,
    from: Seq<char>,
    to: Seq<char>,
) -> Option<EdgeSnapshotView> {
    match (rank_position_of(rows, from), rank_position_of(rows, to)) {
        (Some(f), Some(t)) => Some(
            EdgeSnapshotView {
                from: from,
                to: to,
                from_rank: f.0,
                to_rank: t.0,
                rank_span: if f.0 >= t.0 {
                    f.0 - t.0
                } else {
                    t.0 - f.0
                },
                feedback: reversed.contains((from, to)) || t.0 <= f.0,
            },
        ),
        _ => None,
    }
}

/// The snapshots of the edges whose ends are both ranked, in edge order.
pub open spec fn edge_snapshots_of(
    rows: Seq<Seq<Seq<char>>>,
    reversed: Seq<(Seq<char>, Seq<char>)>,
    ends: Seq<(Seq<char>, Seq<char>)>,
) -> Seq<EdgeSnapshotView>
    decreases ends.len(),
{
    if ends.len() == 0 {
        seq![]
    } else {
        let prev = edge_snapshots_of(rows, reversed, ends.drop_last());
        match edge_snapshot_of(rows, reversed, ends.last().0, ends.last().1) {
            Some(v) => prev.push(v),
            None => prev,
        }
    }
}

fn is_reversed_edge(ranks: &ManualLayoutRanks, from: &str, to: &str) -> (r: bool)
    ensures
        r == ranks.feedback_pairs().contains((from@, to@)),
{
    let n = ranks.feedback_edges.len();
    let mut i: usize = 0;
    while i < n
        invariant
            n == ranks.feedback_edges@.len(),
            i <= n,
            forall|k: int| 0 <= k < i ==> ranks.feedback_pairs()[k] != (from@, to@),
        decreases n - i,
    {
        let pair = &ranks.feedback_edges[i];
        if text_equal(pair.0.as_str(), from) && text_equal(pair.1.as_str(), to) {
            assert(ranks.feedback_pairs()[i as int] == (from@, to@));
            return true;
        }
        i = i + 1;
    }
    false
}

/// The snapshots of the edges whose two ends are both ranked, in edge
/// order, with their ranks, rank span and feedback flag.
pub fn edge_snapshots(edges: &[Edge], ranks: &ManualLayoutRanks) -> (snaps: Vec<LayeredEdgeSnapshot>)
    ensures
        edge_snapshot_views(snaps@) == edge_snapshots_of(
            ranks.rows(),
            ranks.feedback_pairs(),
            edge_ends(edges@),
        ),
{
    let ghost rows = ranks.rows();
    let ghost reversed = ranks.feedback_pairs();
    let ghost ends = edge_ends(edges@);
    let n = edges.len();
    let mut snaps: Vec<LayeredEdgeSnapshot> = Vec::new();
    let mut i: usize = 0;
    assert(ends.take(0) =~= Seq::<(Seq<char>, Seq<char>)>::empty());
    assert(edge_snapshot_views(snaps@) =~= Seq::<EdgeSnapshotView>::empty());
    while i < n
        invariant
            n == edges@.len(),
            i <= n,
            rows == ranks.rows(),
            reversed == ranks.feedback_pairs(),
            ends == edge_ends(edges@),
            edge_snapshot_views(snaps@) == edge_snapshots_of(rows, reversed, ends.take(i as int)),
        decreases n - i,
    {
        let edge = &edges[i];
        proof {
            assert(ends.take(i + 1).drop_last() =~= ends.take(i as int));
            assert(ends.take(i + 1).last() == (edge.from@, edge.to@));
        }
        let from_pos = rank_position(ranks, edge.from.as_str());
        let to_pos = rank_position(ranks, edge.to.as_str());
        match (from_pos, to_pos) {
            (Some((from_rank, _)), Some((to_rank, _))) => {
                let feedback = is_reversed_edge(ranks, edge.from.as_str(), edge.to.as_str())
                    || to_rank <= from_rank;
                let rank_span = if from_rank >= to_rank {
                    from_rank - to_rank
                } else {
                    to_rank - from_rank
                };
                let snap = LayeredEdgeSnapshot {
                    from: edge.from.clone(),
                    to: edge.to.clone(),
                    from_rank,
                    to_rank,
                    rank_span,
                    feedback,
                };
                let ghost before = snaps@;
                snaps.push(snap);
                proof {
                    assert(edge_snapshot_views(snaps@) =~= edge_snapshot_views(before).push(
                        snap@,
                    ));
                }
            },
            _ => {},
        }
        i = i + 1;
    }
    assert(ends.take(n as int) =~= ends);
    snaps
}

/// Order on (from, to) pairs: by `from`, then by `to`.
pub open spec fn pair_lt(a: (Seq<char>, Seq<char>), b: (Seq<char>, Seq<char>)) -> bool {
    text_lt(a.0, b.0) || (a.0 == b.0 && text_lt(a.1, b.1))
}

/// No pair is below itself.
pub proof fn lemma_pair_lt_irreflexive(a: (Seq<char>, Seq<char>))
    ensures
        !pair_lt(a, a),
{
    lemma_text_lt_irreflexive(a.0);
    lemma_text_lt_irreflexive(a.1);
}

/// The pair order is transitive.
pub proof fn lemma_pair_lt_transitive(
    a: (Seq<char>, Seq<char>),
    b: (Seq<char>, Seq<char>),
    c: (Seq<char>, Seq<char>),
)
    requires
        pair_lt(a, b),
        pair_lt(b, c),
    ensures
        pair_lt(a, c),
{
    if text_lt(a.0, b.0) && text_lt(b.0, c.0) {
        lemma_text_lt_transitive(a.0, b.0, c.0);
    } else if a.0 == b.0 && b.0 == c.0 {
        lemma_text_lt_transitive(a.1, b.1, c.1);
    }
}

/// Two different pairs are ordered one way or the other.
pub proof fn lemma_pair_lt_total(a: (Seq<char>, Seq<char>), b: (Seq<char>, Seq<char>))
    requires
        a != b,
    ensures
        pair_lt(a, b) || pair_lt(b, a),
{
    if a.0 != b.0 {
        lemma_text_lt_total(a.0, b.0);
    } else {
        lemma_text_lt_total(a.1, b.1);
    }
}

/// Each pair sorts strictly after the one before it.
pub open spec fn strictly_sorted_pairs(s: Seq<(Seq<char>, Seq<char>)>) -> bool {
    forall|i: int, j: int| 0 <= i < j < s.len() ==> pair_lt(#[trigger] s[i], #[trigger] s[j])
}

/// The (from, to) pairs of a list of feedback edge snapshots.
pub open spec fn feedback_pairs_of(v: Seq<LayeredFeedbackEdgeSnapshot>) -> Seq<(Seq<char>, Seq<char>)> {
    v.map_values(|e: LayeredFeedbackEdgeSnapshot| (e.from@, e.to@))
}

/// Whether some feedback edge snapshot runs from `p.0` to `p.1`.
pub open spec fn is_feedback_pair(edges: Seq<EdgeSnapshotView>, p: (Seq<char>, Seq<char>)) -> bool {
    exists|i: int|
        0 <= i < edges.len() && (#[trigger] edges[i]).feedback && (edges[i].from, edges[i].to) == p
}

fn pair_less(a_from: &str, a_to: &str, b_from: &str, b_to: &str) -> (r: bool)
    ensures
        r == pair_lt((a_from@, a_to@), (b_from@, b_to@)),
{
    if text_less(a_from, b_from) {
        true
    } else if text_equal(a_from, b_from) {
        text_less(a_to, b_to)
    } else {
        false
    }
}

/// The feedback edges of a snapshot, sorted by (from, to) with repeats
/// removed.
pub fn feedback_edge_snapshots(edges: &Vec<LayeredEdgeSnapshot>) -> (fb: Vec<LayeredFeedbackEdgeSnapshot>)
    ensures
        strictly_sorted_pairs(feedback_pairs_of(fb@)),
        forall|p: (Seq<char>, Seq<char>)|
            #![trigger feedback_pairs_of(fb@).contains(p)]
            feedback_pairs_of(fb@).contains(p) <==> is_feedback_pair(edge_snapshot_views(edges@), p),
{
    let ghost views = edge_snapshot_views(edges@);
    let n = edges.len();
    let mut out: Vec<LayeredFeedbackEdgeSnapshot> = Vec::new();
    let mut i: usize = 0;
    while i < n
        invariant
            n == edges@.len(),
            i <= n,
            views == edge_snapshot_views(edges@),
            strictly_sorted_pairs(feedback_pairs_of(out@)),
            forall|p: (Seq<char>, Seq<char>)|
                #![trigger feedback_pairs_of(out@).contains(p)]
                feedback_pairs_of(out@).contains(p) <==> is_feedback_pair(views.take(i as int), p),
        decreases n - i,
    {
        let edge = &edges[i];
        let ghost e = (edge.from@, edge.to@);
        let ghost old_out = feedback_pairs_of(out@);
        proof {
            assert forall|p: (Seq<char>, Seq<char>)|
                is_feedback_pair(views.take(i + 1), p) == (is_feedback_pair(views.take(i as int), p)
                    || (edge.feedback && p == e)) by {
                if is_feedback_pair(views.take(i + 1), p) {
                    let k = choose|k: int|
                        0 <= k < views.take(i + 1).len() && (#[trigger] views.take(i + 1)[k]).feedback
                            && (views.take(i + 1)[k].from, views.take(i + 1)[k].to) == p;
                    if k < i {
                        assert(views.take(i as int)[k] == views.take(i + 1)[k]);
                    }
                }
                if is_feedback_pair(views.take(i as int), p) {
                    let k = choose|k: int|
                        0 <= k < views.take(i as int).len() && (#[trigger] views.take(
                            i as int,
                        )[k]).feedback && (views.take(i as int)[k].from, views.take(
                            i as int,
                        )[k].to) == p;
                    assert(views.take(i + 1)[k] == views.take(i as int)[k]);
                }
                if edge.feedback && p == e {
                    assert(views.take(i + 1)[i as int] == edge@);
                }
            }
        }
        if edge.feedback {
            let m = out.len();
            let mut pos: usize = 0;
            while pos < m && pair_less(
                out[pos].from.as_str(),
                out[pos].to.as_str(),
                edge.from.as_str(),
                edge.to.as_str(),
            )
                invariant
                    m == out@.len(),
                    pos <= m,
                    e == (edge.from@, edge.to@),
                    old_out == feedback_pairs_of(out@),
                    forall|k: int| 0 <= k < pos ==> pair_lt(#[trigger] old_out[k], e),
                decreases m - pos,
            {
                pos = pos + 1;
            }
            let present = pos < m && text_equal(out[pos].from.as_str(), edge.from.as_str())
                && text_equal(out[pos].to.as_str(), edge.to.as_str());
            if !present {
                proof {
                    if pos < m {
                        lemma_pair_lt_total(old_out[pos as int], e);
                    }
                    assert(!old_out.contains(e)) by {
                        if old_out.contains(e) {
                            let k = choose|k: int| 0 <= k < old_out.len() && old_out[k] == e;
                            lemma_pair_lt_irreflexive(e);
                            if k > pos {
                                assert(pair_lt(old_out[pos as int], old_out[k]));
                                lemma_pair_lt_transitive(e, old_out[pos as int], e);
                            }
                        }
                    }
                }
                let item = LayeredFeedbackEdgeSnapshot {
                    from: edge.from.clone(),
                    to: edge.to.clone(),
                };
                out.insert(pos, item);
                proof {
                    let new_out = feedback_pairs_of(out@);
                    let p = pos as int;
                    assert(new_out =~= old_out.insert(p, e));
                    assert forall|a: int, b: int|
                        0 <= a < b < new_out.len() implies pair_lt(
                        #[trigger] new_out[a],
                        #[trigger] new_out[b],
                    ) by {
                        if b < p {
                        } else if b == p {
                        } else if a < p {
                            if b - 1 > p {
                                assert(pair_lt(old_out[p], old_out[b - 1]));
                                lemma_pair_lt_transitive(e, old_out[p], old_out[b - 1]);
                            }
                            lemma_pair_lt_transitive(new_out[a], e, new_out[b]);
                        } else if a == p {
                            if b - 1 > p {
                                assert(pair_lt(old_out[p], old_out[b - 1]));
                                lemma_pair_lt_transitive(e, old_out[p], old_out[b - 1]);
                            }
                        } else {
                            assert(pair_lt(old_out[a - 1], old_out[b - 1]));
                        }
                    }
                    assert forall|q: (Seq<char>, Seq<char>)| #[trigger]
                        new_out.contains(q) == (old_out.contains(q) || q == e) by {
                        if new_out.contains(q) {
                            let k = choose|k: int| 0 <= k < new_out.len() && new_out[k] == q;
                            if k < p {
                                assert(old_out[k] == q);
                            } else if k > p {
                                assert(old_out[k - 1] == q);
                            }
                        }
                        if old_out.contains(q) {
                            let k = choose|k: int| 0 <= k < old_out.len() && old_out[k] == q;
                            if k < p {
                                assert(new_out[k] == q);
                            } else {
                                assert(new_out[k + 1] == q);
                            }
                        }
                        if q == e {
                            assert(new_out[p] == q);
                        }
                    }
                }
            } else {
                proof {
                    assert(old_out[pos as int] == e);
                }
            }
        }
        i = i + 1;
    }
    assert(views.take(n as int) =~= views);
    out
}

/// A strictly sorted list of pairs is determined by which pairs it holds:
/// two such lists with the same pairs are the same list.
pub proof fn lemma_sorted_pairs_determined_by_content(
    a: Seq<(Seq<char>, Seq<char>)>,
    b: Seq<(Seq<char>, Seq<char>)>,
)
    requires
        strictly_sorted_pairs(a),
        strictly_sorted_pairs(b),
        forall|p: (Seq<char>, Seq<char>)| a.contains(p) <==> b.contains(p),
    ensures
        a == b,
    decreases a.len(),
{
    if a.len() == 0 {
        if b.len() > 0 {
            assert(b.contains(b[0]));
        }
        assert(a =~= b);
    } else if b.len() == 0 {
        assert(a.contains(a[0]));
    } else {
        assert(a.contains(a[0]));
        assert(b.contains(b[0]));
        let ka = choose|k: int| 0 <= k < a.len() && a[k] == b[0];
        let kb = choose|k: int| 0 <= k < b.len() && b[k] == a[0];
        if a[0] != b[0] {
            lemma_pair_lt_irreflexive(a[0]);
            assert(ka > 0 && kb > 0);
            assert(pair_lt(a[0], a[ka]));
            assert(pair_lt(b[0], b[kb]));
            lemma_pair_lt_transitive(a[0], b[0], a[0]);
        }
        let ra = a.drop_first();
        let rb = b.drop_first();
        assert forall|p: (Seq<char>, Seq<char>)| ra.contains(p) <==> rb.contains(p) by {
            if ra.contains(p) {
                let k = choose|k: int| 0 <= k < ra.len() && ra[k] == p;
                assert(a[k + 1] == p);
                assert(pair_lt(a[0], p));
                assert(b.contains(p));
                let j = choose|j: int| 0 <= j < b.len() && b[j] == p;
                lemma_pair_lt_irreflexive(p);
                assert(j != 0);
                assert(rb[j - 1] == p);
            }
            if rb.contains(p) {
                let k = choose|k: int| 0 <= k < rb.len() && rb[k] == p;
                assert(b[k + 1] == p);
                assert(pair_lt(b[0], p));
                assert(a.contains(p));
                let j = choose|j: int| 0 <= j < a.len() && a[j] == p;
                lemma_pair_lt_irreflexive(p);
                assert(j != 0);
                assert(ra[j - 1] == p);
            }
        }
        lemma_sorted_pairs_determined_by_content(ra, rb);
        assert(a =~= seq![a[0]] + ra);
        assert(b =~= seq![b[0]] + rb);
    }
}

/// Where a node was placed by rank: its id, rank, and order within the rank.
/// This is the part of a node snapshot that the rank metrics read.
#[derive(Debug, Clone)]
pub struct LayeredNodePlacement {
    pub id: String,
    pub rank: usize,
    pub order: usize,
}

/// The (rank, order) of `id` among the placements; a later placement of
/// the same id wins.
pub open spec fn placement_of(nodes: Seq<LayeredNodePlacement>, id: Seq<char>) -> Option<(int, int)>
    decreases nodes.len(),
{
    if nodes.len() == 0 {
        None
    } else if nodes.last().id@ == id {
        Some((nodes.last().rank as int, nodes.last().order as int))
    } else {
        placement_of(nodes.drop_last(), id)
    }
}

/// An edge between adjacent ranks, with the rank gap it crosses (the rank of
/// its source) and the within-rank orders of its ends.
pub struct GapEntry {
    pub from: Seq<char>,
    pub to: Seq<char>,
    pub gap: int,
    pub from_order: int,
    pub to_order: int,
}

/// The gap entry of an edge that goes to the next rank and whose ends are
/// both placed.
pub open spec fn gap_entry_of(nodes: Seq<LayeredNodePlacement>, e: EdgeSnapshotView) -> Option<GapEntry> {
    if e.to_rank != e.from_rank + 1 {
        None
    } else {
        match (placement_of(nodes, e.from), placement_of(nodes, e.to)) {
            (Some(f), Some(t)) => Some(
                GapEntry { from: e.from, to: e.to, gap: f.0, from_order: f.1, to_order: t.1 },
            ),
            _ => None,
        }
    }
}

/// The gap entries of the edges, in edge order.
pub open spec fn gap_entries(nodes: Seq<LayeredNodePlacement>, edges: Seq<EdgeSnapshotView>) -> Seq<GapEntry>
    decreases edges.len(),
{
    if edges.len() == 0 {
        seq![]
    } else {
        let prev = gap_entries(nodes, edges.drop_last());
        match gap_entry_of(nodes, edges.last()) {
            Some(g) => prev.push(g),
            None => prev,
        }
    }
}

/// Two edges in the same gap, sharing no end, whose orders swap between
/// the two ranks.
pub open spec fn entries_cross(a: GapEntry, b: GapEntry) -> bool {
    &&& a.gap == b.gap
    &&& a.from != b.from
    &&& a.to != b.to
    &&& ((a.from_order < b.from_order && a.to_order > b.to_order) || (a.from_order > b.from_order
        && a.to_order < b.to_order))
}

/// How many entries of `prefix` cross `b`.
pub open spec fn crossings_with(prefix: Seq<GapEntry>, b: GapEntry) -> nat
    decreases prefix.len(),
{
    if prefix.len() == 0 {
        0
    } else {
        crossings_with(prefix.drop_last(), b) + if entries_cross(prefix.last(), b) {
            1nat
        } else {
            0nat
        }
    }
}

/// How many pairs of entries cross, each pair counted once.
pub open spec fn crossing_count(entries: Seq<GapEntry>) -> nat
    decreases entries.len(),
{
    if entries.len() == 0 {
        0
    } else {
        crossing_count(entries.drop_last()) + crossings_with(entries.drop_last(), entries.last())
    }
}

/// How many edge snapshots are feedback edges.
pub open spec fn feedback_count(edges: Seq<EdgeSnapshotView>) -> nat
    decreases edges.len(),
{
    if edges.len() == 0 {
        0
    } else {
        feedback_count(edges.drop_last()) + if edges.last().feedback {
            1nat
        } else {
            0nat
        }
    }
}

/// The sum of the rank spans of the edge snapshots.
pub open spec fn rank_span_total(edges: Seq<EdgeSnapshotView>) -> int
    decreases edges.len(),
{
    if edges.len() == 0 {
        0
    } else {
        rank_span_total(edges.drop_last()) + edges.last().rank_span
    }
}

/// The placement metrics that depend on ranks and orders alone.
#[derive(Debug, Clone, Copy, PartialEq, Eq)]
pub struct LayeredRankMetrics {
    pub adjacent_rank_crossings: usize,
    pub feedback_edges: usize,
    pub total_rank_span: usize,
}

struct GapRecord {
    from: String,
    to: String,
    gap: usize,
    from_order: usize,
    to_order: usize,
}

impl View for GapRecord {
    type V = GapEntry;

    closed spec fn view(&self) -> GapEntry {
        GapEntry {
            from: self.from@,
            to: self.to@,
            gap: self.gap as int,
            from_order: self.from_order as int,
            to_order: self.to_order as int,
        }
    }
}

fn placement_lookup(nodes: &Vec<LayeredNodePlacement>, id: &str) -> (r: Option<(usize, usize)>)
    ensures
        match r {
            Some((rank, order)) => placement_of(nodes@, id@) == Some((rank as int, order as int)),
            None => placement_of(nodes@, id@) is None,
        },
{
    let mut k = nodes.len();
    assert(nodes@.take(k as int) =~= nodes@);
    while k > 0
        invariant
            k <= nodes@.len(),
            placement_of(nodes@, id@) == placement_of(nodes@.take(k as int), id@),
        decreases k,
    {
        assert(nodes@.take(k as int).drop_last() =~= nodes@.take(k - 1));
        let node = &nodes[k - 1];
        if text_equal(node.id.as_str(), id) {
            return Some((node.rank, node.order));
        }
        k = k - 1;
    }
    None
}

fn records_cross(a: &GapRecord, b: &GapRecord) -> (r: bool)
    ensures
        r == entries_cross(a@, b@),
{
    a.gap == b.gap && !text_equal(a.from.as_str(), b.from.as_str()) && !text_equal(
        a.to.as_str(),
        b.to.as_str(),
    ) && ((a.from_order < b.from_order && a.to_order > b.to_order) || (a.from_order
        > b.from_order && a.to_order < b.to_order))
}

proof fn lemma_feedback_count_bound(edges: Seq<EdgeSnapshotView>)
    ensures
        feedback_count(edges) <= edges.len(),
    decreases edges.len(),
{
    if edges.len() > 0 {
        lemma_feedback_count_bound(edges.drop_last());
    }
}

proof fn lemma_rank_span_total_monotone(edges: Seq<EdgeSnapshotView>, i: int)
    requires
        0 <= i <= edges.len(),
        forall|k: int| 0 <= k < edges.len() ==> (#[trigger] edges[k]).rank_span >= 0,
    ensures
        rank_span_total(edges.take(i)) <= rank_span_total(edges),
    decreases edges.len() - i,
{
    if i < edges.len() {
        lemma_rank_span_total_monotone(edges, i + 1);
        assert(edges.take(i + 1).drop_last() =~= edges.take(i));
    } else {
        assert(edges.take(i) =~= edges);
    }
}

proof fn lemma_crossings_with_prefix(prefix: Seq<GapEntry>, b: GapEntry, k: int)
    requires
        0 <= k <= prefix.len(),
    ensures
        crossings_with(prefix.take(k), b) <= crossings_with(prefix, b),
    decreases prefix.len() - k,
{
    if k < prefix.len() {
        lemma_crossings_with_prefix(prefix.drop_last(), b, k);
        assert(prefix.drop_last().take(k) =~= prefix.take(k));
    } else {
        assert(prefix.take(k) =~= prefix);
    }
}

proof fn lemma_crossing_count_prefix(entries: Seq<GapEntry>, j: int)
    requires
        0 <= j <= entries.len(),
    ensures
        crossing_count(entries.take(j)) <= crossing_count(entries),
    decreases entries.len() - j,
{
    if j < entries.len() {
        lemma_crossing_count_prefix(entries.drop_last(), j);
        assert(entries.drop_last().take(j) =~= entries.take(j));
    } else {
        assert(entries.take(j) =~= entries);
    }
}

/// The rank-based placement metrics of a snapshot, or `None` when a count
/// does not fit in `usize`: crossings between edges that join adjacent
/// ranks, the number of feedback edges, and the total rank span.
pub fn try_compute_rank_metrics(
    nodes: &Vec<LayeredNodePlacement>,
    edges: &Vec<LayeredEdgeSnapshot>,
) -> (m: Option<LayeredRankMetrics>)
    ensures
        m is Some <==> crossing_count(gap_entries(nodes@, edge_snapshot_views(edges@))) <= usize::MAX
            && rank_span_total(edge_snapshot_views(edges@)) <= usize::MAX,
        m matches Some(m) ==> {
            &&& m.adjacent_rank_crossings == crossing_count(
                gap_entries(nodes@, edge_snapshot_views(edges@)),
            )
            &&& m.feedback_edges == feedback_count(edge_snapshot_views(edges@))
            &&& m.total_rank_span == rank_span_total(edge_snapshot_views(edges@))
        },
{
    let ghost views = edge_snapshot_views(edges@);
    let n = edges.len();
    let mut records: Vec<GapRecord> = Vec::new();
    let mut feedback: usize = 0;
    let mut span: usize = 0;
    let mut i: usize = 0;
    assert(views.take(0) =~= Seq::<EdgeSnapshotView>::empty());
    assert(records@.map_values(|r: GapRecord| r@) =~= Seq::<GapEntry>::empty());
    while i < n
        invariant
            n == edges@.len(),
            i <= n,
            views == edge_snapshot_views(edges@),
            records@.map_values(|r: GapRecord| r@) == gap_entries(nodes@, views.take(i as int)),
            feedback == feedback_count(views.take(i as int)),
            span == rank_span_total(views.take(i as int)),
        decreases n - i,
    {
        let edge = &edges[i];
        proof {
            assert(views.take(i + 1).drop_last() =~= views.take(i as int));
            assert(views.take(i + 1).last() == edge@);
            lemma_feedback_count_bound(views.take(i as int));
            lemma_rank_span_total_monotone(views, i + 1);
        }
        if edge.rank_span > usize::MAX - span {
            return None;
        }
        if edge.feedback {
            feedback = feedback + 1;
        }
        span = span + edge.rank_span;
        if edge.from_rank < usize::MAX && edge.to_rank == edge.from_rank + 1 {
            let f = placement_lookup(nodes, edge.from.as_str());
            let t = placement_lookup(nodes, edge.to.as_str());
            match (f, t) {
                (Some((gap, from_order)), Some((_, to_order))) => {
                    let rec = GapRecord {
                        from: edge.from.clone(),
                        to: edge.to.clone(),
                        gap,
                        from_order,
                        to_order,
                    };
                    let ghost before = records@;
                    records.push(rec);
                    proof {
                        assert(records@.map_values(|r: GapRecord| r@) =~= before.map_values(
                            |r: GapRecord| r@,
                        ).push(rec@));
                    }
                },
                _ => {},
            }
        }
        i = i + 1;
    }
    assert(views.take(n as int) =~= views);
    let ghost entries = records@.map_values(|r: GapRecord| r@);
    let m = records.len();
    let mut crossings: usize = 0;
    let mut j: usize = 0;
    assert(entries.take(0) =~= Seq::<GapEntry>::empty());
    while j < m
        invariant
            m == records@.len(),
            j <= m,
            entries == records@.map_values(|r: GapRecord| r@),
            entries == gap_entries(nodes@, views),
            views == edge_snapshot_views(edges@),
            span == rank_span_total(views),
            feedback == feedback_count(views),
            crossings == crossing_count(entries.take(j as int)),
        decreases m - j,
    {
        let ghost before = entries.take(j as int);
        proof {
            assert(entries.take(j + 1).drop_last() =~= before);
            assert(entries.take(j + 1).last() == records@[j as int]@);
            lemma_crossing_count_prefix(entries, j + 1);
        }
        let mut k: usize = 0;
        assert(before.take(0) =~= Seq::<GapEntry>::empty());
        while k < j
            invariant
                j < m,
                m == records@.len(),
                k <= j,
                entries == records@.map_values(|r: GapRecord| r@),
                entries == gap_entries(nodes@, views),
                views == edge_snapshot_views(edges@),
                before == entries.take(j as int),
                crossing_count(before) + crossings_with(before, records@[j as int]@)
                    <= crossing_count(entries),
                crossings == crossing_count(before) + crossings_with(
                    before.take(k as int),
                    records@[j as int]@,
                ),
            decreases j - k,
        {
            proof {
                assert(before.take(k + 1).drop_last() =~= before.take(k as int));
                assert(before.take(k + 1).last() == records@[k as int]@);
                lemma_crossings_with_prefix(before, records@[j as int]@, k + 1);
            }
            if records_cross(&records[k], &records[j]) {
                if crossings == usize::MAX {
                    proof {
                        assert(crossings_with(before.take(k + 1), records@[j as int]@)
                            == crossings_with(before.take(k as int), records@[j as int]@) + 1);
                    }
                    return None;
                }
                crossings = crossings + 1;
            }
            k = k + 1;
        }
        assert(before.take(j as int) =~= before);
        j = j + 1;
    }
    assert(entries.take(m as int) =~= entries);
    Some(LayeredRankMetrics {
        adjacent_rank_crossings: crossings,
        feedback_edges: feedback,
        total_rank_span: span,
    })
}

/// The rank-based placement metrics of a snapshot: crossings between
/// edges that join adjacent ranks, the number of feedback edges, and the
/// total rank span. The counts must fit in `usize`.
pub fn compute_rank_metrics(nodes: &Vec<LayeredNodePlacement>, edges: &Vec<LayeredEdgeSnapshot>) -> (m: LayeredRankMetrics)
    requires
        crossing_count(gap_entries(nodes@, edge_snapshot_views(edges@))) <= usize::MAX,
        rank_span_total(edge_snapshot_views(edges@)) <= usize::MAX,
    ensures
        m.adjacent_rank_crossings == crossing_count(
            gap_entries(nodes@, edge_snapshot_views(edges@)),
        ),
        m.feedback_edges == feedback_count(edge_snapshot_views(edges@)),
        m.total_rank_span == rank_span_total(edge_snapshot_views(edges@)),
{
    match try_compute_rank_metrics(nodes, edges) {
        Some(m) => m,
        None => {
            proof {
                assert(false);
            }
            LayeredRankMetrics { adjacent_rank_crossings: 0, feedback_edges: 0, total_rank_span: 0 }
        },
    }
}

/// The integer placement metrics of a layout, the ones a candidate may not
/// regress on.
#[derive(Debug, Clone, Copy, PartialEq, Eq)]
pub struct LayeredCountMetrics {
    pub node_overlaps: usize,
    pub adjacent_rank_crossings: usize,
    pub straight_line_crossings: usize,
    pub feedback_edges: usize,
    pub total_rank_span: usize,
}

/// How a candidate layout is weighed against the current one: rejected
/// outright, or accepted subject to the size bounds that belong to the
/// first metric it improves (or, when it improves none of them, to a
/// required shortening of its centerlines).
#[derive(Debug, Clone, Copy, PartialEq, Eq)]
pub enum CandidateRule {
    /// The candidate is worse on overlaps, crossings or feedback edges.
    Reject,
    /// Fewer crossings between adjacent ranks.
    FewerAdjacentRankCrossings,
    /// Fewer crossings of straight center-to-center segments.
    FewerStraightLineCrossings,
    /// Fewer feedback edges.
    FewerFeedbackEdges,
    /// A smaller total rank span.
    ShorterTotalRankSpan,
    /// None of the above improved: only shorter centerlines can win.
    ShorterCenterlines,
}

/// The rule that applies to a candidate, from the integer metrics.
pub open spec fn candidate_rule_of(current: LayeredCountMetrics, candidate: LayeredCountMetrics) -> CandidateRule {
    let a = current;
    let b = candidate;
    if b.node_overlaps > a.node_overlaps || b.adjacent_rank_crossings > a.adjacent_rank_crossings
        || b.straight_line_crossings > a.straight_line_crossings || b.feedback_edges
        > a.feedback_edges {
        CandidateRule::Reject
    } else if b.adjacent_rank_crossings < a.adjacent_rank_crossings {
        CandidateRule::FewerAdjacentRankCrossings
    } else if b.straight_line_crossings < a.straight_line_crossings {
        CandidateRule::FewerStraightLineCrossings
    } else if b.feedback_edges < a.feedback_edges {
        CandidateRule::FewerFeedbackEdges
    } else if b.total_rank_span < a.total_rank_span {
        CandidateRule::ShorterTotalRankSpan
    } else {
        CandidateRule::ShorterCenterlines
    }
}

/// Which acceptance rule governs `candidate` against `current`.
pub fn candidate_rule(current: &LayeredCountMetrics, candidate: &LayeredCountMetrics) -> (rule: CandidateRule)
    ensures
        rule == candidate_rule_of(*current, *candidate),
{
    let a = current;
    let b = candidate;
    if b.node_overlaps > a.node_overlaps || b.adjacent_rank_crossings > a.adjacent_rank_crossings
        || b.straight_line_crossings > a.straight_line_crossings || b.feedback_edges
        > a.feedback_edges {
        CandidateRule::Reject
    } else if b.adjacent_rank_crossings < a.adjacent_rank_crossings {
        CandidateRule::FewerAdjacentRankCrossings
    } else if b.straight_line_crossings < a.straight_line_crossings {
        CandidateRule::FewerStraightLineCrossings
    } else if b.feedback_edges < a.feedback_edges {
        CandidateRule::FewerFeedbackEdges
    } else if b.total_rank_span < a.total_rank_span {
        CandidateRule::ShorterTotalRankSpan
    } else {
        CandidateRule::ShorterCenterlines
    }
}

/// The guard is Pareto-safe on the hard metrics: a candidate that is not
/// rejected is no worse than the current layout on node overlaps,
/// adjacent-rank crossings, straight-line crossings and feedback edges, and
/// the rule it falls under names a metric it strictly improves, every
/// earlier metric in the list being unchanged.
pub proof fn lemma_candidate_rule_pareto_safe(current: LayeredCountMetrics, candidate: LayeredCountMetrics)
    ensures
        candidate_rule_of(current, candidate) != CandidateRule::Reject ==> {
            &&& candidate.node_overlaps <= current.node_overlaps
            &&& candidate.adjacent_rank_crossings <= current.adjacent_rank_crossings
            &&& candidate.straight_line_crossings <= current.straight_line_crossings
            &&& candidate.feedback_edges <= current.feedback_edges
        },
        candidate_rule_of(current, candidate) == CandidateRule::FewerAdjacentRankCrossings
            ==> candidate.adjacent_rank_crossings < current.adjacent_rank_crossings,
        candidate_rule_of(current, candidate) == CandidateRule::FewerStraightLineCrossings ==> {
            &&& candidate.adjacent_rank_crossings == current.adjacent_rank_crossings
            &&& candidate.straight_line_crossings < current.straight_line_crossings
        },
        candidate_rule_of(current, candidate) == CandidateRule::FewerFeedbackEdges ==> {
            &&& candidate.adjacent_rank_crossings == current.adjacent_rank_crossings
            &&& candidate.straight_line_crossings == current.straight_line_crossings
            &&& candidate.feedback_edges < current.feedback_edges
        },
        candidate_rule_of(current, candidate) == CandidateRule::ShorterTotalRankSpan ==> {
            &&& candidate.adjacent_rank_crossings == current.adjacent_rank_crossings
            &&& candidate.straight_line_crossings == current.straight_line_crossings
            &&& candidate.feedback_edges == current.feedback_edges
            &&& candidate.total_rank_span < current.total_rank_span
        },
        candidate_rule_of(current, candidate) == CandidateRule::ShorterCenterlines ==> {
            &&& candidate.adjacent_rank_crossings == current.adjacent_rank_crossings
            &&& candidate.straight_line_crossings == current.straight_line_crossings
            &&& candidate.feedback_edges == current.feedback_edges
            &&& candidate.total_rank_span >= current.total_rank_span
        },
{
}

/// A candidate is rejected outright exactly when it is worse than the
/// current layout on node overlaps, adjacent-rank crossings, straight-line
/// crossings or feedback edges; one that is no worse on all four is never
/// rejected, whatever its rank span.
pub proof fn lemma_candidate_rejected_iff_regression(current: LayeredCountMetrics, candidate: LayeredCountMetrics)
    ensures
        (candidate_rule_of(current, candidate) == CandidateRule::Reject) <==> (
        candidate.node_overlaps > current.node_overlaps || candidate.adjacent_rank_crossings
            > current.adjacent_rank_crossings || candidate.straight_line_crossings
            > current.straight_line_crossings || candidate.feedback_edges > current.feedback_edges),
{
}

/// Two edges in different rank gaps never count as crossing: when every
/// gap entry lies in a gap of its own, the adjacent-rank crossing count is 0.
pub proof fn lemma_crossings_need_a_shared_gap(entries: Seq<GapEntry>)
    requires
        forall|i: int, j: int|
            0 <= i < j < entries.len() ==> (#[trigger] entries[i]).gap != (#[trigger] entries[j]).gap,
    ensures
        crossing_count(entries) == 0,
    decreases entries.len(),
{
    if entries.len() > 0 {
        let prev = entries.drop_last();
        assert forall|i: int, j: int| 0 <= i < j < prev.len() implies (#[trigger] prev[i]).gap
            != (#[trigger] prev[j]).gap by {
            assert(prev[i] == entries[i] && prev[j] == entries[j]);
        }
        lemma_crossings_need_a_shared_gap(prev);
        lemma_no_crossing_with_other_gaps(prev, entries.last());
    }
}

proof fn lemma_no_crossing_with_other_gaps(prefix: Seq<GapEntry>, b: GapEntry)
    requires
        forall|i: int| 0 <= i < prefix.len() ==> (#[trigger] prefix[i]).gap != b.gap,
    ensures
        crossings_with(prefix, b) == 0,
    decreases prefix.len(),
{
    if prefix.len() > 0 {
        let prev = prefix.drop_last();
        assert forall|i: int| 0 <= i < prev.len() implies (#[trigger] prev[i]).gap != b.gap by {
            assert(prev[i] == prefix[i]);
        }
        lemma_no_crossing_with_other_gaps(prev, b);
        assert(prefix[prefix.len() - 1].gap != b.gap);
    }
}

/// Two adjacent-rank edges cross exactly when they leave the same rank,
/// share neither end, and their ends come in opposite orders on the two
/// ranks.
pub proof fn lemma_two_edges_cross(x: GapEntry, y: GapEntry)
    ensures
        crossing_count(seq![x, y]) == (if x.gap == y.gap && x.from != y.from && x.to != y.to && (
        (x.from_order < y.from_order && x.to_order > y.to_order) || (x.from_order > y.from_order
            && x.to_order < y.to_order)) {
            1nat
        } else {
            0nat
        }),
{
    let s = seq![x, y];
    assert(s.drop_last() =~= seq![x]);
    let e = Seq::<GapEntry>::empty();
    assert(seq![x].drop_last() =~= e);
    assert(crossing_count(e) == 0);
    assert(crossings_with(e, x) == 0);
    assert(crossings_with(e, y) == 0);
    assert(seq![x].last() == x);
    assert(crossing_count(seq![x]) == 0);
    assert(crossings_with(seq![x], y) == if entries_cross(x, y) {
        1nat
    } else {
        0nat
    }) by {
        assert(seq![x].last() == x);
    }
}

/// Every edge snapshot describes a listed edge whose ends are both ranked:
/// its ranks are the rank positions of its ends, its span is their
/// distance, and it is a feedback edge exactly when the ranking reversed
/// this very edge (from, to) or it does not point to a later rank.
pub proof fn lemma_edge_snapshot_facts(
    rows: Seq<Seq<Seq<char>>>,
    reversed: Seq<(Seq<char>, Seq<char>)>,
    ends: Seq<(Seq<char>, Seq<char>)>,
)
    ensures
        edge_snapshots_of(rows, reversed, ends).len() <= ends.len(),
        forall|k: int|
            0 <= k < edge_snapshots_of(rows, reversed, ends).len() ==> {
                let v = #[trigger] edge_snapshots_of(rows, reversed, ends)[k];
                &&& ends.contains((v.from, v.to))
                &&& rank_position_of(rows, v.from) matches Some(f) && f.0 == v.from_rank
                &&& rank_position_of(rows, v.to) matches Some(t) && t.0 == v.to_rank
                &&& v.rank_span == (if v.from_rank >= v.to_rank {
                    v.from_rank - v.to_rank
                } else {
                    v.to_rank - v.from_rank
                })
                &&& v.feedback <==> (reversed.contains((v.from, v.to)) || v.to_rank <= v.from_rank)
            },
    decreases ends.len(),
{
    if ends.len() > 0 {
        let prev_ends = ends.drop_last();
        lemma_edge_snapshot_facts(rows, reversed, prev_ends);
        let prev = edge_snapshots_of(rows, reversed, prev_ends);
        let all = edge_snapshots_of(rows, reversed, ends);
        assert forall|k: int| 0 <= k < all.len() implies {
            let v = #[trigger] all[k];
            &&& ends.contains((v.from, v.to))
            &&& rank_position_of(rows, v.from) matches Some(f) && f.0 == v.from_rank
            &&& rank_position_of(rows, v.to) matches Some(t) && t.0 == v.to_rank
            &&& v.rank_span == (if v.from_rank >= v.to_rank {
                v.from_rank - v.to_rank
            } else {
                v.to_rank - v.from_rank
            })
            &&& v.feedback <==> (reversed.contains((v.from, v.to)) || v.to_rank <= v.from_rank)
        } by {
            if k < prev.len() {
                assert(all[k] == prev[k]);
                let v = prev[k];
                assert(prev_ends.contains((v.from, v.to)));
                let i = choose|i: int| 0 <= i < prev_ends.len() && prev_ends[i] == (v.from, v.to);
                assert(ends[i] == prev_ends[i]);
            } else {
                assert(ends[ends.len() - 1] == ends.last());
            }
        }
    }
}

} // verus!
