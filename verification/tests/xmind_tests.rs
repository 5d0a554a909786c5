use mermaid_layout::ir::{Edge, EdgeStyle, MindmapData, MindmapNode, MindmapNodeType, NodeShape};
use mermaid_layout::xmind::{
    assign_x_positions, is_cjk, x_walk_ends, x_walk_ends_within, xmind_edge_plans, y_center_steps, XmindEdgePlan, YStep, mindmap_entry, root_child_index, section_color, section_label_color,
    split_xmind_lines, xmind_char_class, xmind_node_paint, xmind_root_id, XmindCharClass,
};

fn mm_node(id: &str, level: usize) -> MindmapNode {
    MindmapNode {
        id: id.to_string(),
        label: id.to_uppercase(),
        level,
        section: None,
        node_type: MindmapNodeType::Default,
        icon: None,
        class: None,
        children: Vec::new(),
    }
}

#[test]
fn cjk_ranges_are_recognised() {
    assert!(is_cjk('中'));
    assert!(is_cjk('\u{3400}'));
    assert!(is_cjk('\u{4dbf}'));
    assert!(is_cjk('\u{20000}'));
    assert!(is_cjk('\u{2ceaf}'));
    assert!(!is_cjk('a'));
    assert!(!is_cjk('あ'));
    assert!(!is_cjk('\u{2a6e0}'));
    assert!(!is_cjk('\u{2ceb0}'));
}

#[test]
fn section_colors_cycle_through_four() {
    assert_eq!(section_color(0), "#ec662d");
    assert_eq!(section_color(1), "#90c43c");
    assert_eq!(section_color(2), "#f3cf4f");
    assert_eq!(section_color(3), "#366ae5");
    assert_eq!(section_color(4), "#ec662d");
    assert_eq!(section_color(9), section_color(1));
}

#[test]
fn label_colors_contrast_with_section_fills() {
    assert_eq!(section_label_color("#90c43c"), "#061406");
    assert_eq!(section_label_color("#f3cf4f"), "#061406");
    assert_eq!(section_label_color("#ec662d"), "#fafcfa");
    assert_eq!(section_label_color("#366ae5"), "#fafcfa");
    assert_eq!(section_label_color("anything"), "#fafcfa");
}

#[test]
fn xmind_lines_break_at_br_markup_and_newlines() {
    assert_eq!(split_xmind_lines("a<br>b"), vec!["a".to_string(), "b".to_string()]);
    assert_eq!(split_xmind_lines("a<br/>b\nc"), vec!["a", "b", "c"]);
    assert_eq!(split_xmind_lines("  one  <br/>  two "), vec!["one", "two"]);
    assert_eq!(split_xmind_lines(""), vec![""]);
    assert_eq!(split_xmind_lines("x\n"), vec!["x", ""]);
    assert_eq!(split_xmind_lines("<br>"), vec!["", ""]);
    assert_eq!(split_xmind_lines("<BR>"), vec!["<BR>"]);
    assert_eq!(split_xmind_lines("a<br /b"), vec!["a<br /b"]);
    assert_eq!(split_xmind_lines("\u{3000}全角\u{3000}"), vec!["全角"]);
}

#[test]
fn xmind_lines_replace_long_markup_first() {
    assert_eq!(split_xmind_lines("<br<br/>>"), vec!["<br", ">"]);
    assert_eq!(split_xmind_lines("<br/<br>>"), vec!["<br/", ">"]);
}

#[test]
fn xmind_char_classes() {
    assert_eq!(xmind_char_class('中'), XmindCharClass::Cjk);
    assert_eq!(xmind_char_class(' '), XmindCharClass::Whitespace);
    assert_eq!(xmind_char_class('\t'), XmindCharClass::Whitespace);
    assert_eq!(xmind_char_class('\u{0b}'), XmindCharClass::Ascii);
    assert_eq!(xmind_char_class(','), XmindCharClass::Punctuation);
    assert_eq!(xmind_char_class('~'), XmindCharClass::Punctuation);
    assert_eq!(xmind_char_class('a'), XmindCharClass::Ascii);
    assert_eq!(xmind_char_class('7'), XmindCharClass::Ascii);
    assert_eq!(xmind_char_class('é'), XmindCharClass::Wide);
    assert_eq!(xmind_char_class('あ'), XmindCharClass::Wide);
}

#[test]
fn node_paint_depends_on_level_and_section() {
    let root = xmind_node_paint(0, Some(2));
    assert_eq!(root.shape, NodeShape::RoundRect);
    assert_eq!(root.fill, "#28292d");
    assert_eq!(root.text_color, "#fdfcfd");
    assert_eq!(root.stroke, "none");
    assert_eq!(root.line_color, None);
    let branch = xmind_node_paint(1, Some(1));
    assert_eq!(branch.shape, NodeShape::Stadium);
    assert_eq!(branch.fill, "#90c43c");
    assert_eq!(branch.text_color, "#061406");
    assert_eq!(branch.line_color, Some("#90c43c"));
    let plain_branch = xmind_node_paint(1, None);
    assert_eq!(plain_branch.fill, "#ec662d");
    assert_eq!(plain_branch.text_color, "#fafcfa");
    let topic = xmind_node_paint(3, Some(3));
    assert_eq!(topic.shape, NodeShape::Text);
    assert_eq!(topic.fill, "transparent");
    assert_eq!(topic.text_color, "#0d0d0d");
    assert_eq!(topic.line_color, Some("#366ae5"));
}

#[test]
fn root_is_declared_root_or_first_node() {
    let mut mm = MindmapData { nodes: vec![mm_node("a", 0), mm_node("b", 1)], root_id: None };
    assert_eq!(xmind_root_id(&mm), Some("a".to_string()));
    mm.root_id = Some("b".to_string());
    assert_eq!(xmind_root_id(&mm), Some("b".to_string()));
    let empty = MindmapData { nodes: Vec::new(), root_id: None };
    assert_eq!(xmind_root_id(&empty), None);
}

#[test]
fn mindmap_entries_resolve_to_the_last_declaration() {
    let mm = MindmapData {
        nodes: vec![mm_node("a", 0), mm_node("b", 1), mm_node("a", 2)],
        root_id: None,
    };
    assert_eq!(mindmap_entry(&mm, "a").map(|n| n.level), Some(2));
    assert_eq!(mindmap_entry(&mm, "b").map(|n| n.level), Some(1));
    assert!(mindmap_entry(&mm, "c").is_none());
}

#[test]
fn root_child_indexes() {
    let children = vec!["x".to_string(), "y".to_string(), "x".to_string()];
    assert_eq!(root_child_index(&children, "x"), 2);
    assert_eq!(root_child_index(&children, "y"), 1);
    assert_eq!(root_child_index(&children, "z"), 0);
}

fn with_children(mut n: MindmapNode, children: &[&str]) -> MindmapNode {
    n.children = children.iter().map(|c| c.to_string()).collect();
    n
}

#[test]
fn x_placement_walks_parents_before_children() {
    let mm = MindmapData {
        nodes: vec![
            with_children(mm_node("r", 0), &["a", "b"]),
            with_children(mm_node("a", 1), &["c", "ghost"]),
            mm_node("c", 2),
            mm_node("b", 1),
        ],
        root_id: Some("r".to_string()),
    };
    let steps = assign_x_positions(&mm, "r");
    let seen: Vec<(&str, &str, u32)> =
        steps.iter().map(|s| (s.child.as_str(), s.parent.as_str(), s.gap)).collect();
    assert_eq!(seen, vec![("a", "r", 48), ("c", "a", 24), ("b", "r", 48)]);
}

#[test]
fn x_placement_from_an_unknown_root_is_empty() {
    let mm = MindmapData { nodes: vec![mm_node("r", 0)], root_id: None };
    assert!(assign_x_positions(&mm, "missing").is_empty());
    assert!(assign_x_positions(&mm, "r").is_empty());
}

#[test]
fn x_placement_uses_the_last_declaration_of_an_id() {
    let mm = MindmapData {
        nodes: vec![
            with_children(mm_node("r", 0), &["a"]),
            with_children(mm_node("a", 1), &["x"]),
            mm_node("x", 2),
            with_children(mm_node("a", 3), &[]),
        ],
        root_id: None,
    };
    let steps = assign_x_positions(&mm, "r");
    let seen: Vec<(&str, &str, u32)> =
        steps.iter().map(|s| (s.child.as_str(), s.parent.as_str(), s.gap)).collect();
    assert_eq!(seen, vec![("a", "r", 24)]);
}

#[test]
fn x_walk_end_is_detected() {
    let tree = MindmapData {
        nodes: vec![
            with_children(mm_node("r", 0), &["a", "b"]),
            with_children(mm_node("a", 1), &["c"]),
            mm_node("c", 2),
        ],
        root_id: None,
    };
    assert!(x_walk_ends(&tree, "r"));
    assert!(x_walk_ends_within(&tree, "r", 3));
    assert!(!x_walk_ends_within(&tree, "r", 2));
    let cyclic = MindmapData {
        nodes: vec![
            with_children(mm_node("r", 0), &["a"]),
            with_children(mm_node("a", 1), &["b"]),
            with_children(mm_node("b", 2), &["a"]),
        ],
        root_id: None,
    };
    assert!(!x_walk_ends(&cyclic, "r"));
    assert!(x_walk_ends(&cyclic, "missing"));
    let self_loop = MindmapData { nodes: vec![with_children(mm_node("r", 0), &["r"])], root_id: None };
    assert!(!x_walk_ends(&self_loop, "r"));
}

fn describe(steps: &[YStep]) -> Vec<String> {
    steps
        .iter()
        .map(|s| match s {
            YStep::Leaf { id, branch } => format!("leaf {id} {branch}"),
            YStep::Parent { id, first, last } => format!("parent {id} {first} {last}"),
        })
        .collect()
}

#[test]
fn y_centring_steps_go_children_first() {
    let mm = MindmapData {
        nodes: vec![
            with_children(mm_node("r", 0), &["a", "b"]),
            with_children(mm_node("a", 1), &["c", "d", "ghost"]),
            mm_node("c", 2),
            mm_node("d", 2),
            mm_node("b", 1),
        ],
        root_id: None,
    };
    let steps = y_center_steps(&mm, "r");
    assert_eq!(
        describe(&steps),
        vec!["leaf c 0", "leaf d 0", "leaf ghost 0", "parent a 0 2", "leaf b 1"]
    );
    let lonely = MindmapData { nodes: vec![mm_node("r", 0)], root_id: None };
    assert!(y_center_steps(&lonely, "r").is_empty());
}

#[test]
fn xmind_edges_are_planned_from_the_mindmap() {
    let mut b = mm_node("b", 1);
    b.section = Some(3);
    let mm = MindmapData {
        nodes: vec![with_children(mm_node("r", 0), &["a", "b"]), mm_node("a", 1), b, mm_node("c", 2)],
        root_id: None,
    };
    let edge = |from: &str, to: &str| Edge {
        from: from.to_string(),
        to: to.to_string(),
        label: None,
        start_label: None,
        end_label: None,
        directed: false,
        arrow_start: false,
        arrow_end: false,
        arrow_start_kind: None,
        arrow_end_kind: None,
        start_decoration: None,
        end_decoration: None,
        style: EdgeStyle::Solid,
    };
    let edges = vec![edge("r", "a"), edge("r", "b"), edge("b", "c"), edge("x", "a")];
    let roots = vec!["a".to_string(), "b".to_string()];
    let plans = xmind_edge_plans(&mm, &roots, &edges);
    assert_eq!(
        plans,
        vec![
            XmindEdgePlan { index: 0, from_root: true, section: 0, child_index: 0 },
            XmindEdgePlan { index: 1, from_root: true, section: 3, child_index: 1 },
            XmindEdgePlan { index: 2, from_root: false, section: 0, child_index: 0 },
        ]
    );
}
