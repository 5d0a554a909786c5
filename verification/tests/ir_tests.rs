use mermaid_layout::ir::{C4ShapeKind, DiagramKind, Direction, Graph, NodeShape};
use mermaid_layout::layered::direction_name;

#[test]
fn c4_shape_kind_names_are_snake_case() {
    assert_eq!(C4ShapeKind::Person.as_str(), "person");
    assert_eq!(C4ShapeKind::SystemDb.as_str(), "system_db");
    assert_eq!(C4ShapeKind::ExternalContainerQueue.as_str(), "external_container_queue");
    assert_eq!(C4ShapeKind::ExternalComponentQueue.as_str(), "external_component_queue");
}

#[test]
fn c4_shape_kind_names_are_distinct() {
    let kinds = [
        C4ShapeKind::Person,
        C4ShapeKind::ExternalPerson,
        C4ShapeKind::System,
        C4ShapeKind::SystemDb,
        C4ShapeKind::SystemQueue,
        C4ShapeKind::ExternalSystem,
        C4ShapeKind::ExternalSystemDb,
        C4ShapeKind::ExternalSystemQueue,
        C4ShapeKind::Container,
        C4ShapeKind::ContainerDb,
        C4ShapeKind::ContainerQueue,
        C4ShapeKind::ExternalContainer,
        C4ShapeKind::ExternalContainerDb,
        C4ShapeKind::ExternalContainerQueue,
        C4ShapeKind::Component,
        C4ShapeKind::ComponentDb,
        C4ShapeKind::ComponentQueue,
        C4ShapeKind::ExternalComponent,
        C4ShapeKind::ExternalComponentDb,
        C4ShapeKind::ExternalComponentQueue,
    ];
    for (i, a) in kinds.iter().enumerate() {
        for (j, b) in kinds.iter().enumerate() {
            assert_eq!(i == j, a.as_str() == b.as_str());
        }
    }
}

#[test]
fn direction_tokens_parse_in_any_case() {
    assert_eq!(Direction::from_token("TD"), Some(Direction::TopDown));
    assert_eq!(Direction::from_token("tb"), Some(Direction::TopDown));
    assert_eq!(Direction::from_token("Bt"), Some(Direction::BottomTop));
    assert_eq!(Direction::from_token("lr"), Some(Direction::LeftRight));
    assert_eq!(Direction::from_token("rL"), Some(Direction::RightLeft));
}

#[test]
fn direction_tokens_reject_other_text() {
    assert_eq!(Direction::from_token(""), None);
    assert_eq!(Direction::from_token("T"), None);
    assert_eq!(Direction::from_token("TDX"), None);
    assert_eq!(Direction::from_token("DT"), None);
    assert_eq!(Direction::from_token(" TD"), None);
    assert_eq!(Direction::from_token("ＴＤ"), None);
}

#[test]
fn direction_names_parse_back() {
    for d in [Direction::TopDown, Direction::BottomTop, Direction::LeftRight, Direction::RightLeft] {
        assert_eq!(Direction::from_token(direction_name(d)), Some(d));
    }
    assert_eq!(direction_name(Direction::TopDown), "TD");
    assert_eq!(direction_name(Direction::RightLeft), "RL");
}

#[test]
fn new_graph_is_an_empty_top_down_flowchart() {
    let g = Graph::new();
    assert_eq!(g.kind, DiagramKind::Flowchart);
    assert_eq!(g.direction, Direction::TopDown);
    assert!(g.nodes.is_empty());
    assert!(g.node_order.is_empty());
    assert!(g.edges.is_empty());
    assert!(g.block.is_none());
    let d = Graph::default();
    assert_eq!(d.kind, DiagramKind::Flowchart);
    let k = Graph::with_kind(DiagramKind::Mindmap);
    assert_eq!(k.kind, DiagramKind::Mindmap);
    assert!(k.nodes.is_empty());
}

#[test]
fn ensure_node_adds_missing_nodes_with_defaults() {
    let mut g = Graph::new();
    g.ensure_node("B", None, None);
    let b = g.node("B").expect("B is present");
    assert_eq!(b.id, "B");
    assert_eq!(b.label, "B");
    assert_eq!(b.shape, NodeShape::Rectangle);
    assert_eq!(g.node_order_index("B"), Some(0));
    assert!(g.node("A").is_none());
    assert_eq!(g.node_order_index("A"), None);
}

#[test]
fn ensure_node_keeps_declaration_order_and_id_order() {
    let mut g = Graph::new();
    g.ensure_node("c", None, None);
    g.ensure_node("a", Some("Alpha".to_string()), None);
    g.ensure_node("b", None, Some(NodeShape::Diamond));
    let ids: Vec<&str> = g.nodes.iter().map(|n| n.id.as_str()).collect();
    assert_eq!(ids, vec!["a", "b", "c"]);
    assert_eq!(g.node_order, vec!["c".to_string(), "a".to_string(), "b".to_string()]);
    assert_eq!(g.node_order_index("c"), Some(0));
    assert_eq!(g.node_order_index("a"), Some(1));
    assert_eq!(g.node_order_index("b"), Some(2));
    assert_eq!(g.node("a").unwrap().label, "Alpha");
    assert_eq!(g.node("b").unwrap().shape, NodeShape::Diamond);
}

#[test]
fn ensure_node_updates_existing_nodes_in_place() {
    let mut g = Graph::new();
    g.ensure_node("x", Some("first".to_string()), Some(NodeShape::Circle));
    g.ensure_node("y", None, None);
    g.ensure_node("x", None, None);
    assert_eq!(g.node("x").unwrap().label, "first");
    assert_eq!(g.node("x").unwrap().shape, NodeShape::Circle);
    g.ensure_node("x", Some("second".to_string()), None);
    assert_eq!(g.node("x").unwrap().label, "second");
    assert_eq!(g.node("x").unwrap().shape, NodeShape::Circle);
    g.ensure_node("x", None, Some(NodeShape::Hexagon));
    assert_eq!(g.node("x").unwrap().label, "second");
    assert_eq!(g.node("x").unwrap().shape, NodeShape::Hexagon);
    assert_eq!(g.nodes.len(), 2);
    assert_eq!(g.node_order, vec!["x".to_string(), "y".to_string()]);
}

#[test]
fn ensure_node_orders_ids_by_code_point() {
    let mut g = Graph::new();
    for id in ["b", "B", "ab", "a", "é", "", "Z"] {
        g.ensure_node(id, None, None);
    }
    let ids: Vec<&str> = g.nodes.iter().map(|n| n.id.as_str()).collect();
    let mut sorted = ids.clone();
    sorted.sort();
    assert_eq!(ids, sorted);
    assert_eq!(g.nodes.len(), 7);
    assert_eq!(g.node_order_index(""), Some(5));
    assert_eq!(g.node_order_index("é"), Some(4));
}

#[test]
fn well_formedness_is_checked() {
    let mut g = Graph::new();
    assert!(g.is_well_formed());
    g.ensure_node("b", None, None);
    g.ensure_node("a", None, None);
    assert!(g.is_well_formed());
    let mut unsorted = g.clone();
    unsorted.nodes.swap(0, 1);
    assert!(!unsorted.is_well_formed());
    let mut repeated = g.clone();
    repeated.node_order[1] = "b".to_string();
    assert!(!repeated.is_well_formed());
    let mut short = g.clone();
    short.node_order.pop();
    assert!(!short.is_well_formed());
    let mut stranger = g.clone();
    stranger.node_order[0] = "z".to_string();
    assert!(!stranger.is_well_formed());
}
