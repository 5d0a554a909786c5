use mermaid_layout::edge_geometry::{arrowhead_inset, endpoint_segment};
use mermaid_layout::ir::{DiagramKind, EdgeArrowhead};

#[test]
fn class_diagram_arrowheads_are_inset() {
    assert_eq!(arrowhead_inset(DiagramKind::Class, Some(EdgeArrowhead::OpenTriangle)), 17);
    assert_eq!(arrowhead_inset(DiagramKind::Class, Some(EdgeArrowhead::ClassDependency)), 5);
    assert_eq!(arrowhead_inset(DiagramKind::Class, None), 4);
}

#[test]
fn other_diagrams_are_not_inset() {
    assert_eq!(arrowhead_inset(DiagramKind::Flowchart, Some(EdgeArrowhead::OpenTriangle)), 0);
    assert_eq!(arrowhead_inset(DiagramKind::State, None), 0);
    assert_eq!(arrowhead_inset(DiagramKind::Er, Some(EdgeArrowhead::ClassDependency)), 0);
}

#[test]
fn endpoint_segments_pick_the_end_pair() {
    assert_eq!(endpoint_segment(0, true), None);
    assert_eq!(endpoint_segment(1, false), None);
    assert_eq!(endpoint_segment(2, true), Some((0, 1)));
    assert_eq!(endpoint_segment(2, false), Some((0, 1)));
    assert_eq!(endpoint_segment(3, true), Some((0, 1)));
    assert_eq!(endpoint_segment(3, false), Some((1, 2)));
}
