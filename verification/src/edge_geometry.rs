//! Edge endpoint geometry that does not depend on coordinates: how far an
//! arrowhead marker reaches past the path end, and which segment carries an
//! endpoint's tangent.

use vstd::prelude::*;
use crate::ir::{DiagramKind, EdgeArrowhead};

verus! {

/// How many whole pixels an arrowhead marker reaches past the path end:
/// only class diagrams draw markers that need it.
pub open spec fn arrowhead_inset_px(kind: DiagramKind, arrow_kind: Option<EdgeArrowhead>) -> int {
    match kind {
        DiagramKind::Class => match arrow_kind {
            Some(EdgeArrowhead::OpenTriangle) => 17,
            Some(EdgeArrowhead::ClassDependency) => 5,
            None => 4,
        },
        _ => 0,
    }
}

/// How many pixels the arrowhead marker penetrates past the path endpoint.
///
/// The layout router shortens routed paths by this much before markers are
/// painted, while the renderer owns only the final marker definitions.
pub fn arrowhead_inset(kind: DiagramKind, arrow_kind: Option<EdgeArrowhead>) -> (px: u32)
    ensures
        px == arrowhead_inset_px(kind, arrow_kind),
{
    match kind {
        DiagramKind::Class => match arrow_kind {
            Some(EdgeArrowhead::OpenTriangle) => 17,
            Some(EdgeArrowhead::ClassDependency) => 5,
            None => 4,
        },
        _ => 0,
    }
}

/// Only class diagrams inset their edge ends.
pub proof fn lemma_only_class_edges_inset(kind: DiagramKind, arrow_kind: Option<EdgeArrowhead>)
    ensures
        kind != DiagramKind::Class ==> arrowhead_inset_px(kind, arrow_kind) == 0,
        kind == DiagramKind::Class ==> arrowhead_inset_px(kind, arrow_kind) > 0,
{
}

/// The two points of the segment at an end of a path of `len` points:
/// the first two at the start, the last two at the end, and none for a path
/// with fewer than two points.
pub fn endpoint_segment(len: usize, start: bool) -> (seg: Option<(usize, usize)>)
    ensures
        len < 2 ==> seg is None,
        len >= 2 && start ==> seg == Some((0usize, 1usize)),
        len >= 2 && !start ==> seg == Some(((len - 2) as usize, (len - 1) as usize)),
{
    if len < 2 {
        None
    } else if start {
        Some((0, 1))
    } else {
        Some((len - 2, len - 1))
    }
}

} // verus!
