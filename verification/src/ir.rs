//! Intermediate representation (IR) for parsed Mermaid diagrams.
//!
//! The types here are produced by the parser and consumed by the layout
//! engine. Everything in this module carries only integers, booleans and
//! text; data that holds floating-point values (pie slices, quadrant points,
//! styles, chart series) lives with the renderer that owns floats.

use vstd::prelude::*;
use std::collections::HashMap;
use crate::text::{text_less, text_equal, text_lt, lemma_text_lt_irreflexive, lemma_text_lt_transitive, lemma_text_lt_total};

verus! {

/// Layout direction for flowcharts and state diagrams.
#[derive(Debug, Clone, Copy, PartialEq, Eq)]
pub enum Direction {
    /// Top-to-bottom (aliases: `TD`, `TB`).
    TopDown,
    /// Left-to-right (`LR`).
    LeftRight,
    /// Bottom-to-top (`BT`).
    BottomTop,
    /// Right-to-left (`RL`).
    RightLeft,
}

/// The kind of Mermaid diagram being represented.
#[derive(Debug, Clone, Copy, PartialEq, Eq)]
pub enum DiagramKind {
    Flowchart,
    Class,
    State,
    Sequence,
    Er,
    Pie,
    Mindmap,
    Journey,
    Timeline,
    Gantt,
    Requirement,
    GitGraph,
    C4,
    Sankey,
    Quadrant,
    ZenUML,
    Block,
    Packet,
    Kanban,
    Architecture,
    Radar,
    Treemap,
    XYChart,
}

/// The type of combined fragment in a sequence diagram (e.g. `alt`, `loop`).
#[derive(Debug, Clone, Copy, PartialEq, Eq)]
pub enum SequenceFrameKind {
    Alt,
    Opt,
    Loop,
    Par,
    Rect,
    Critical,
    Break,
}

/// Where a note is placed relative to a sequence diagram participant.
#[derive(Debug, Clone, Copy, PartialEq, Eq)]
pub enum SequenceNotePosition {
    LeftOf,
    RightOf,
    Over,
}

/// Where a note is placed relative to a state diagram state.
#[derive(Debug, Clone, Copy, PartialEq, Eq)]
pub enum StateNotePosition {
    LeftOf,
    RightOf,
}

/// Whether a sequence participant's activation box starts or ends.
#[derive(Debug, Clone, Copy, PartialEq, Eq)]
pub enum SequenceActivationKind {
    Activate,
    Deactivate,
}

/// An activation or deactivation event on a sequence diagram lifeline.
#[derive(Debug, Clone)]
pub struct SequenceActivation {
    /// The participant whose lifeline is affected.
    pub participant: String,
    /// The message index at which this event occurs.
    pub index: usize,
    pub kind: SequenceActivationKind,
}

/// A note attached to one or more participants in a sequence diagram.
#[derive(Debug, Clone)]
pub struct SequenceNote {
    pub position: SequenceNotePosition,
    /// The participant(s) the note is associated with.
    pub participants: Vec<String>,
    pub label: String,
    /// The message index where this note appears.
    pub index: usize,
}

/// Status tag on a Gantt chart task.
#[derive(Debug, Clone, Copy, PartialEq, Eq)]
pub enum GanttStatus {
    Done,
    Active,
    Crit,
    Milestone,
}

/// A single task bar in a Gantt chart.
#[derive(Debug, Clone)]
pub struct GanttTask {
    pub id: String,
    pub label: String,
    /// Absolute start date/time string (e.g. `"2024-01-15"`).
    pub start: Option<String>,
    /// Duration string (e.g. `"3d"`, `"1w"`).
    pub duration: Option<String>,
    /// ID of a task this one should start after.
    pub after: Option<String>,
    /// The section holding the task.
    pub section: Option<String>,
    pub status: Option<GanttStatus>,
}

/// Visual style of a commit in a git graph.
#[derive(Debug, Clone, Copy, PartialEq, Eq)]
pub enum GitGraphCommitType {
    Normal,
    Reverse,
    Highlight,
    Merge,
    CherryPick,
}

/// A single commit in a git graph diagram.
#[derive(Debug, Clone)]
pub struct GitGraphCommit {
    pub id: String,
    pub message: Option<String>,
    /// Sequential index among all commits.
    pub seq: usize,
    pub commit_type: GitGraphCommitType,
    /// Overridden visual type from `type:` syntax.
    pub custom_type: Option<GitGraphCommitType>,
    pub tags: Vec<String>,
    /// Parent commit IDs.
    pub parents: Vec<String>,
    /// Branch this commit belongs to.
    pub branch: String,
    /// Whether the commit has a user-supplied id (vs auto-generated).
    pub custom_id: bool,
}

/// Shape kind for C4 architecture model elements.
#[derive(Debug, Clone, Copy, PartialEq, Eq, Hash)]
pub enum C4ShapeKind {
    Person,
    ExternalPerson,
    System,
    SystemDb,
    SystemQueue,
    ExternalSystem,
    ExternalSystemDb,
    ExternalSystemQueue,
    Container,
    ContainerDb,
    ContainerQueue,
    ExternalContainer,
    ExternalContainerDb,
    ExternalContainerQueue,
    Component,
    ComponentDb,
    ComponentQueue,
    ExternalComponent,
    ExternalComponentDb,
    ExternalComponentQueue,
}

/// The snake-case name of each C4 shape kind.
pub open spec fn c4_shape_name(kind: C4ShapeKind) -> Seq<char> {
    match kind {
        C4ShapeKind::Person => "person"@,
        C4ShapeKind::ExternalPerson => "external_person"@,
        C4ShapeKind::System => "system"@,
        C4ShapeKind::SystemDb => "system_db"@,
        C4ShapeKind::SystemQueue => "system_queue"@,
        C4ShapeKind::ExternalSystem => "external_system"@,
        C4ShapeKind::ExternalSystemDb => "external_system_db"@,
        C4ShapeKind::ExternalSystemQueue => "external_system_queue"@,
        C4ShapeKind::Container => "container"@,
        C4ShapeKind::ContainerDb => "container_db"@,
        C4ShapeKind::ContainerQueue => "container_queue"@,
        C4ShapeKind::ExternalContainer => "external_container"@,
        C4ShapeKind::ExternalContainerDb => "external_container_db"@,
        C4ShapeKind::ExternalContainerQueue => "external_container_queue"@,
        C4ShapeKind::Component => "component"@,
        C4ShapeKind::ComponentDb => "component_db"@,
        C4ShapeKind::ComponentQueue => "component_queue"@,
        C4ShapeKind::ExternalComponent => "external_component"@,
        C4ShapeKind::ExternalComponentDb => "external_component_db"@,
        C4ShapeKind::ExternalComponentQueue => "external_component_queue"@,
    }
}

impl C4ShapeKind {
    /// The snake-case name of this shape kind, as used in the C4 syntax.
    pub fn as_str(&self) -> (name: &'static str)
        ensures
            name@ == c4_shape_name(*self),
    {
        match self {
            C4ShapeKind::Person => "person",
            C4ShapeKind::ExternalPerson => "external_person",
            C4ShapeKind::System => "system",
            C4ShapeKind::SystemDb => "system_db",
            C4ShapeKind::SystemQueue => "system_queue",
            C4ShapeKind::ExternalSystem => "external_system",
            C4ShapeKind::ExternalSystemDb => "external_system_db",
            C4ShapeKind::ExternalSystemQueue => "external_system_queue",
            C4ShapeKind::Container => "container",
            C4ShapeKind::ContainerDb => "container_db",
            C4ShapeKind::ContainerQueue => "container_queue",
            C4ShapeKind::ExternalContainer => "external_container",
            C4ShapeKind::ExternalContainerDb => "external_container_db",
            C4ShapeKind::ExternalContainerQueue => "external_container_queue",
            C4ShapeKind::Component => "component",
            C4ShapeKind::ComponentDb => "component_db",
            C4ShapeKind::ComponentQueue => "component_queue",
            C4ShapeKind::ExternalComponent => "external_component",
            C4ShapeKind::ExternalComponentDb => "external_component_db",
            C4ShapeKind::ExternalComponentQueue => "external_component_queue",
        }
    }
}


/// A C4 model element (person, system, container, or component).
#[derive(Debug, Clone)]
pub struct C4Shape {
    pub id: String,
    pub label: String,
    pub type_label: Option<String>,
    /// Technology descriptor (e.g. `"Spring Boot"`).
    pub techn: Option<String>,
    pub descr: Option<String>,
    pub sprite: Option<String>,
    pub tags: Option<String>,
    pub link: Option<String>,
    /// ID of the enclosing boundary (empty string for top-level).
    pub parent_boundary: String,
    pub kind: C4ShapeKind,
    pub bg_color: Option<String>,
    pub border_color: Option<String>,
    pub font_color: Option<String>,
}

/// A C4 boundary container (e.g. `System_Boundary`, `Container_Boundary`).
#[derive(Debug, Clone)]
pub struct C4Boundary {
    pub id: String,
    pub label: String,
    pub boundary_type: String,
    pub descr: Option<String>,
    pub sprite: Option<String>,
    pub tags: Option<String>,
    pub link: Option<String>,
    /// ID of the enclosing boundary (empty string for top-level).
    pub parent_boundary: String,
    pub bg_color: Option<String>,
    pub border_color: Option<String>,
    pub font_color: Option<String>,
}

/// Direction/kind of a C4 relationship arrow.
#[derive(Debug, Clone, Copy, PartialEq, Eq)]
pub enum C4RelKind {
    Rel,
    BiRel,
    RelUp,
    RelDown,
    RelLeft,
    RelRight,
    RelBack,
}

/// A `box` grouping around a set of sequence diagram participants.
#[derive(Debug, Clone)]
pub struct SequenceBox {
    pub label: Option<String>,
    pub color: Option<String>,
    pub participants: Vec<String>,
}

/// All parsed data specific to sequence diagrams.
#[derive(Debug, Clone)]
pub struct SequenceData {
    /// Ordered participant IDs.
    pub participants: Vec<String>,
    pub frames: Vec<SequenceFrame>,
    pub notes: Vec<SequenceNote>,
    pub activations: Vec<SequenceActivation>,
    /// Starting number for `autonumber`, if enabled.
    pub autonumber: Option<usize>,
    pub boxes: Vec<SequenceBox>,
}

impl Default for SequenceData {
    fn default() -> (data: Self)
        ensures
            data.participants@.len() == 0,
            data.frames@.len() == 0,
            data.notes@.len() == 0,
            data.activations@.len() == 0,
            data.autonumber is None,
            data.boxes@.len() == 0,
    {
        SequenceData {
            participants: Vec::new(),
            frames: Vec::new(),
            notes: Vec::new(),
            activations: Vec::new(),
            autonumber: None,
            boxes: Vec::new(),
        }
    }
}

/// All parsed data specific to Gantt chart diagrams.
#[derive(Debug, Clone)]
pub struct GanttData {
    pub tasks: Vec<GanttTask>,
    pub title: Option<String>,
    pub sections: Vec<String>,
}

impl Default for GanttData {
    fn default() -> (data: Self)
        ensures
            data.tasks@.len() == 0,
            data.title is None,
            data.sections@.len() == 0,
    {
        GanttData { tasks: Vec::new(), title: None, sections: Vec::new() }
    }
}

/// A note annotation attached to a state diagram state.
#[derive(Debug, Clone)]
pub struct StateNote {
    pub position: StateNotePosition,
    /// The state ID this note is attached to.
    pub target: String,
    pub label: String,
}

/// One section inside a sequence diagram combined fragment (e.g. one `else` branch).
#[derive(Debug, Clone)]
pub struct SequenceFrameSection {
    pub label: Option<String>,
    /// First message index covered by this section.
    pub start_idx: usize,
    /// Last message index covered by this section.
    pub end_idx: usize,
}

/// A combined fragment (`alt`, `loop`, `opt`, etc.) in a sequence diagram.
#[derive(Debug, Clone)]
pub struct SequenceFrame {
    pub kind: SequenceFrameKind,
    pub sections: Vec<SequenceFrameSection>,
    /// First message index covered by the entire frame.
    pub start_idx: usize,
    /// Last message index covered by the entire frame.
    pub end_idx: usize,
}

/// A clickable hyperlink attached to a node via the `click` directive.
#[derive(Debug, Clone)]
pub struct NodeLink {
    pub url: String,
    pub title: Option<String>,
    /// Link target attribute (e.g. `"_blank"`).
    pub target: Option<String>,
}

/// A directed or undirected edge between two nodes.
#[derive(Debug, Clone)]
pub struct Edge {
    /// Source node ID.
    pub from: String,
    /// Target node ID.
    pub to: String,
    /// Label rendered along the middle of the edge.
    pub label: Option<String>,
    /// Label rendered near the source end (ER/class multiplicity).
    pub start_label: Option<String>,
    /// Label rendered near the target end (ER/class multiplicity).
    pub end_label: Option<String>,
    pub directed: bool,
    pub arrow_start: bool,
    pub arrow_end: bool,
    pub arrow_start_kind: Option<EdgeArrowhead>,
    pub arrow_end_kind: Option<EdgeArrowhead>,
    pub start_decoration: Option<EdgeDecoration>,
    pub end_decoration: Option<EdgeDecoration>,
    pub style: EdgeStyle,
}

/// Line style for edges.
#[derive(Debug, Clone, Copy, PartialEq, Eq)]
pub enum EdgeStyle {
    /// A continuous line (`-->`).
    Solid,
    /// A dashed/dotted line (`-.->`).
    Dotted,
    /// A thick line (`==>`).
    Thick,
}

/// Decorative marker drawn at the start or end of an edge.
#[derive(Debug, Clone, Copy, PartialEq, Eq)]
pub enum EdgeDecoration {
    Circle,
    Cross,
    Diamond,
    DiamondFilled,
    /// Crow's foot: exactly one (`||`).
    CrowsFootOne,
    /// Crow's foot: zero or one (`o|`).
    CrowsFootZeroOne,
    /// Crow's foot: one or many (`|{`).
    CrowsFootMany,
    /// Crow's foot: zero or many (`o{`).
    CrowsFootZeroMany,
}

/// Arrowhead variant for specialised edges (class dependency, etc.).
#[derive(Debug, Clone, Copy, PartialEq, Eq)]
pub enum EdgeArrowhead {
    OpenTriangle,
    ClassDependency,
}

/// A subgraph (cluster) containing a set of nodes.
#[derive(Debug, Clone)]
pub struct Subgraph {
    pub id: Option<String>,
    pub label: String,
    /// IDs of nodes that belong to this subgraph.
    pub nodes: Vec<String>,
    /// Optional direction override for nodes inside this subgraph.
    pub direction: Option<Direction>,
}

/// The geometric shape used to render a node.
#[derive(Debug, Clone, Copy, PartialEq, Eq)]
pub enum NodeShape {
    Rectangle,
    /// Horizontal bar used for fork/join states.
    ForkJoin,
    RoundRect,
    /// Rounded rectangle with fully-rounded ends (`([…])`).
    Stadium,
    /// Double-bordered rectangle (`[[…]]`).
    Subroutine,
    Cylinder,
    /// Actor-style box used by sequence diagram participants.
    ActorBox,
    Circle,
    DoubleCircle,
    Diamond,
    Hexagon,
    Parallelogram,
    /// Reversed slant parallelogram.
    ParallelogramAlt,
    Trapezoid,
    /// Inverted trapezoid.
    TrapezoidAlt,
    /// Flag/asymmetric shape (`>…]`).
    Asymmetric,
    /// Default shape for mindmap nodes.
    MindmapDefault,
    /// Plain text with no border.
    Text,
}

/// Shape variant for mindmap nodes.
#[derive(Debug, Clone, Copy, PartialEq, Eq)]
pub enum MindmapNodeType {
    Default,
    RoundedRect,
    Rect,
    Circle,
    Cloud,
    Bang,
    Hexagon,
}

/// A node in the mindmap tree.
#[derive(Debug, Clone)]
pub struct MindmapNode {
    pub id: String,
    pub label: String,
    /// Indentation level (0 = root).
    pub level: usize,
    /// Section index for colour cycling.
    pub section: Option<usize>,
    pub node_type: MindmapNodeType,
    pub icon: Option<String>,
    pub class: Option<String>,
    /// IDs of direct children in the tree.
    pub children: Vec<String>,
}

/// Parsed mindmap tree data.
#[derive(Debug, Clone)]
pub struct MindmapData {
    pub nodes: Vec<MindmapNode>,
    pub root_id: Option<String>,
}

impl Default for MindmapData {
    fn default() -> (data: Self)
        ensures
            data.nodes@.len() == 0,
            data.root_id is None,
    {
        MindmapData { nodes: Vec::new(), root_id: None }
    }
}

/// The plot type for an XY chart data series.
#[derive(Debug, Clone, Copy, PartialEq, Eq)]
pub enum XYSeriesKind {
    Bar,
    Line,
}

/// A single time period and its associated events in a timeline diagram.
#[derive(Debug, Clone)]
pub struct TimelineEvent {
    pub time: String,
    pub events: Vec<String>,
    pub section: Option<String>,
}

/// Parsed timeline diagram data.
#[derive(Debug, Clone)]
pub struct TimelineData {
    pub title: Option<String>,
    pub events: Vec<TimelineEvent>,
    pub sections: Vec<String>,
}

impl Default for TimelineData {
    fn default() -> (data: Self)
        ensures
            data.title is None,
            data.events@.len() == 0,
            data.sections@.len() == 0,
    {
        TimelineData { title: None, events: Vec::new(), sections: Vec::new() }
    }
}

/// Parsed block diagram data.
#[derive(Debug, Clone)]
pub struct BlockDiagram {
    /// Number of columns in the block grid layout.
    pub columns: Option<usize>,
    pub nodes: Vec<BlockNode>,
}

impl Default for BlockDiagram {
    fn default() -> (data: Self)
        ensures
            data.columns is None,
            data.nodes@.len() == 0,
    {
        BlockDiagram { columns: None, nodes: Vec::new() }
    }
}

/// A node in a block diagram grid.
#[derive(Debug, Clone)]
pub struct BlockNode {
    pub id: String,
    /// How many grid columns this block spans.
    pub span: usize,
    /// If true this is an empty spacer rather than a visible block.
    pub is_space: bool,
}

/// A node (vertex) in the diagram graph.
#[derive(Debug, Clone)]
pub struct Node {
    pub id: String,
    /// Display text rendered inside the node shape.
    pub label: String,
    pub shape: NodeShape,
}

/// The abstract content of a [`Node`].
pub struct NodeView {
    pub id: Seq<char>,
    pub label: Seq<char>,
    pub shape: NodeShape,
}

impl View for Node {
    type V = NodeView;

    open spec fn view(&self) -> NodeView {
        NodeView { id: self.id@, label: self.label@, shape: self.shape }
    }
}

/// Top-level intermediate representation of a parsed Mermaid diagram.
///
/// Nodes are kept sorted by id (so they are walked in id order), and
/// `node_order` lists the node ids in the order they were first declared:
/// the position of an id in `node_order` is that node's declaration index.
/// Many fields are only populated for the corresponding [`DiagramKind`].
#[derive(Debug, Clone)]
pub struct Graph {
    /// Which Mermaid diagram type this graph represents.
    pub kind: DiagramKind,
    /// Primary layout direction (used by flowcharts, state diagrams, etc.).
    pub direction: Direction,
    /// Nodes, sorted strictly by id.
    pub nodes: Vec<Node>,
    /// Node ids in declaration order.
    pub node_order: Vec<String>,
    pub edges: Vec<Edge>,
    pub subgraphs: Vec<Subgraph>,
    pub sequence: SequenceData,
    pub gantt: GanttData,
    pub state_notes: Vec<StateNote>,
    pub journey_title: Option<String>,
    /// Maps node ID to the list of applied class names.
    pub node_classes: HashMap<String, Vec<String>>,
    pub subgraph_classes: HashMap<String, Vec<String>>,
    /// Clickable links attached to nodes.
    pub node_links: HashMap<String, NodeLink>,
    pub mindmap: MindmapData,
    pub timeline: TimelineData,
    pub block: Option<BlockDiagram>,
}

/// The text inside an optional `String`.
pub open spec fn opt_text(o: Option<String>) -> Option<Seq<char>> {
    match o {
        Some(s) => Some(s@),
        None => None,
    }
}

/// The node that `ensure_node` leaves under `id`, given the nodes before
/// the call: an existing node keeps what is not overridden, a new node
/// starts with its id as label and a rectangle as shape.
pub open spec fn ensured_node(
    existing: Map<Seq<char>, NodeView>,
    id: Seq<char>,
    label: Option<Seq<char>>,
    shape: Option<NodeShape>,
) -> NodeView {
    let base = if existing.contains_key(id) {
        existing[id]
    } else {
        NodeView { id: id, label: id, shape: NodeShape::Rectangle }
    };
    NodeView {
        id: id,
        label: match label {
            Some(l) => l,
            None => base.label,
        },
        shape: match shape {
            Some(s) => s,
            None => base.shape,
        },
    }
}

impl Graph {
    /// Whether a node with this id is present.
    pub open spec fn has_node(&self, id: Seq<char>) -> bool {
        exists|i: int| 0 <= i < self.nodes@.len() && (#[trigger] self.nodes@[i]).id@ == id
    }

    /// A position holding a node with this id, if there is one.
    pub open spec fn node_position(&self, id: Seq<char>) -> int {
        choose|i: int| 0 <= i < self.nodes@.len() && (#[trigger] self.nodes@[i]).id@ == id
    }

    /// The nodes, keyed by id.
    pub open spec fn node_map(&self) -> Map<Seq<char>, NodeView> {
        Map::new(|k: Seq<char>| self.has_node(k), |k: Seq<char>| self.nodes@[self.node_position(k)]@)
    }

    /// The declaration order of node ids.
    pub open spec fn order_view(&self) -> Seq<Seq<char>> {
        self.node_order@.map_values(|s: String| s@)
    }

    /// Nodes sorted strictly by id, and `node_order` a repetition-free
    /// listing of exactly the node ids.
    pub open spec fn wf(&self) -> bool {
        &&& forall|i: int, j: int|
            0 <= i < j < self.nodes@.len() ==> text_lt(
                #[trigger] self.nodes@[i].id@,
                #[trigger] self.nodes@[j].id@,
            )
        &&& self.node_order@.len() == self.nodes@.len()
        &&& forall|i: int, j: int|
            0 <= i < j < self.node_order@.len() ==> #[trigger] self.node_order@[i]@
                != #[trigger] self.node_order@[j]@
        &&& forall|i: int|
            0 <= i < self.node_order@.len() ==> self.has_node(#[trigger] self.node_order@[i]@)
        &&& forall|j: int|
            0 <= j < self.nodes@.len() ==> self.is_declared(#[trigger] self.nodes@[j].id@)
    }

    /// Whether `node_order` lists this id.
    pub open spec fn is_declared(&self, id: Seq<char>) -> bool {
        exists|i: int| 0 <= i < self.node_order@.len() && (#[trigger] self.node_order@[i])@ == id
    }

    /// Every field other than `nodes` and `node_order` is the same.
    pub open spec fn same_content_besides_nodes(&self, other: &Graph) -> bool {
        &&& self.kind == other.kind
        &&& self.direction == other.direction
        &&& self.edges == other.edges
        &&& self.subgraphs == other.subgraphs
        &&& self.sequence == other.sequence
        &&& self.gantt == other.gantt
        &&& self.state_notes == other.state_notes
        &&& self.journey_title == other.journey_title
        &&& self.node_classes == other.node_classes
        &&& self.subgraph_classes == other.subgraph_classes
        &&& self.node_links == other.node_links
        &&& self.mindmap == other.mindmap
        &&& self.timeline == other.timeline
        &&& self.block == other.block
    }

    /// A graph with no content besides its kind and direction.
    pub open spec fn is_empty_graph(&self, kind: DiagramKind) -> bool {
        &&& self.wf()
        &&& self.kind == kind
        &&& self.direction == Direction::TopDown
        &&& self.nodes@.len() == 0
        &&& self.node_order@.len() == 0
        &&& self.edges@.len() == 0
        &&& self.subgraphs@.len() == 0
        &&& self.sequence.participants@.len() == 0
        &&& self.sequence.frames@.len() == 0
        &&& self.sequence.notes@.len() == 0
        &&& self.sequence.activations@.len() == 0
        &&& self.sequence.autonumber is None
        &&& self.sequence.boxes@.len() == 0
        &&& self.gantt.tasks@.len() == 0
        &&& self.gantt.title is None
        &&& self.gantt.sections@.len() == 0
        &&& self.state_notes@.len() == 0
        &&& self.journey_title is None
        &&& self.node_classes@ == Map::<String, Vec<String>>::empty()
        &&& self.subgraph_classes@ == Map::<String, Vec<String>>::empty()
        &&& self.node_links@ == Map::<String, NodeLink>::empty()
        &&& self.timeline.title is None
        &&& self.timeline.sections@.len() == 0
        &&& self.mindmap.nodes@.len() == 0
        &&& self.mindmap.root_id is None
        &&& self.timeline.events@.len() == 0
        &&& self.block is None
    }

    /// Create a new graph for the given diagram kind.
    pub fn with_kind(kind: DiagramKind) -> (g: Self)
        ensures
            g.is_empty_graph(kind),
    {
        let mut g = Self::new();
        g.kind = kind;
        g
    }

    /// An empty flowchart graph laid out top-down.
    pub fn new() -> (g: Self)
        ensures
            g.is_empty_graph(DiagramKind::Flowchart),
    {
        Graph {
            kind: DiagramKind::Flowchart,
            direction: Direction::TopDown,
            nodes: Vec::new(),
            node_order: Vec::new(),
            edges: Vec::new(),
            subgraphs: Vec::new(),
            sequence: SequenceData::default(),
            gantt: GanttData::default(),
            state_notes: Vec::new(),
            journey_title: None,
            node_classes: HashMap::new(),
            subgraph_classes: HashMap::new(),
            node_links: HashMap::new(),
            mindmap: MindmapData::default(),
            timeline: TimelineData::default(),
            block: None,
        }
    }

    /// In a well-formed graph, each node is the map entry for its id.
    pub proof fn lemma_node_map_entry(&self, idx: int)
        requires
            self.wf(),
            0 <= idx < self.nodes@.len(),
        ensures
            self.node_map().contains_key(self.nodes@[idx].id@),
            self.node_map()[self.nodes@[idx].id@] == self.nodes@[idx]@,
    {
        let k = self.nodes@[idx].id@;
        assert(self.has_node(k));
        let i = self.node_position(k);
        if i != idx {
            lemma_text_lt_irreflexive(k);
            if i < idx {
                assert(text_lt(self.nodes@[i].id@, self.nodes@[idx].id@));
            } else {
                assert(text_lt(self.nodes@[idx].id@, self.nodes@[i].id@));
            }
        }
        assert(self.node_map()[k] == self.nodes@[i]@);
    }

    /// Adds the node `id` if it is missing (labelled with its id, drawn as a
    /// rectangle, and given the next declaration index), then applies the
    /// label and shape that are given.
    pub fn ensure_node(&mut self, id: &str, label: Option<String>, shape: Option<NodeShape>)
        requires
            old(self).wf(),
        ensures
            final(self).wf(),
            final(self).node_map() == old(self).node_map().insert(
                id@,
                ensured_node(old(self).node_map(), id@, opt_text(label), shape),
            ),
            final(self).order_view() == (if old(self).has_node(id@) {
                old(self).order_view()
            } else {
                old(self).order_view().push(id@)
            }),
            final(self).same_content_besides_nodes(old(self)),
    {
        let ghost old_g = *self;
        let ghost new_view = ensured_node(old_g.node_map(), id@, opt_text(label), shape);
        let n = self.nodes.len();
        let mut pos: usize = 0;
        while pos < n && text_less(self.nodes[pos].id.as_str(), id)
            invariant
                n == self.nodes@.len(),
                *self == old_g,
                pos <= n,
                forall|k: int| 0 <= k < pos ==> text_lt(#[trigger] self.nodes@[k].id@, id@),
            decreases n - pos,
        {
            pos = pos + 1;
        }
        let found = pos < n && text_equal(self.nodes[pos].id.as_str(), id);
        if found {
            let old_node = &self.nodes[pos];
            let new_label = match label {
                Some(l) => l,
                None => old_node.label.clone(),
            };
            let new_shape = match shape {
                Some(s) => s,
                None => old_node.shape,
            };
            let node = Node { id: old_node.id.clone(), label: new_label, shape: new_shape };
            proof {
                old_g.lemma_node_map_entry(pos as int);
                assert(node@ == new_view);
            }
            self.nodes.set(pos, node);
            proof {
                let g = *self;
                assert(g.order_view() =~= old_g.order_view());
                assert forall|j: int| 0 <= j < g.nodes@.len() implies #[trigger] g.nodes@[j].id@
                    == old_g.nodes@[j].id@ by {}
                assert forall|k: Seq<char>| #[trigger] g.has_node(k) == old_g.has_node(k) by {
                    if g.has_node(k) {
                        let j = choose|j: int|
                            0 <= j < g.nodes@.len() && (#[trigger] g.nodes@[j]).id@ == k;
                        assert(old_g.nodes@[j].id@ == k);
                    }
                    if old_g.has_node(k) {
                        let j = choose|j: int|
                            0 <= j < old_g.nodes@.len() && (#[trigger] old_g.nodes@[j]).id@ == k;
                        assert(g.nodes@[j].id@ == k);
                    }
                }
                assert forall|j: int| 0 <= j < g.nodes@.len() implies exists|i: int|
                    0 <= i < g.node_order@.len() && (#[trigger] g.node_order@[i])@ == (
                    #[trigger] g.nodes@[j]).id@ by {
                    assert(old_g.nodes@[j].id@ == g.nodes@[j].id@);
                }
                assert(g.wf());
                assert forall|k: Seq<char>| #[trigger] g.node_map().contains_key(k) implies
                    g.node_map()[k] == old_g.node_map().insert(id@, new_view)[k] by {
                    let j = choose|j: int|
                        0 <= j < g.nodes@.len() && (#[trigger] g.nodes@[j]).id@ == k;
                    g.lemma_node_map_entry(j);
                    old_g.lemma_node_map_entry(j);
                }
                assert(g.node_map() =~= old_g.node_map().insert(id@, new_view));
            }
        } else {
            let node = Node {
                id: id.to_owned(),
                label: match label {
                    Some(l) => l,
                    None => id.to_owned(),
                },
                shape: match shape {
                    Some(s) => s,
                    None => NodeShape::Rectangle,
                },
            };
            proof {
                assert(!old_g.has_node(id@)) by {
                    if old_g.has_node(id@) {
                        let j = choose|j: int|
                            0 <= j < old_g.nodes@.len() && (#[trigger] old_g.nodes@[j]).id@ == id@;
                        lemma_text_lt_irreflexive(id@);
                        if j >= pos {
                            if j > pos {
                                assert(text_lt(old_g.nodes@[pos as int].id@, old_g.nodes@[j].id@));
                                lemma_text_lt_total(old_g.nodes@[pos as int].id@, id@);
                                lemma_text_lt_transitive(id@, old_g.nodes@[pos as int].id@, id@);
                            }
                        }
                    }
                }
                assert(node@ == new_view);
                if pos < n {
                    lemma_text_lt_total(old_g.nodes@[pos as int].id@, id@);
                }
            }
            self.nodes.insert(pos, node);
            self.node_order.push(id.to_owned());
            proof {
                let g = *self;
                let p = pos as int;
                assert(forall|j: int| 0 <= j < p ==> #[trigger] g.nodes@[j] == old_g.nodes@[j]);
                assert(forall|j: int|
                    p < j < g.nodes@.len() ==> #[trigger] g.nodes@[j] == old_g.nodes@[j - 1]);
                assert(g.nodes@[p].id@ == id@);
                assert forall|i: int, j: int|
                    0 <= i < j < g.nodes@.len() implies text_lt(
                    #[trigger] g.nodes@[i].id@,
                    #[trigger] g.nodes@[j].id@,
                ) by {
                    if j < p {
                    } else if j == p {
                    } else if i < p {
                        assert(text_lt(g.nodes@[i].id@, id@));
                        if j - 1 > p {
                            assert(text_lt(old_g.nodes@[p].id@, old_g.nodes@[j - 1].id@));
                            lemma_text_lt_transitive(id@, old_g.nodes@[p].id@, old_g.nodes@[j - 1].id@);
                        }
                        lemma_text_lt_transitive(g.nodes@[i].id@, id@, g.nodes@[j].id@);
                    } else if i == p {
                        if j - 1 > p {
                            assert(text_lt(old_g.nodes@[p].id@, old_g.nodes@[j - 1].id@));
                            lemma_text_lt_transitive(id@, old_g.nodes@[p].id@, old_g.nodes@[j - 1].id@);
                        }
                    } else {
                        assert(text_lt(old_g.nodes@[i - 1].id@, old_g.nodes@[j - 1].id@));
                    }
                }
                assert forall|k: Seq<char>| #[trigger] g.has_node(k) == (old_g.has_node(k) || k
                    == id@) by {
                    if g.has_node(k) {
                        let j = choose|j: int|
                            0 <= j < g.nodes@.len() && (#[trigger] g.nodes@[j]).id@ == k;
                        if j < p {
                            assert(old_g.nodes@[j].id@ == k);
                        } else if j > p {
                            assert(old_g.nodes@[j - 1].id@ == k);
                        }
                    }
                    if old_g.has_node(k) {
                        let j = choose|j: int|
                            0 <= j < old_g.nodes@.len() && (#[trigger] old_g.nodes@[j]).id@ == k;
                        if j < p {
                            assert(g.nodes@[j].id@ == k);
                        } else {
                            assert(g.nodes@[j + 1].id@ == k);
                        }
                    }
                    if k == id@ {
                        assert(g.nodes@[p].id@ == k);
                    }
                }
                assert(g.order_view() =~= old_g.order_view().push(id@));
                assert forall|i: int, j: int|
                    0 <= i < j < g.node_order@.len() implies #[trigger] g.node_order@[i]@
                    != #[trigger] g.node_order@[j]@ by {
                    if j == g.node_order@.len() - 1 {
                        assert(old_g.has_node(old_g.node_order@[i]@));
                    } else {
                        assert(old_g.node_order@[i]@ != old_g.node_order@[j]@);
                    }
                }
                assert forall|i: int|
                    0 <= i < g.node_order@.len() implies g.has_node(
                    #[trigger] g.node_order@[i]@,
                ) by {
                    if i < g.node_order@.len() - 1 {
                        assert(old_g.has_node(old_g.node_order@[i]@));
                    }
                }
                assert forall|j: int| 0 <= j < g.nodes@.len() implies exists|i: int|
                    0 <= i < g.node_order@.len() && (#[trigger] g.node_order@[i])@ == (
                    #[trigger] g.nodes@[j]).id@ by {
                    if j == p {
                        assert(g.node_order@[g.node_order@.len() - 1]@ == id@);
                    } else {
                        let oj = if j < p { j } else { j - 1 };
                        assert(g.nodes@[j] == old_g.nodes@[oj]);
                        let i = choose|i: int|
                            0 <= i < old_g.node_order@.len() && (#[trigger] old_g.node_order@[i])@
                                == (#[trigger] old_g.nodes@[oj]).id@;
                        assert(g.node_order@[i] == old_g.node_order@[i]);
                    }
                }
                assert(g.wf());
                assert forall|k: Seq<char>| #[trigger] g.node_map().contains_key(k) implies
                    g.node_map()[k] == old_g.node_map().insert(id@, new_view)[k] by {
                    let j = choose|j: int|
                        0 <= j < g.nodes@.len() && (#[trigger] g.nodes@[j]).id@ == k;
                    g.lemma_node_map_entry(j);
                    if j < p {
                        old_g.lemma_node_map_entry(j);
                    } else if j > p {
                        old_g.lemma_node_map_entry(j - 1);
                    }
                }
                assert(g.node_map() =~= old_g.node_map().insert(id@, new_view));
            }
        }
    }

    /// The node with this id, if present (the first one, should ids repeat;
    /// in a well-formed graph it is the node the id keys).
    pub fn node(&self, id: &str) -> (r: Option<&Node>)
        ensures
            r is Some <==> self.has_node(id@),
            r matches Some(n) ==> exists|i: int|
                0 <= i < self.nodes@.len() && *n == self.nodes@[i] && n.id@ == id@ && forall|k: int|
                    0 <= k < i ==> (#[trigger] self.nodes@[k]).id@ != id@,
            self.wf() ==> (r matches Some(n) ==> n@ == self.node_map()[id@]),
    {
        let n = self.nodes.len();
        let mut i: usize = 0;
        while i < n
            invariant
                n == self.nodes@.len(),
                i <= n,
                forall|k: int| 0 <= k < i ==> (#[trigger] self.nodes@[k]).id@ != id@,
            decreases n - i,
        {
            if text_equal(self.nodes[i].id.as_str(), id) {
                proof {
                    if self.wf() {
                        self.lemma_node_map_entry(i as int);
                    }
                }
                return Some(&self.nodes[i]);
            }
            i = i + 1;
        }
        None
    }

    /// The declaration index of the node with this id: its position in
    /// `node_order` (the first, should ids repeat).
    pub fn node_order_index(&self, id: &str) -> (r: Option<usize>)
        ensures
            r is Some <==> self.order_view().contains(id@),
            r matches Some(i) ==> i < self.node_order@.len() && self.order_view()[i as int] == id@
                && forall|k: int| 0 <= k < i ==> self.order_view()[k] != id@,
    {
        let n = self.node_order.len();
        let mut i: usize = 0;
        while i < n
            invariant
                n == self.node_order@.len(),
                i <= n,
                forall|k: int| 0 <= k < i ==> (#[trigger] self.node_order@[k])@ != id@,
            decreases n - i,
        {
            if text_equal(self.node_order[i].as_str(), id) {
                assert(self.order_view()[i as int] == id@);
                return Some(i);
            }
            i = i + 1;
        }
        proof {
            if self.order_view().contains(id@) {
                let k = choose|k: int| 0 <= k < self.order_view().len() && self.order_view()[k] == id@;
                assert(self.node_order@[k]@ == id@);
            }
        }
        None
    }

    /// Whether the graph is well formed: nodes sorted strictly by id, and
    /// `node_order` listing exactly the node ids, each once.
    pub fn is_well_formed(&self) -> (r: bool)
        ensures
            r == self.wf(),
    {
        let n = self.nodes.len();
        if self.node_order.len() != n {
            return false;
        }
        let mut i: usize = 1;
        while i < n
            invariant
                n == self.nodes@.len(),
                1 <= i || n == 0,
                i <= n || n == 0,
                forall|a: int, b: int|
                    0 <= a < b < i && b < n ==> text_lt(
                        #[trigger] self.nodes@[a].id@,
                        #[trigger] self.nodes@[b].id@,
                    ),
            decreases n - i,
        {
            if !text_less(self.nodes[i - 1].id.as_str(), self.nodes[i].id.as_str()) {
                return false;
            }
            proof {
                assert forall|a: int, b: int|
                    0 <= a < b < i + 1 && b < n implies text_lt(
                    #[trigger] self.nodes@[a].id@,
                    #[trigger] self.nodes@[b].id@,
                ) by {
                    if b == i && a < i - 1 {
                        lemma_text_lt_transitive(
                            self.nodes@[a].id@,
                            self.nodes@[i - 1].id@,
                            self.nodes@[b].id@,
                        );
                    }
                }
            }
            i = i + 1;
        }
        assert(forall|a: int, b: int|
            0 <= a < b < self.nodes@.len() ==> text_lt(
                #[trigger] self.nodes@[a].id@,
                #[trigger] self.nodes@[b].id@,
            ));
        let mut j: usize = 0;
        while j < n
            invariant
                n == self.nodes@.len(),
                n == self.node_order@.len(),
                j <= n,
                forall|a: int, b: int|
                    0 <= a < b < self.nodes@.len() ==> text_lt(
                        #[trigger] self.nodes@[a].id@,
                        #[trigger] self.nodes@[b].id@,
                    ),
                forall|a: int, b: int|
                    0 <= a < b < j ==> #[trigger] self.node_order@[a]@
                        != #[trigger] self.node_order@[b]@,
                forall|a: int| 0 <= a < j ==> self.has_node(#[trigger] self.node_order@[a]@),
            decreases n - j,
        {
            let mut k: usize = 0;
            while k < j
                invariant
                    n == self.node_order@.len(),
                    j < n,
                    k <= j,
                    forall|a: int| 0 <= a < k ==> #[trigger] self.node_order@[a]@ != self.node_order@[j as int]@,
                decreases j - k,
            {
                if text_equal(self.node_order[k].as_str(), self.node_order[j].as_str()) {
                    return false;
                }
                k = k + 1;
            }
            match self.node(self.node_order[j].as_str()) {
                None => {
                    return false;
                },
                Some(_) => {},
            }
            j = j + 1;
        }
        let mut m: usize = 0;
        while m < n
            invariant
                n == self.nodes@.len(),
                n == self.node_order@.len(),
                m <= n,
                forall|a: int, b: int|
                    0 <= a < b < self.nodes@.len() ==> text_lt(
                        #[trigger] self.nodes@[a].id@,
                        #[trigger] self.nodes@[b].id@,
                    ),
                forall|a: int, b: int|
                    0 <= a < b < self.node_order@.len() ==> #[trigger] self.node_order@[a]@
                        != #[trigger] self.node_order@[b]@,
                forall|a: int| 0 <= a < self.node_order@.len() ==> self.has_node(#[trigger] self.node_order@[a]@),
                forall|b: int| 0 <= b < m ==> self.is_declared(#[trigger] self.nodes@[b].id@),
            decreases n - m,
        {
            match self.node_order_index(self.nodes[m].id.as_str()) {
                None => {
                    proof {
                        if exists|a: int|
                            0 <= a < self.node_order@.len() && (#[trigger] self.node_order@[a])@
                                == self.nodes@[m as int].id@ {
                            let a = choose|a: int|
                                0 <= a < self.node_order@.len() && (#[trigger] self.node_order@[a])@
                                    == self.nodes@[m as int].id@;
                            assert(self.order_view()[a] == self.nodes@[m as int].id@);
                        }
                    }
                    return false;
                },
                Some(a) => {
                    assert(self.node_order@[a as int]@ == self.nodes@[m as int].id@);
                },
            }
            m = m + 1;
        }
        assert(self.wf());
        true
    }

    /// Declaration indexes name the nodes one to one: an id has a
    /// declaration index exactly when the node is present, and no id is
    /// declared twice.
    pub proof fn lemma_declaration_order_matches_nodes(&self)
        requires
            self.wf(),
        ensures
            forall|k: Seq<char>| #[trigger]
                self.order_view().contains(k) <==> self.node_map().contains_key(k),
            self.order_view().no_duplicates(),
            self.order_view().len() == self.nodes@.len(),
    {
        assert forall|k: Seq<char>| #[trigger]
            self.order_view().contains(k) <==> self.node_map().contains_key(k) by {
            if self.order_view().contains(k) {
                let i = choose|i: int| 0 <= i < self.order_view().len() && self.order_view()[i] == k;
                assert(self.has_node(self.node_order@[i]@));
            }
            if self.has_node(k) {
                let j = self.node_position(k);
                let i = choose|i: int|
                    0 <= i < self.node_order@.len() && (#[trigger] self.node_order@[i])@ == (
                    #[trigger] self.nodes@[j]).id@;
                assert(self.order_view()[i] == k);
            }
        }
        assert forall|i: int, j: int|
            0 <= i < self.order_view().len() && 0 <= j < self.order_view().len() && i != j implies
            self.order_view()[i] != self.order_view()[j] by {
            if i < j {
                assert(self.node_order@[i]@ != self.node_order@[j]@);
            } else {
                assert(self.node_order@[j]@ != self.node_order@[i]@);
            }
        }
    }
}

/// Ensuring a node a second time without a label or shape changes nothing:
/// the node `ensure_node` left stays as it is.
pub proof fn lemma_ensure_node_idempotent(
    existing: Map<Seq<char>, NodeView>,
    id: Seq<char>,
    label: Option<Seq<char>>,
    shape: Option<NodeShape>,
)
    ensures
        ({
            let once = existing.insert(id, ensured_node(existing, id, label, shape));
            once.insert(id, ensured_node(once, id, None, None)) == once
        }),
{
    let once = existing.insert(id, ensured_node(existing, id, label, shape));
    assert(once.insert(id, ensured_node(once, id, None, None)) =~= once);
}

impl Default for Graph {
    fn default() -> (g: Self)
        ensures
            g.is_empty_graph(DiagramKind::Flowchart),
    {
        Self::new()
    }
}

/// ASCII upper-casing of one character; every other character is unchanged.
pub open spec fn ascii_upper(c: char) -> char {
    if 97 <= (c as int) && (c as int) <= 122 {
        ((c as int) - 32) as char
    } else {
        c
    }
}

/// ASCII upper-casing of a whole text.
pub open spec fn ascii_upper_text(t: Seq<char>) -> Seq<char> {
    t.map_values(|c: char| ascii_upper(c))
}

/// The direction a token names, compared without regard to ASCII case.
pub open spec fn direction_of_token(t: Seq<char>) -> Option<Direction> {
    let u = ascii_upper_text(t);
    if u == seq!['T', 'D'] || u == seq!['T', 'B'] {
        Some(Direction::TopDown)
    } else if u == seq!['B', 'T'] {
        Some(Direction::BottomTop)
    } else if u == seq!['L', 'R'] {
        Some(Direction::LeftRight)
    } else if u == seq!['R', 'L'] {
        Some(Direction::RightLeft)
    } else {
        None
    }
}

fn upper_ascii_char(c: char) -> (u: char)
    ensures
        u == ascii_upper(c),
{
    if 'a' <= c && c <= 'z' {
        let b: u8 = c as u8;
        (b - 32) as char
    } else {
        c
    }
}

impl Direction {
    /// Parses a direction keyword (`TD`, `TB`, `BT`, `LR`, `RL`), ignoring
    /// ASCII case. Any other token gives `None`.
    pub fn from_token(token: &str) -> (dir: Option<Self>)
        ensures
            dir == direction_of_token(token@),
    {
        let n = token.unicode_len();
        if n != 2 {
            proof {
                assert(ascii_upper_text(token@).len() != 2);
            }
            return None;
        }
        let a = upper_ascii_char(token.get_char(0));
        let b = upper_ascii_char(token.get_char(1));
        proof {
            assert(ascii_upper_text(token@) =~= seq![a, b]);
        }
        if a == 'T' && (b == 'D' || b == 'B') {
            Some(Direction::TopDown)
        } else if a == 'B' && b == 'T' {
            Some(Direction::BottomTop)
        } else if a == 'L' && b == 'R' {
            Some(Direction::LeftRight)
        } else if a == 'R' && b == 'L' {
            Some(Direction::RightLeft)
        } else {
            None
        }
    }
}

/// Direction keywords read the same in any ASCII case.
pub proof fn lemma_direction_token_ignores_case(t: Seq<char>)
    ensures
        direction_of_token(t) == direction_of_token(ascii_upper_text(t)),
{
    assert(ascii_upper_text(ascii_upper_text(t)) =~= ascii_upper_text(t));
}

/// Length and two sample characters; enough to tell all C4 shape names apart.
spec fn c4_name_fingerprint(s: Seq<char>) -> (int, char, char) {
    (
        s.len() as int,
        if 2 < s.len() { s[2] } else { ' ' },
        if 11 < s.len() { s[11] } else { ' ' },
    )
}

/// Distinct C4 shape kinds have distinct names, so a name identifies its kind.
pub proof fn lemma_c4_shape_names_distinct(a: C4ShapeKind, b: C4ShapeKind)
    requires
        a != b,
    ensures
        c4_shape_name(a) != c4_shape_name(b),
{
    reveal_strlit("person");
    reveal_strlit("external_person");
    reveal_strlit("system");
    reveal_strlit("system_db");
    reveal_strlit("system_queue");
    reveal_strlit("external_system");
    reveal_strlit("external_system_db");
    reveal_strlit("external_system_queue");
    reveal_strlit("container");
    reveal_strlit("container_db");
    reveal_strlit("container_queue");
    reveal_strlit("external_container");
    reveal_strlit("external_container_db");
    reveal_strlit("external_container_queue");
    reveal_strlit("component");
    reveal_strlit("component_db");
    reveal_strlit("component_queue");
    reveal_strlit("external_component");
    reveal_strlit("external_component_db");
    reveal_strlit("external_component_queue");
    assert(c4_name_fingerprint(c4_shape_name(a)) != c4_name_fingerprint(c4_shape_name(b)));
}

} // verus!
