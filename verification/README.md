# mermaid_layout

A Mermaid diagram layout library whose integer and text logic is verified
with Verus.

- `src/` — the verified library:
  - `ir.rs`: the diagram intermediate representation, direction keywords,
    C4 shape names, and the graph's node table (`ensure_node` and the
    declaration order of nodes).
  - `text.rs`: code-point order on texts, Unicode whitespace and trimming.
  - `layered.rs`: rank lookups, rank/edge/feedback-edge snapshots, the
    rank-based placement metrics and the candidate layout rule.
  - `xmind.rs`: label line splitting, character width classes, section
    colours, node paint, edge plans, and the horizontal placement and vertical
    centring walks of the xmind
    mindmap layout.
  - `edge_geometry.rs`: arrowhead insets and endpoint segments.
- `app/` — the floating-point side: diagram data holding floats, pixel
  geometry, measured metrics and the JSON snapshot dump, and the xmind
  layout coordinates.
- `tests/` — tests of the library.
