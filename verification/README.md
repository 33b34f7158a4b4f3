# makepad-diagram-kit

Editorial diagrams from a compact JSON spec: pyramid, quadrant, tree,
layers, flowchart, architecture, sequence, state, ER, timeline, swimlane,
nested and Venn diagrams.

## Layout

- `src/` is the verified library (Verus). It holds the diagram model and
  the rules that accept, reject, order or rank a diagram (which element a
  layout engine highlights, and all geometry, stay with the engines in
  `app/`):
  - the hard limits (body size, node count), the pre-scan of the top-level
    `"type"` key and the per-type accent checks (`check_body`,
    `finish_parse`);
  - the density lint of each type;
  - streaming recovery: closing an unfinished JSON prefix and the order in
    which candidate bodies are tried (`streaming`);
  - the flowchart's first-in first-out topological order and the
    architecture's longest-path ranks (`types::flowchart`,
    `types::architecture`, with the counting facts in `types::graph`);
  - the timeline's ISO date ordinals, role and edge colors, ER field labels.

  The laws stated as public proof functions include: a Kahn order is unique
  (`lemma_kahn_order_unique`), so is a rank layering
  (`lemma_rank_assignment_unique`), a closed-up prefix is balanced
  (`lemma_closed_is_balanced`), the body itself is the first candidate of a
  lossy parse (`lemma_lossy_candidates`), and successive days get
  successive ordinals (`lemma_day_number_next`).
- `app/` is ordinary Rust around the library: JSON decoding with serde into
  wire types that convert to the library's types, display-ready errors, the
  `f32` geometry of the layout engines and primitives, and the Makepad
  renderer and widget.
- `tests/` exercises the library on concrete values.
