# drafting

The verified core of a small 2D drafting editor (lines, circles, linear
dimensions, array copies) written with Verus.

- `src/geometry.rs` — axis-aligned boxes over any `PartialOrd` coordinate type,
  with the laws of box union, overlap and containment under a total order.
- `src/spatial.rs` — an R-tree (`SpatialIndex`) that keeps its items in insertion
  order, splits nodes above a size limit, and answers area and point queries;
  its laws say that a query reports exactly the items whose box matches, in
  insertion order, and that the root box is the union of the item boxes.
- `src/engine.rs` — the editing model of a drawing (`Engine`): element history,
  selection by click or drag box, moves, undo, array copies with fresh
  identifiers, and the spatial index kept equal to the history.
- `src/tool.rs` — drawing tools and the command-line commands.
- `src/canvas.rs` — the canvas tools as a state machine: from the tool state and
  a pointer or key event to the next state and what the drawing has to undergo
  (select, box-select, move, chained lines, circles, three-click dimensions,
  two-click arrays).
- `app/` — the GTK application: windows, drawing, the camera and every
  floating-point computation, around the library with `f64` coordinates.
- `tests/` — tests of the library on integer and floating-point coordinates.
