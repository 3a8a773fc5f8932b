# voxel_life

A sparse voxel octree, a Conway's-life cell grid, and the integer side of a
grid-to-grid projection, written in Verus with their contracts proved.

- `src/octree.rs`: `Octree`, a tree over a cube of side `2^D` whose cells hold
  `u8` values. Split nodes and nodes that take their value from their parent
  are kept as bit flags in two complete byte octrees; cells with a value of
  their own keep it in a hash map. `get` returns a cell's value; `set` writes
  one cell, splitting nodes on the way down and merging uniform regions back,
  so that a tree whose cells all hold the root value is a bare root again.
- `src/cursor.rs`, `src/layout.rs`, `src/byte_tree.rs`, `src/cells.rs`: the
  preorder layout of complete octrees, the cursors that walk it, and the
  proofs that every node has its own index.
- `src/node_map.rs`: the hash map of node values and the contracts of the
  map operations used.
- `src/grid.rs`, `src/line.rs`, `src/life.rs`, `src/input.rs`: the cell grid,
  line drawing, one generation of the game of life, and the drawing strokes
  of the pointer.
- `src/projection.rs`: cell frames, destination indices and a one-to-one
  assignment between a source and a destination grid.
- `app/`: the windowed program around the library, and the floating-point
  parts of the projection.
