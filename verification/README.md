# gravity_sim

A gravity particle simulation whose spatial index is a quadtree, with the
quadtree verified in Verus.

## Layout

- `src/quadrant.rs` – the four quadrants of a square cell, in child order
  (south-west, south-east, north-west, north-east), and the choice of the
  first child square that contains a point.
- `src/model.rs` – the abstract tree: a map from cell paths to what each cell
  holds, and insertion on it (`inserted`, `built`, `arena_after`).
- `src/quadtree.rs` – the arena-backed `Quadtree` (`create`, `insert`, node
  accessors), proved to implement the model exactly; its well-formedness is a
  type invariant.
- `src/laws.rs` – properties of insertion: the tree keeps its shape, insertion
  touches only the cells below the node it starts at, the arena only grows,
  every leaf stays on its particle's route, no particle is invented or stored
  twice, which particles are kept, and that particles that can be told apart
  all end up in leaves of their own.
- `src/routes.rs` – which routes must be taken deeper before the tree is
  built.
- `app/` – the program: particle generation, `f64` square geometry, drawing
  with macroquad.

## Routes

The library does not hold coordinates.  A particle's *route* from a square is
the quadrant whose child square first contains it, depth by depth, until no
child square contains it.  `create` takes every particle's route from the root
square (the particles' bounding box); `insert` takes the new particle's route
from the square of the node it starts at.  A leaf keeps the rest of its
particle's route, as it keeps the particle's position, so every split is
decided by the squares of the node being split.

The program computes routes in steps and asks `routes_to_extend` which ones to
take further: a route not yet complete that another route continues.  Two
particles at the same point inside the root square cannot be separated, and
the program stops there.
