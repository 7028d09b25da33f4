# retained

Bookkeeping for work that is retained from frame to frame, verified with Verus:

- which layout roots of a user interface are dirty, in which order they are laid out and their
  nodes placed, and which independent roots are placed again because their parent moved;
- which shadow cascades of a directional light are built for each view, and which static ones are
  kept because they still cover what is seen.

`src/` is the verified library. It holds numbers by their bit patterns and compares them exactly;
it does no floating-point arithmetic. What has to be computed is passed in as closures (the
cascades) or done between two steps by the caller (the layout).

`app/` is the code around it: the arithmetic with `bevy_math`, the components and the system for
directional lights, the reading of a UI's state from a world, and a driver for the layout of its
nodes.

`tests/layout.rs` runs the layout over a small world of nodes with `taffy`, `tests/cascade.rs` the
cascades with `bevy_math`, and `tests/parts.rs` the parts one by one.

The laws of the library are the public proof functions whose names begin with `law_`.
