# evosim

An evolution simulation: blobs steered by small neural networks wander a
window, eat food, breed with mutated weights and starve.

- `src/` is the verified library: the game's bookkeeping (births, deaths,
  the record of every entity and of the longest survivor), the decisions of
  a frame (who eats, what is removed, when and where entities and foods
  appear), the shape of an entity's network, the survival ranking and the
  template file format in which entities are saved and loaded.
- `app/` is the program: the window and its events, drawing, the clocks,
  file I/O, and the floating-point parts of entities (vision, network
  evaluation, walking, random traits and weights).
- `tests/` runs the library on concrete values.
