# cube_combination_reader

A library that keeps track of cube combinations: named cubes with a tier,
the keys (one cube, or a pair of cubes) that fuse into each cube, and the
conversions those keys imply. A command interpreter works on the graph, which
can be written to a save text and read back from one.

Every function under `src/` is verified with Verus against a contract.

- `src/cube.rs`: the graph of cubes (an arena with a name map) and its operations.
- `src/fuse_key.rs`, `src/assoc.rs`, `src/names.rs`, `src/text.rs`, `src/error.rs`:
  keys, key-ordered lists, cube names, text helpers and errors.
- `src/show.rs`: what the graph prints, and its save text.
- `src/load.rs`: reading a save text back.
- `src/build_tree.rs`: the tree of keys that make a cube.
- `src/tui.rs`: the command table and the interpreter.
- `src/history.rs`: the command history that the graphical front end steps through.
- `src/laws.rs`, `src/renaming.rs`, `src/destroying.rs`, `src/unknown.rs`,
  `src/round_trip.rs`: properties that relate the operations, among them that
  a saved graph reads back with the same cubes, tiers and keys, each cube
  converting to the cubes whose keys name it. That law holds for graphs that
  can be saved (`saveable` in `src/round_trip.rs`): valid cube names, tiers of
  at least -1, keys that name other cubes of the map (not their own cube and
  not `?`) with pair keys in name order, and no key of `?` shared with another
  cube. The library does not carry these conditions as an invariant of every
  operation (merging, for one, can give a pair key to a cube while `?` holds
  the same key).
- `tests/`: tests of the library.
- `app/`: the terminal and graphical front ends (I/O, not verified).

Every well-formed graph (`DllView::wf`) binds each name of its map to a cube
bearing that name, and its pointer, when set, is a cube of the map; every
operation keeps this.
