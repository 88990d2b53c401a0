# rust_drop_tax

Four workloads, each in an idiomatic, individually owned representation and in
a representation that lives in a `bumpalo::Bump` arena:

- `ast`: a perfect binary expression tree (`Box` children / arena references);
- `dag`: a DAG in which node `i` links to nodes `(i - 1) / 2` and `(i - 2) / 2`
  (`Arc` children / arena references);
- `nested`: a graph with eight edges per node (one edge `Vec` per node / edge
  slices in the arena);
- `list`: a singly linked list (`Box` links / arena references).

Every representation is built from a node count and reduces to a wrapping
checksum. The library is verified with Verus: each `new` states the exact
structure it builds (as a view: a tree model, a sequence of DAG or graph
entries, a sequence of identifiers), each `checksum` states the exact wrapping
sum over that view, and proof functions state that the two representations of
a workload agree.

An arena representation borrows the arena it lives in: `new_arena(count)`
makes an arena with room for `count` nodes and `new(&arena, count)` builds in
it. `arena_fits(count)` tells a caller beforehand whether the sizes are
accepted, and `ast::is_valid_tree_count(count)` whether a tree count is (the
counts `2^k - 1`).

Layout:

- `src/`: the verified library (`payload`, `modular` for wrapping sums,
  `arena` for the calls into `bumpalo`, and one module per workload);
- `tests/`: the tests, run against the compiled library;
- `app/`: links the library with mimalloc as the global allocator.
