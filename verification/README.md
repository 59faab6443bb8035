# non_layered_tidy_trees

Drawing non-layered tidy trees in linear time (van der Ploeg, *Softw. Pract. Exper.* 44,
2014), with the shape of the trees proved correct in Verus.

`src/` is the verified library:

* `arena` — nodes held by an `Arena` and named by `NodeId`, their wiring, their preorder,
  and `Arena::setup`, which fills in each node's level, position and parent;
* `bookkeeping` — what setting up leaves behind: on a tree, the root without a parent and
  every other node linked to its parent one level below it; setting up twice is setting up
  once;
* `corpus` — the shapes of the corpus of random trees the dump lays out, and their seeds;
* `flat` — the breadth-first `Mirror` of a tree that the sweeps of the flat layout run
  over, the choice of kernels, and the laws that tie the mirror to the tree;
* `flatapi` — the tree of the flat API, read from parallel arrays, with or without building
  an arena first, and the law that both readings give the same mirror;
* `fringe` — which nodes the fringe helpers compare, below a node or between two;
* `phases` — how long the phases of a flat layout took, added up exactly;
* `trace` — whether `NLTT_TRACE` asks for the logs, and what a phase line reads;
* `treegen` — the deterministic generator of random and benchmark trees.

`app/` is the layout proper, which computes with doubles: the three walks, their sweep
form, the flat entry points, the stopwatch, and the benchmark and dump programs.
`tests/` runs the library on concrete trees.
