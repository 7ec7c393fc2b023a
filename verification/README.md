# cykl

Tour data structures and k-opt moves for the travelling salesman problem,
with contracts proved by Verus.

- `src/tour`: the model of a tour (`cycle.rs`: a sequence that holds every
  node once, read cyclically), the array tour (`array.rs`), the two-level
  doubly-linked list (`tll.rs`), and the `Tour` trait that both implement.
- `src/alg`: 2-, 3- and 4-opt moves built from `flip`, stated as cycles of
  blocks, and exactly, flip by flip, through `flip_leaves` (`opt3_steps`,
  `opt4_steps`); the arcs a 4-opt move keeps, takes out and puts in; the
  natural initial tour; the candidate choice and the walk of the greedy
  construction (`begin_walk`, `visit_next`).
- Which path a flip reverses is part of each tour's contract: the array
  reverses the shorter path (on ties the block it stores without wrapping),
  the two-level list a path inside one segment, else the shorter run of
  segments once the segments are cut at the arcs (`flip_turns`), and
  `flip_leaves` states the segment layout it leaves for later flips; the
  lemmas `lemma_flip_turns`, `lemma_flip_inside`, `lemma_flip_runs`,
  `lemma_in_groups` and `lemma_flip_leaves_inside` read them off the tour.
- `src/data.rs`, `src/model.rs`: node indices, metric kinds, run settings.
- `app/`: what works with floating-point distances or reads files:
  distance functions, the cost store, the repository, TSPLIB loading,
  nearest-neighbour candidates, the greedy construction and the
  Lin-Kernighan local search.
