# stateright

A model checker for distributed systems written as actors, with a linearizability tester,
written in Verus: each function of the library carries a contract that Verus proves.

## Layout

- `src/actor.rs` and `src/actor/`: actors and identifiers; the actor system model (`model.rs`:
  its actions, the step from one system state to the next, and the properties over them); the
  system state (`model_state.rs`); the network semantics (`network.rs`: unordered duplicating,
  unordered non-duplicating and ordered); timers; the ordered reliable link wrapper; the
  register client/server harness; and the sequence-diagram view of a path (`diagram.rs`).
- `src/checker.rs` and `src/checker/`: the checking steps of breadth-first and depth-first search
  and of random simulation, with the justification of each discovery; paths of states;
  discovery classification; and the symmetry-reduction helpers (rewrite plans, representatives,
  reindexing).
- `src/semantics.rs` and `src/semantics/`: sequential reference objects (register, write-once
  register, vector) and the linearizability tester, whose search returns a linearization exactly
  when one exists.
- `src/report.rs`: the text of progress and result reports.
- `src/util/`: vector clocks, dense maps keyed by indices, order-independent digests, choices and
  decimal text.
- `tests/`: tests on concrete values, run against the compiled library.
- `app/`: the parts that need I/O, threads, floating point or the `Debug` text of user types:
  the checker drivers and their reporters, the SVG and text renderings of paths, and serde
  copies of the library's types.

## What the contracts assume

Several contracts are stated for types whose `==` and `clone` are exact (`exact_eq`,
`exact_clone`). `integers_are_exact` proves this for the machine integers, `id_is_exact` for
actor identifiers, and `register_is_faithful`, `vec_is_faithful` and
`write_once_register_is_faithful` lift it to the linearizability tester over the built-in
reference objects.

The searches are stated complete under conditions their closures do not guarantee on their own:
when fingerprints (or keys, for the depth-first search) never collide and the successor function
gives the same states each time, a search that ends with nothing pending and no depth bound has
checked every state reachable from the initial states, so a property without a discovery held
(`always`) or failed (`sometimes`) on each of them.
