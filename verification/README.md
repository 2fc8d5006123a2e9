# spindle_core

A defeasible-logic reasoner written in Verus: theories of facts, strict
rules, defeasible rules and defeaters with a superiority relation; their
preparation (validation, wildcard rewriting, temporal filtering; a theory
with variables is refused while grounding is on, as grounding itself is not
offered); reasoning into definite and defeasible conclusions; and the query
operators built on it (query, why-not, what-if, abduction and verified
fact-set search). A process-mining module turns event logs into footprints,
Alpha-algorithm Petri nets and conflicts.

Layout:

- `src/` — the verified library. Every function carries a contract; Verus
  proves each one, except those of the small wrappers marked
  `external_body` around outside crates and `std` (hash maps, bit sets,
  `SmallVec`, `BTreeSet`, formatting), whose contracts are trusted and say
  in their doc comments what they claim of the call. `laws.rs` and
  `agree.rs` state properties that span several functions (consistency of
  the conclusions, agreement of the query operators, agreement of separate
  runs); other modules state their own, such as bridging twice adding
  nothing (`bridge.rs`) and `what_if_provable` answering what `what_if`
  says of the goal (`what_if.rs`).
- `tests/` — ordinary Rust tests run against the compiled library.
- `app/` — the parts that compute with floating point (mining confidence
  and the rules learned with it), built on the verified counting functions.
