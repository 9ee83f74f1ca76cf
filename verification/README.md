# fca

Formal Concept Analysis with Verus: formal contexts and their derivation
operators, concept enumeration by Next Closure and by FCbO, upper
neighbours of a concept, attribute exploration, and the DimDraw search for
two linear extensions that draw a lattice.

- `src/` is the verified library. Every function there carries a contract
  that Verus proves; `src/bitset.rs` holds the small trusted wrappers around
  the `bit_set` crate, and `src/search.rs` those around `std::time::Instant`.
- `tests/` runs the library on concrete contexts and posets.
- `app/` holds what talks to a terminal (the question-and-answer dialogue of
  attribute exploration) and the drawings with floating-point coordinates.
