# harmonic_plr

Neo-Riemannian PLR operations on the 24 major and minor triads, verified with
Verus.

- `src/chord.rs`: pitch classes, qualities, triads, their tones and names.
- `src/plr.rs`: the P, L and R steps; each is an involution and keeps two tones.
- `src/sequence.rs`: words in P, L and R (`PlrSequence`): composition,
  inverse, application, and dictionary order on words (P before L before R).
- `src/voice_leading.rs`: the least total voice movement between two triads.
- `src/traversal.rs`: enumeration of all triads from a start in depth-first
  order, and shortest paths between triads (breadth-first search), the first
  in dictionary order among the shortest; with the proof that P, L and R
  connect all 24 triads.
- `src/dihedral.rs`: the relations that make the group dihedral of order 24.
- `app/lib.rs`: `Display` for triads and qualities.
