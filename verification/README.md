# benilla_liquid

The water of a game world: how its surfaces are meshed and lit along their shores, how it reflects
what stands above it, and how it moves when something wades through it.

- `src/` is the library, verified with Verus. Every function states what it returns as a formula over
  the operations of a number type (`scalar::Scalar`), and the functions named `law_...` state what
  holds of the library as a whole. `fixed::Fixed` is the library's own number type; the laws that
  need arithmetic to be exact, or ordered, are stated of it.
- `app/` is the engine's side: systems, textures and uploads, and single precision numbers. What the
  rest of a client owns is named by the trait `Client`.
- `tests/` runs the library on single precision numbers and on `Fixed`.
