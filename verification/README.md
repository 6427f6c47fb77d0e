# golomb_vanguard

Search engines for optimal Golomb rulers (rulers whose pairwise mark distances are all
different), verified with Verus.

Layout:

- `src/` — the verified library.
  - `ruler.rs`: what a Golomb ruler is, as spec functions over `Seq<u32>`.
  - `bitmap.rs`, `bits.rs`, `positions.rs`: fixed-width bitmaps viewed as `Seq<bool>`.
  - `avail.rs`: the cache of the smallest free distances used by the dynamic bound.
  - `naive.rs`, `engine_v2.rs`, `engine_v3.rs`, `engine_v4.rs`, `search.rs`, `bounds.rs`:
    the engines (plain backtracking, bitmask search, branch and bound, and the serial
    core of the parallel engine) with the lemmas their bounds rest on.
  - `construct.rs`: greedy and prime-gap constructions that seed the search bound.
  - `primality.rs`, `lucas.rs`, `fermat.rs`: the Baillie-PSW test (Miller-Rabin, Jacobi
    symbol and strong Lucas test), the Lucas sequence identities it uses, and Euclid's
    lemma and Fermat's little theorem, from which every odd prime passes Miller-Rabin.
  - `known.rs`: the table of known optimal lengths.
- `app/` — the command-line program and the thread-pool driver of the parallel engine.
- `tests/` — tests of the library.

The branch-and-bound engines prune with the published table of optimal lengths; their
optimality guarantees are stated under `known_lengths_are_lower_bounds()`, the
hypothesis that the table's entries are lower bounds.

Tests: the bitmask (v2) and branch-and-bound (v3) engines are tested on OGR-2 to
OGR-12. OGR-13 (length 106) is not among the unit tests: one search for 13 marks with
either engine runs for well over 20 seconds even in an optimised build, which is too long
for a unit test. Run it through the command-line program instead
(`--n 13 --engine v3`).

`verify_golomb` returns `false` on a repeated distance instead of aborting; callers that
treat a repeat as fatal assert on its result.
