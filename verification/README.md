# mwi_planner

A daily wealth planner for Milky Way Idle, built as a verified library with a
thin command-line program around it.

## Layout

- `src/` — the library, verified with Verus:
  - `market_price`: the game's discrete price grid (bin widths, snapping up or
    down, the vendor-price floor), with proofs that snapped prices lie on the
    grid, that snapping is idempotent, and that bins widen as prices grow.
  - `text`: character-level string operations (prefixes, trimming, decimal
    reading and writing, lexicographic order) specified over `Seq<char>`.
  - `data`: market keys of items and enhancement levels; snapshot summaries.
  - `history`: which base-item histories to fetch, their cache file names and
    source addresses, the seven-day cache rule, and the tally of a fetch run.
  - `money_actions`: supported action types, skill requirements, active drinks.
  - `recommend`: how much of each item is free to be offered for sale.
  - `policy`, `simulation`, `rank_actions`, `wealth`, `domain`: names, settings,
    order slots, episode seeds and keys shared by the planner.
  - `world`: the circular replay of historical price series.
- `tests/` — tests of the library on concrete values.
- `app/` — the program: network and file access, JSON, the command line, and
  the valuation, ranking, order-planning and simulation arithmetic, which works
  on floating-point prices and quantities.
