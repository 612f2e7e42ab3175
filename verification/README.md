# cusage

A terminal dashboard that estimates the API-equivalent cost of a coding
assistant's usage from the CLI's local session transcripts (one JSON object
per line under the CLI's `projects` directory), priced with LiteLLM's model
rate table.

## Layout

- `src/` — the library, verified with Verus:
  - `parse` — which transcript lines are billable turns and what record each
    yields (dedupe key, token classes, reported cost).
  - `pricing` — normalizing model ids, the unpriceable guard, rate lookup,
    the pricing precedence (reported cost, then rate, else unpriced), and the
    projection of a pricing document into a rate table with unambiguous
    bare-name aliases.
  - `analysis` — the one-pass fold: global de-duplication, the overall line
    and the per-model, per-day, per-project and per-session breakdowns, the
    most recent session, rows in ascending key order; with proved laws
    (every surviving turn lands in every breakdown, only first sightings
    survive, reading records twice changes nothing but the duplicate count,
    ...).
  - `scan` — incremental scanning decisions: complete lines, resume guards,
    cursors, line decoding, project fallback; a resumed read is proved to
    yield the records of a full read.
  - `prices` — the order in which the rate table's sources are tried.
  - `dashboard` — tabs, ranges (and the records they keep) and key handling.
  - `format` — shortening labels for narrow columns.
  - `order` — the code-point order of keys and the sort of breakdown rows.
  - `strmap`, `text` — a hash-indexed, insertion-ordered string map and
    string plumbing (including `trim` over Unicode white space) used by the
    above.
- `app/` — the binary: file and network I/O, the clock and time zone, JSON
  decoding, dollar arithmetic on binary64 rates, and the ratatui UI.
- `tests/` — tests of the library.

Dollar amounts never enter the library: it carries binary64 bit patterns and
decides which rate or reported figure applies to each turn, and each group
lists its member turns so the binary can sum their costs in input order.
