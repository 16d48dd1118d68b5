# scratch_card

The logic of a small scratch-card web game, verified with Verus.

A page holds up to five cells. Each cell's prize is drawn independently,
by cumulative probability over the prize tiers, when the page is dealt; the
player scratches cells one at a time and settles the page once, winning the
sum of the scratched cells. Pages live in an in-memory store that drops
settled pages, then the oldest half, when full; a per-address fixed-window
rate limiter guards the HTTP endpoints.

Layout:

- `src/` — the verified library:
  - `models.rs` — cells, pages, request and answer types, and their views;
  - `game.rs` — choosing a tier, dealing, scratching, settling, and the laws
    of a page;
  - `config.rs` — the rules, their validation and the built-in rules;
  - `fixed_point.rs` — range checks on IEEE-754 bit patterns and exact
    comparison of random draws with them;
  - `text.rs` — decimal and hexadecimal text;
  - `os.rs` — random bytes and the clock;
  - `state.rs` — the store of pages;
  - `ratelimit.rs` — the rate limiter;
  - `api.rs` — what each endpoint decides and how refusals are answered.
- `tests/` — tests run against the compiled library.
- `app/` — the server: environment, rules file, JSON, axum routes, locks.
