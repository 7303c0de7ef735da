# carteira

An investment-portfolio tracker whose core is verified with Verus.

- `src/decimal.rs` — decimal amounts (mantissa and scale); every operation is
  carried out by `rust_decimal`, whose results the contracts name.
- `src/models.rs` — transactions, positions, users and request payloads.
- `src/history.rs` — stable ordering of transactions by date.
- `src/portfolio.rs` — consolidation of transactions into positions with the
  weighted average price, the amount invested, the balance check for a sale.
- `src/quotes.rs` — which tickers to ask quotes for, reading the answer, and the
  valuation of positions at the quoted prices.
- `src/auth.rs` — Argon2id password hashing, signed session tokens, the token a
  request presents, registration rules.
- `src/text.rs` — character-level text helpers.
- `app/` — the HTTP server (axum, SQLite through sqlx, brapi.dev quotes through
  reqwest) around the library.
- `tests/` — tests of the library on concrete values.
