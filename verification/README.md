# SplitMoney Lite

A browser-only shared-expense tracker: participants, expenses with shares,
settlements, per-currency balances with transfer suggestions, a searchable
history, and CSV export/import. The bookkeeping is a library verified with
Verus; a thin Dioxus web application drives it.

## Transfer suggestions

For each currency, the suggested transfers repeatedly pay the largest
remaining creditor from the largest remaining debtor. Paying them leaves
every balance at zero, and they never number more than one less than the
participants whose balance is not zero. They are not promised to be the
fewest transfers possible: for net balances +5, +5, −3, −3, −2, −2 the
pairing suggests five transfers, where four (3 + 2 into each creditor)
would do. Finding the fewest is a search over zero-sum groups of
participants, which this library does not attempt.

## Layout

- `src/` — the verified library (crate `splitmoney`)
  - `model.rs` — records and their mathematical views
  - `money.rs` — reading and writing amounts, currency codes
  - `state.rs` — the ledger's operations and their checks, equal splits,
    rounding adjustment
  - `normalize.rs` — clean-up of a ledger read from outside
  - `balances.rs` — net balances per currency and suggested transfers
  - `balance_laws.rs`, `ledger_laws.rs` — what holds of balances, suggestions
    and every change to the ledger
  - `csv.rs` — the CSV exchange format (import and export)
  - `screens.rs`, `editor.rs` — what the screens decide: names, history,
    expense and settlement drafts and their helpers
  - `text.rs`, `ids.rs`, `sorting.rs` — text, identifiers, stable sorting
- `tests/` — tests of the library
- `app/` — the web application: Dioxus components, LocalStorage, the JSON of
  stored state and of CSV cells, browser dialogs and downloads

Verify with Verus; build the application for the web with the Dioxus CLI
(`dx serve --platform web`).
