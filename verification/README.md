# prediction_market

A prediction market contract for a Soroban ledger. Markets are priced by a
logarithmic scoring rule, settled by an oracle or a resolver, open to disputes,
and paid out from a shared pool.

- `src/` is the library, verified with Verus. `PredictionMarket` (in `state.rs`)
  holds what the contract remembers; the calls are methods on it, grouped by
  subject: `access`, `market`, `betting`, `disputes`, `payouts`, `vault`, `fees`
  and `queries`. A call is either refused with an `Error` and changes nothing, or
  returns the `Effects` (token transfers and announcements) that the ledger has
  to perform.
- `lmsr.rs` computes costs and prices in fixed point; `pricing.rs` states what
  holds of them.
- What holds across calls is stated in `laws.rs` (from the creation of a market to
  its resolution), `record_laws.rs` (what is on record fits the status),
  `payout_laws.rs` (batches, claims and payouts to recipients) and `vault_laws.rs`
  (unclaimed payouts and the vault).
- `host.rs` is the only place where something is taken on trust: the ledger
  host's maps and vectors, one call each.
- `app/` is the contract itself: it reads what a call needs from the ledger, lets
  the library decide, writes back what changed, and moves the money.
- `tests/` runs the library against a small ledger in memory.
