# attention

An attention market: agents compete for a finite resource through sealed-bid
auctions, work is served from an urgency-ordered queue, and scarce resources
are shared among consumers.

- `src/` is the verified library (Verus). It holds the decisions — who wins an
  auction and what is paid, which queued entry is served next and in what
  order entries are served — and the bookkeeping of who holds what of which
  resource. Decisions are taken over *ranks*, integers that order amounts and
  priorities as the amounts and priorities order themselves.
  - `order`: order predicates over ranks, and the stable descending sort.
  - `auction`: second-price auctions, with and without a reserve.
  - `queue`: the priority queue.
  - `ledger`: values kept under unique names.
  - `scarcity`: scarce resources and arenas of them.
- `app/` is the `f64` interface: budgets, exponential decay, effective
  priorities, available capacity and contention, which compute with floating
  point, and the conversion of `f64` amounts to ranks.
- `tests/` exercises the library on concrete values.
