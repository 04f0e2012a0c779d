# prediction-core

An order matcher for a toy prediction market, verified with Verus. One matcher
process owns the book; any number of API servers hand requests on to it and relay
its fill feed, so that no resting quantity is ever matched twice.

## Layout

| Path | Contents |
|------|----------|
| `src/order.rs`, `src/book.rs`, `src/snapshot.rs` | Orders, fills, the order book and what it shows |
| `src/levels.rs` | Price levels, keyed so that the best level comes first |
| `src/priority.rs` | The model: two queues in price-time priority |
| `src/laws.rs` | Conservation, priority, time priority, limits, snapshots |
| `src/engine.rs` | The engine: numbers orders and applies them one at a time |
| `src/endpoints.rs`, `src/proxy.rs`, `src/feed.rs` | What HTTP handlers, proxies and feeds do next on each event |
| `src/relay_url.rs`, `src/config.rs`, `src/text.rs` | Addresses and settings |
| `app/` | The program: `matcher` and `api`, which do the input and output |
| `tests/` | Tests that run the library |

## What is proved

- `OrderBook::submit` returns exactly the fills of the model and leaves exactly
  the model's book, for every order and every book.
- Every reachable book is in price-time priority and never crossed.
- Over any history, what was submitted under an identifier is what was traded for
  it and what still rests; over all orders, quantity is conserved.
- A snapshot lists every resting order, bids from the highest price down and asks
  from the lowest price up.

## What is trusted

Two functions in `src/relay_url.rs` call the `url` crate; their contracts are
taken as given. Nothing in the order book or the engine rests on them.
