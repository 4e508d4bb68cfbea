# qfin_twin

A tick-based multi-agent market simulator with a verified core.

* `src/` is the library, verified with Verus. It holds what the simulator
  decides with integers: the configuration keywords, orders and trades with
  prices in whole ticks, the limit order book (price-time priority matching,
  its invariants and its quantity accounting), the routing of orders to
  books, position bookkeeping, the engine clock with its circuit breaker,
  the periodic triggers that pace agents, and the counting behind regime
  statistics. Random identifiers come from `uuid` behind a small
  trusted wrapper in `src/ids.rs`; trade timestamps are parameters that the
  simulator fills from `chrono`.
* `app/` is the simulator around it: prices in floating point, the six agent
  strategies, the QAOA-style optimiser, the annealing regime detector and
  the simulation loop, which asks the verified core for every integer
  decision.
* `tests/` exercises the library on concrete values.

## Design notes

* Each side of an order book is a `Vec` of price levels kept in price order,
  best price first, rather than a `BTreeMap` keyed by price. Matching walks
  the levels from the best price and changes the queue of the level it is at;
  vstd's `BTreeMap` specification reaches the keys in order only through its
  iterators and has no `get_mut`, `first_key_value` or `last_key_value`, so
  each step would have to collect the keys again and remove and re-insert the
  level. The contracts speak of the book as the map from price to queue
  (`level_map`), which is what the `BTreeMap` would hold, together with the
  ordering that the `Vec` keeps as an invariant.
* `IntervalTrigger` keeps its invariant as a type invariant. `EngineClock`
  states in `begin_tick`'s precondition that a running halt has a tick left,
  since a trip with a zero cooldown leaves a halt with none, from which no
  tick can begin. `OrderBook`, `Exchange` and `Holdings` expose their
  invariants as an open `wf` predicate, because the laws about books and positions are
  stated over it; every constructor establishes it and every operation keeps
  it, so a caller never has to test it.
