# Matching engine

A deterministic limit order matching engine for one symbol, written in Verus. Prices are integer
ticks and quantities integer lots. Commands go in with a sequence number, events come out, and
every result is a function of the ordered command stream.

## Layout

- `src/types.rs`: prices, orders, commands, events.
- `src/book.rs`: price levels, book sides, the order book.
- `src/matcher.rs`: the engine. Its contract is the model in `src/model.rs`.
- `src/feed.rs`: which market data is news.
- `src/wal.rs`, `src/replay.rs`: bytes of the write-ahead log, replay, recovery.
- `src/gateway.rs`: sequence numbers, backpressure, when a snapshot is due.
- `src/snapshot.rs`: the book that a snapshot stands for.
- `src/audit.rs`: whether a book is consistent.
- `src/capacity.rs`, `src/trial.rs`: how much a book can take, and whether a command fits.
- `src/report.rs`, `src/flow.rs`: lines for people, simulated order flow, statistics.
- `src/validity.rs`, `src/liquidity.rs`, `src/quantities.rs`, `src/ranking.rs`: lemmas.
- `src/laws.rs`, `src/priority.rs`, `src/fifo.rs`, `src/crossing.rs`, `src/accounting.rs`: what
  holds of the engine as a whole.
- `app/`: file storage, clock, serialization, and the simulation program.

## Matching rules

- Best price first, then first in, first out within a price. Trades are at the resting order's
  price.
- Market orders match at any price and never rest; immediate-or-cancel orders cancel what is left.
- Fill-or-kill orders are filled entirely or rejected.
- All-or-none orders are filled entirely when they enter. One that cannot be is rejected if it may
  not rest. A good-til-cancel limit order rests if nothing is across from it, and is held off the
  book if something is, but not enough. Once it rests, others may fill it in part.
- Stop orders wait off the book for a trade at or through their stop price; they enter as their
  underlying type.
- At the end of each command the orders that wait and are ready enter, oldest first: stop orders
  that were triggered, and held orders that can be filled or have nothing across from them.
- A replace request reduces the quantity or changes the price. A reduction at the same price keeps
  the order's place in the queue, a new price moves it to the back of the new level. A held order
  is amended where it waits; a stop order that waits cannot be replaced.
- The gateway refuses requests for another symbol.

## What is proved

Every command keeps the book's invariant. Orders are served in price-time priority and none
overtakes another in its queue. Fills add up to what the orders were filled by. Closed orders
never change, and open ones keep their terms. The book is never crossed, and no order that waits is
ready once a command is done. A cancel undoes a new order that did not trade. Replay from any
snapshot gives the book and the events of the original run, and stop orders that a snapshot does not
list as waiting wait again. Entries without line breaks and without white space at their ends, once
appended to the log, are read back in order.
