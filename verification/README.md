# backtesting

A single-symbol forex backtesting engine whose core is verified with Verus.

A backtest replays candles from a tab-separated export as ticks (open to low,
low to high, high to close), feeds each tick to a simulated broker, which
closes positions whose stop loss or take profit is reached, and to a
strategy, which may open or close positions.  Account states and closed
orders are written to CSV files and drawn as a chart at the end.

## Layout

- `src/` — the verified library:
  - `book.rs`: the position book (open positions, history, closing by id,
    by mask or all at once, newest position, newest-first listing);
  - `ids.rs`: unique random order ids;
  - `trading.rs`: the book and the id registry of one broker together, so
    that every id in the book is one the registry handed out and a new
    position never carries the id of any position in the book;
  - `ticks.rs`: the layout of the ticks replayed from a candle;
  - `kline.rs`, `analysis.rs`, `text.rs`: reading the candle export and the
    account-state export (field splitting, trimming, integer parsing);
  - `dates.rs`: calendar dates of timestamps (chrono);
  - `error.rs`, `positions.rs`, `strategy.rs`: the broker's errors, the
    direction of a position, the default strategy;
  - `laws.rs`: properties that span several operations.
- `app/` — the program around it: the broker's money arithmetic (prices,
  margin, balance and profit are `f64`), the tick and statistics threads, file
  and network I/O, the chart, the DLL entry points for the trading terminal,
  and the profile analysis.
- `tests/` — tests of the library.
