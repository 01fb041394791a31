# oxidarb

Looks for triangular and longer arbitrage cycles among the spot markets of an exchange, simulates
them, weighs their risk, and trades them where the user has switched that on. It is controlled by a
Telegram bot.

- `src/` is the library. It holds the rules: the graph of currencies and the search for cycles
  of negative weight (`arbitrage`), the simulation and the risk of a cycle, the stores of quotes and
  order books, the settings, the requests, messages and streams of the exchange (`binance`), the
  decisions of the running program (`engine`), the commands of the bot (`telegram`), and the traces,
  replays and figures of the benchmarks (`perf_test`). Everything in it is verified with Verus. Binary64
  numbers are a type of the library (`double`), with exact rounding (`rounding`); decimal amounts
  are those of `rust_decimal` (`decimal`).
- `app/` is the program: connections, files, variables of the environment, the bot, the clock,
  logarithms and texts with floating-point numbers.
- `tests/` runs the library on concrete values.

What the library takes on trust of other crates stands in `decimal`, `codec`, `text`, `clock`,
`balances` and `perf_test::trace`, each item with a comment that says what is claimed.

Variables: `API_KEY`, `API_SECRET`, `TELEGRAM_BOT_TOKEN`, and, if wanted, `AUTHORIZED_USER_ID`,
`BASE_ASSETS`, `MAX_ARBITRAGE_DEPTH`, `WEBSOCKET_CHUNK_SIZE`, `TICKER_WARMUP_RATIO`,
`TICKER_WARMUP_TIMEOUT_SEC`, `TICKER_WARMUP_MIN_VALID` and `MAKER_ONLY`. The argument `perf-test`
runs the benchmarks.
