# triangular_arbitrage_bot

A bot that watches the book tickers of three exchange symbols over a websocket and
reports when buying along the first two and selling along the third returns more
than it costs, fees included.

- `src/` is the library, verified with Verus: fixed-point prices with nine decimals
  (`scaled_decimals`), the settings' text (`config`), the triangle's state and its
  return (`triangle_calculator`), the per-ticker decision (`market_analyzer`), and the
  stream's address, reconnection delay and frame handling (`websocket`).
- `app/` is the program around it: environment, JSON, the websocket connection, the
  async loops and the float percentages that are logged.
- `tests/` runs the library on concrete values.
