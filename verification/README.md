# market_sim

Two ways to run a market side by side: a continuous double auction (CDA) and a
frequent batch auction (FBA). Both are fed with the same orders and measured on
the same time grid.

The library under `src/` is written in Verus: every function states what it
does, and Verus proves it. Prices and quantities are integers; a price is in
millionths of a currency unit.

* `engines`: the two order books. `auction` finds the clearing price of a batch
  and pairs its orders; `ladder` keeps the resting orders of the continuous book.
  The `_laws` modules state what holds of every book.
* `inputs`: commands, record formats, the replay of recorded orders and the
  state that it keeps between runs.
* `metrics`: the events of a run and, for each interval, the facts that its
  metrics are computed from.
* `multi_asset`, `single_pair`, `simulation`: engines for several pairs or a
  fixed one, pools, settlement, and the simulators built on them.
* `text`, `numerals`, `dates`, `tables`, `sorting`, `lexical`, `seqs`: what the
  rest is built on.

`app/` is the program around the library: the prompt, files, downloads, and the
metrics themselves, which are floating-point numbers. `tests/` runs the library
on concrete values.

Three items are trusted: `String::push`, `str::to_uppercase`, and the reading of
gzip data by `flate2`.
