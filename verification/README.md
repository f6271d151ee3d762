# fugazi

The logic of a backtesting toolkit as a verified library: driving a strategy over
bars, joining and censusing series, reading cost models, planning strategies, and
laying out reports.

- `src/` is the library. Every function states what it returns in `requires` and
  `ensures`, and Verus proves it. Public proof functions state what holds of several
  functions together.
- `tests/` runs the library on concrete values.
- `app/` is ordinary Rust around it: files, the terminal, running a batch on a pool
  of threads, floating-point formatting, and pictures.

Doubles are kept as their bits (`number::Real`). The library compares and orders
them; reading, printing and computing with them is left to its callers, which hand
over the double that a text spells, or the text that a double prints as.

A strategy and an account are traits (`backtest::Strategy`, `backtest::Wallet`). The
driver's contract lists, bar by bar, which of their methods are called with what, and
computes the report from what they returned. An implementation may say, in its `does`
relation, how each call changes it; the contract then speaks of its states too.

A few calls into other crates are believed rather than proved: reading delimited
tables (`csv`), reading YAML (`serde_norway`), reading times (`time`), running in
parallel (`rayon`), and four functions of the standard library. The comment above
each says what is believed.
