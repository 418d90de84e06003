# Flashpoint

The core of a private mempool that builds blocks out of trading intents, with
an auction book and a queue of proofs beside it, written in Verus.

- `src/` is the library. Verus proves its functions against their contracts,
  except for the wrappers named below.
  - `intent`, `select`, `block`, `mempool`, `seed`: intents, which of them a
    block takes, what it earns, and how its fee is shared.
  - `auction`, `order`: the auction book.
  - `zk`: proof ids and background jobs.
  - `events`, `rejection`, `auth`, `settings`, `shim`, `engine`: what the
    services around the library decide.
  - `double`, `rounding`: binary64 arithmetic on the bits, correctly rounded.
  - `sorting`, `text`, `random`: a stable sort, hexadecimal, and chance.
  - `laws`: what holds of the library as a whole.
- `tests/` runs the library on concrete values.
- `app/` is the server, the shim for a consensus engine and the Python module.

Money is counted in binary64, as the wire format has it. The library holds such
a number as its bits (`double::Double`); `f64::to_bits` and `f64::from_bits`
convert at the edge.

Functions of `rand` and `serde_json` and one of the standard library are called
through small wrappers whose contracts are trusted; each names what it claims.
The prover itself (arkworks) is called from `app/`.
