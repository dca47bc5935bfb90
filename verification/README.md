# c2pa-fonts

C2PA manifest embedding, hard binding and verification for OpenType/TrueType
(SFNT) fonts, written in Verus: every library function carries a contract
proved against a mathematical model of the font bytes.

A C2PA Manifest Store and/or a remote manifest URI is stored in a `C2PA` SFNT
table. The library reads and writes that table, re-serializes fonts with
sorted directories, 4-byte aligned tables and recomputed checksums
(including `head.checkSumAdjustment`), and derives the `c2pa.hash.data`
exclusion ranges used for the hard binding.

## Layout

- `src/` — the verified library.
  - `bytes`, `table`, `sfnt`: big-endian codecs, the `C2PA` record, SFNT
    parsing and serialization, each with its mathematical model.
  - `binding`, `reader`, `writer`, `verify`: exclusions, reading, embedding /
    reserving / filling / removing, and compliance reports.
  - `validate`: the data hash and end-to-end validation, delegated to the
    `c2pa` SDK through small trusted wrappers.
  - `laws`: properties of the library as a whole (round trips, checksums,
    the placeholder-then-fill hard binding), proved from the contracts;
    `layout`, `sorting` and `refill` hold the lemmas behind them.
- `tests/` — executable tests of the library.
- `app/` — Python (PyO3) and browser (`wasm-bindgen`) bindings.

## The placeholder-then-fill flow

Reserve the store, hash the reserved font over the returned exclusions,
sign a manifest that fits, then fill. `laws::law_fill_keeps_binding` proves
that filling keeps the font's length and exclusions and changes no byte
outside them.
