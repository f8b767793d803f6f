# chronos

A verified library for building and maintaining game libraries for a
PC Engine mini console image: it reads and writes the engine's PSB resource
files and MZS archives, generates the menu resources of a library, routes
save files, and decides what to take from a console dump. The logic is
written in Verus; every function in `src/` carries a contract that Verus
proves.

## Layout

- `src/psb/`: the PSB format: value model, reader, writer, key-name trie,
  table layout, and the proof that reading what was written gives the value
  back.
- `src/mzs.rs`, `src/mt19937.rs`: MZS archives (zstd, XOR-ed with an MT19937
  keystream seeded from MD5); unpacking what was packed gives the data back.
- `src/title_prof.rs`, `src/title_mode_top.rs`, `src/title_select.rs`,
  `src/atlas.rs`, `src/fonts.rs`: the generated menu resources, cover atlases
  and font page layout.
- `src/library.rs`, `src/editor.rs`, `src/publish.rs`, `src/saves.rs`: the
  library model, publishing decisions and save routing.
- `src/source.rs`, `src/stock.rs`, `src/import.rs`, `src/partition.rs`:
  console dumps, the `alldata.bin` index, original games, BIOS files and ROM
  import names.
- `tests/`: tests run against the compiled library.
- `app/`: a command-line front end for file I/O; it is not verified.

Calls into `md-5`, `zstd`, `image` and a few std functions go through small
trusted wrappers whose contracts are documented beside them.

## Checking

Verus verifies `src/`; the tests run with the real outside crates linked.
