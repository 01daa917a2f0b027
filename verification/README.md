# bytewhiffer

The core of a disk-space treemap viewer, written in Verus: the scan tree
and its ordering, the NTFS `$MFT` record parser and volume reconstruction,
the display tree the interface draws and edits live, the insights computed
over it, and the size, duration and path formatting it shows. Every
function in `src/` is proved against its `requires`/`ensures` contract.

Layout:

- `src/scanner/` — the `Entry` tree, engine trait and outcome types
  (`mod.rs`), progress counters and the scan context (`progress.rs`), NTFS
  boot-sector, FILE-record and data-run parsing plus volume reconstruction
  (`mft.rs`), and the steps between raw volume bytes and the scanned
  subtree (`volume.rs`).
- `src/display_tree.rs` — the interface's tree: insertion, removal, lookup
  and conversion from a finished scan, with its invariant and laws.
- `src/insights.rs` — extension totals, the biggest-entries leaderboard,
  small-file blizzards and cleanup candidates.
- `src/order.rs` — a stable largest-first sort and the permutation facts
  it rests on.
- `src/util.rs`, `src/text.rs`, `src/hue.rs` — formatting, text helpers and
  the extension hue.
- `src/ui_state.rs`, `src/outcome.rs` — navigation and scan-generation
  decisions of the interface.
- `src/bench.rs` — synthetic trees for rendering benchmarks.
- `tests/` — unit tests of the library.
- `app/` — the egui application: windows, drawing, threads, file-system and
  Win32 calls, and the floating-point treemap layout.
