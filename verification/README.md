# fast-nix-gc

A garbage collector and an optimiser for Nix stores, with a verified core.

The library under `src/` decides; the programs under `app/` do the I/O. Every
decision that a collection rests on is stated in a contract and proved with
Verus:

- `graph`, `gc`, `deletion`, `collector`: the reference graph, what is alive, in
  which order dead paths go, and the course of a collection. Whatever is deleted,
  no valid path references it.
- `live_set`, `gc_socket`, `temp_roots`: roots that running builds register
  during a collection. An acknowledged root is not deleted afterwards.
- `roots`, `auto_roots`, `profiles`, `paths`: which entries on disk, processes
  and generations are roots, and which of them are stale.
- `db`, `store_path`: which rows make up the graph, and how rows are removed.
- `optimise`, `hash`: which files are shared, and under which name.
- `cli`, `size`, `logging`, `mount`: command lines, sizes, messages, mounts.
- `random_store`, `nix_expr`, `comparison`: random stores on which two collectors
  are compared, and when they agree.
- `text`, `text_set`, `numbers`: texts and decimal notation.

Outside crates are called behind a few functions marked
`#[verifier::external_body]`; the comment above each says what is taken for
granted.

One program serves three names: `fast-nix-gc` collects, `fast-nix-optimise`
shares equal files, and `fuzz-nix-diff` compares the collector with
`nix-store --gc`.
