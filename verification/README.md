# spirv-linker

A linker for SPIR-V modules, written in Verus. Modules that export functions and
variables are joined with modules that import them: uses of an import become uses
of the export of the same name, repeated declarations are merged, and what only
serves linking is dropped. With partial linking, an import without an export stays
as it is.

- `src/` is the library. `link` takes modules, `link_bytes` takes binaries; `try_link`
  and `try_link_bytes` take any input and tell where it is malformed. Each step of
  linking has a contract that says what it does to a model of SPIR-V modules
  (`model`), and `laws` states what holds of linking as a whole.
- `src/bridge.rs` holds what is taken on trust: the calls into `rspirv` and
  `topological-sort`.
- `app/` offers the linker on the modules of `rspirv`, with errors that can be
  displayed.
- `tests/` runs the library on modules built with `rspirv`.
