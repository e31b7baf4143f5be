# xnote_core

The core of the XNote editor as a Verus-verified library: vault paths and listings, the
text buffer with undo, markdown structure and lint, note metadata, the knowledge index
(search, quick open, backlinks), vault watching and its replay, key bindings, settings,
internationalised strings, the plugin registry and its worker protocol, and the AI rewrite
engine with its VCP tool loop.

- `src/` is the library. Every function there is verified against its `requires` /
  `ensures`; calls into `ropey`, `pulldown-cmark`, `serde_json` and std that Verus cannot
  read go through small trusted wrappers whose contracts say what those crates do.
  General properties are stated as `law_*` proof functions next to the code they speak of.
- `app/` is the program around it: files, processes, HTTP, the environment and the clock.
  It hands the library plain values and acts on what the library decides.
- `tests/` runs the library on concrete inputs.
