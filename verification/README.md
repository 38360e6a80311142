# bruecke

A browser game engine: a Python program (run by an embedded RustPython
interpreter inside WebAssembly) draws shapes and images every frame, keeps a
small persistent key-value store, and talks to the page through a few exports.

- `src/` — the verified library (Verus): base64 and page bundling, marker
  search, the xorshift64 random source, the JSON-literal text of stored
  values, the key-value store, line and vertex counting, and the run status
  with its JSON report.
- `app/` — the host-facing shell: floating-point drawing and tessellation,
  the JavaScript bindings, the Python builtins, and the bundler's file I/O.
- `tests/` — tests of the library.
