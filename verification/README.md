# tessera

Resource-pack model, texture and sprite logic for rendering block and item icons, written in
Verus: every function under `src/` carries a `requires`/`ensures` contract that the verifier
proves.

- `src/resource/`: resource ids, packs and their entries, block states, item models, models
  and their texture slots, textures, atlases, palettes and tints.
- `src/scene/`: layered item images, the integer side of rasterization, catalogs.
- `src/capture_gen/`, `src/capture/`: the capture tables (pooled block draw data) and their
  lookups.
- `src/util/`, `src/text.rs`, `src/diagnostics.rs`: images, small collections, text helpers
  and the diagnostics collector.
- `app/`: what the verifier does not see: file and zip I/O, JSON parsing, the async caches,
  floating-point geometry and the rasterizer loop, and the source generators.
- `tests/`: tests of the library on concrete values.

The calls into `image`, `regex` and std that the library cannot prove are wrapped in
`#[verifier::external_body]` functions, each with a doc comment saying what its contract
claims of the outside code.
