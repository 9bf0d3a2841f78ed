# render3d

The data layer of a 3D scene and dataset visualizer, written in Verus.
Its logic (parsers, indexes, state machines, mesh topology) is verified:
each of those functions carries a `requires`/`ensures` contract that Verus
proves. A few small functions are trusted instead of proved: they wrap one
call into std or `serde_json` (the system clock, a path's file stem, a
sort, Unicode lowercasing, UTF-8 decoding, JSON parsing) and their
contracts state only what that call's documentation promises. Each is
marked `#[verifier::external_body]` and says so in its doc comment.

## Layout

- `src/` — the verified library:
  - `brep/` — solids from face loops, edge use, orientation, position
    welding over hashed grid keys;
  - `dataset/` — dataset errors, header parsers (NPY, IDX), label
    vocabularies, table cells, the label index and search queries, the
    projection cache format, and the streaming buffer, NDJSON framing and
    row decoding;
  - `geometry/` — shapes, colours, the geometry-string language, XYZ point
    text, header-mapped tables, JSON documents and reader selection;
  - `llm/` — GGUF metadata, model architectures, the tokenizer and the
    Ollama wire format;
  - `editor.rs`, `scene.rs` — scene objects, keyboard editing, confirmed
    edits and deletions, and undo/redo;
  - `mesh.rs` — which reader a model file needs, merged index lists and
    double-sided surface indices;
  - `measure.rs` — the two-point measuring tool;
  - `sampling.rs` — evenly strided subsampling of index ranges;
  - `primitives.rs` — topology of the built-in meshes;
  - `i18n.rs`, `logger.rs`, `settings.rs`, `text.rs`, `bytes.rs` — languages,
    log levels, default settings, text and byte helpers.
- `tests/` — tests run against the compiled library.
- `app/` — the command-line front end: file and network I/O, floating-point
  work (mesh vertices, number reading, PCA and direct projections, sketches,
  model import, ray picking, the activation animation) and serde copies of
  library types.

## Numbers

The library never computes with floating-point values. Geometry read from
text (the geometry language, XYZ files, tables) travels as checked number
text that `app/` converts; numbers that come out of a JSON parse (JSON
geometry documents, NDJSON rows) travel as the bit patterns of their `f64`
values, as do the other floats that pass through the library.

## Tokenizer lookup

The tokenizer maps a word to the last vocabulary index that holds it. It
does so with a verified scan of the vocabulary rather than a
`HashMap<String, u32>`: vstd specifies `HashMap` lookups only for key types
that obey its key model, which it grants to integers, `bool` and boxes of
them; for `String` keys the calls are accepted but say nothing about what a
lookup returns.
Position welding, whose keys are integer triples, does use a `HashMap`,
keyed by a verified integer hash of the grid cell with an exact key check
inside each bucket.
