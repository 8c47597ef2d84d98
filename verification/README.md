# obj

Reading and writing Wavefront `.obj` geometry, verified with Verus.

## Layout

- `src/` — the verified library.
  - `text.rs`: words, trimming, line splitting and byte lengths of UTF-8 text, as the
    standard library's string functions compute them.
  - `number.rs`: integer numerals, the syntax of floating-point numerals, decimal output.
  - `mtl.rs`: material libraries as `mtllib` names them, and their materials.
  - `types.rs`: the data model (`ObjData`, `Object`, `Group`, `IndexTuple`, `ObjError`,
    the `WriteToBuf` and `GenPolygon` traits).
  - `parse.rs`: the reader, stated line by line (`step`) and over a whole text
    (`parsed_text`); `ObjParser` reads a stream one line at a time.
  - `write.rs`: the writer and the text it produces (`data_text`).
  - `polygon.rs`: faces held as `genmesh` triangles and quads.
  - `materials.rs`: putting loaded materials in place of the names `usemtl` gave.
  - `round_trip.rs`: what the reader gives back of what the writer wrote, and that the
    writer accepts what the reader produced.
- `tests/` — tests of the library on concrete inputs.
- `app/` — files, streams and `f32` coordinates around the library (`Obj::load`,
  `load_buf`, `save`, material loading through a caller's reader of `.mtl` text).

Coordinates are kept as the numerals of the file, each one a token that `f32::from_str`
accepts; `app/` converts them to and from `f32`.
