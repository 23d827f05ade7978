# forge_transform

Tile transforms: filter, sort, map, chunk, flatten, deduplicate, head, tail,
sample, and pipelines and chains of them, verified with Verus.

- `src/` is the verified library. Each transform states, through
  `TileTransform::transforms_to`, exactly which tiles it gives for which input;
  `PipelineTransform` and `TransformChain` state their results in terms of their
  stages' statements.
  - `tile.rs`: tiles, transform specifications and errors.
  - `string_map.rs`: the string-to-string map used for metadata and parameters.
  - `text.rs`: byte order, substring search, decimal parsing and printing, trimming.
  - `base64.rs`: encoding and lenient decoding, with the round-trip proof.
  - `filter.rs`, `sort.rs`, `map.rs`, `group.rs`, `select.rs`, `pipeline.rs`: the transforms.
- `app/` holds serialisable copies of the types (serde), `Display` for errors,
  and conservation ratios, which are floating point.
- `tests/` runs the transforms on concrete tiles.
