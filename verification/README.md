# roadworks

Roads, paths and what stands beside them, for a generator that turns
OpenStreetMap data into a block world. The library is written in Verus: every
function states what it does in its contract, and the contracts are proved.

- `src/highways/` — the highways themselves: `connectivity` (which ones meet
  where, and where slopes are needed), `slopes` (lengths and heights), `medians`
  (level surfaces on uneven ground), `pillars`, `surfaces` (sidings and
  aeroways), `coverage` (which columns roads cover) and `features` (what a way
  or a node becomes).
- `src/placement.rs` — what becomes of each element of the map.
- `src/bresenham.rs`, `src/bitmap.rs`, `src/coords.rs` — lines, sets and maps of
  block columns.
- `src/binary32.rs`, `src/scale.rs` — single- and double-precision arithmetic in
  integers, so that heights, lengths and scaled widths can be reasoned about.
- `src/osm.rs`, `src/tags.rs`, `src/text.rs`, `src/blocks.rs`,
  `src/palettes.rs`, `src/features.rs` — the data.
- `src/world_editor.rs` — the world as it is while it is built, and the edits
  asked for.
- `app/` — floating-point settings and widths, the modules for other subjects of
  the map, reading the world and carrying out the edits.

One thing is trusted: that `str::parse::<i32>` reads signed decimal numbers.
