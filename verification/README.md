# rost_west

Map generation for the Luanti engine: fractal elevation and temperature maps, the squares that
hold them, the Lanczos interpolation that doubles their resolution, and the generators that the
engine creates by id and asks to fill chunks of the world with nodes.

The library under `src/` is written in Verus and verified:

- `decimal` — numbers written in decimal, for the library's messages.
- `mapgen::torus` — arithmetic of square maps that wrap around at their edges.
- `mapgen::data_square` — `DataSquare`, a square 2D array addressed by wrapping `u16`
  coordinates, and the `GetWrapping` trait.
- `mapgen::lanczos_doubler` — doubling a square's resolution by folding windows of neighbours,
  and the table of kernels a sampler picks from.
- `manager` — the registry of live map generators by id.
- `chunk` — chunk geometry, the walk over the rows of a chunk's blocks, and writing node content
  ids into the engine's voxel buffer.
- `rost_west` — material ids by node name, and integer coordinates of the world's surface.
- `rustlantis` — the flat-world generator and the layered generator.
- `specs` — the specifications of the outside functions the library calls.

`app/` holds the unverified rest: the C++ bridges the engine calls through, the global registries,
the floating-point kernels, noise and surface, and the program that renders an elevation map to
`map.png`.
