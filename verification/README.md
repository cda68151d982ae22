# massif

Terrain-RGB tile generation from elevation rasters: Mapbox or Terrarium encoding, WebP or PNG
tiles, PMTiles or MBTiles output.

`src/` is a library verified with Verus. It holds the rules: which tiles an extent has and which of
them are evaluated, which source pixels a tile reads and how they are sampled, how elevations
become pixels, which encoder makes the image, and how the containers number tiles. `app/` is the
command around it: arguments, GDAL, SQLite, threads, progress, and everything in floating point.

## Numbers

The library computes with integers only.

- A *world position* is a longitude or latitude as a fraction of the Web-Mercator square, in units
  of `2^-63`, rounded down (`src/tile.rs`). The tile index at any zoom follows from it exactly.
- A *step count* is an elevation in whole steps of the encoding, rounded down: `(elev - base_val) /
  interval` for Mapbox, `(elev + 32768) * 256` for Terrarium; `None` is nodata (`src/encoder.rs`).

## Modules

| Module | Contents |
|---|---|
| `tile` | tile columns and rows of world positions |
| `frontier` | tile addresses, bounds per zoom, children, enumeration |
| `generate` | flat or frontier, what becomes of each evaluated tile, and that both ways write the same images |
| `raster` | source windows, sampling, tile evaluation |
| `encoder` | elevation to RGB |
| `tile_format` | PNG and WebP images |
| `container` | MBTiles rows and metadata, PMTiles order and header |
| `sort`, `text` | a stable sort of tiles by key; small texts |

What the library states beyond the contracts of single functions stands in the proof functions
whose names begin with `law_`.

## What is not proved

The images and the PMTiles ids come from the crates `png`, `image-webp`, `webp` and `pmtiles`. What
is believed of them stands in the contracts of `write_png`, `write_webp`, `write_libwebp` and
`id_of`.

That both ways of generating write the same images rests on pruning being safe: that the source
window of a tile holds those of the tiles below it, and that its buffer shows data wherever the
window has some. The library proves it of sources in plain longitude and latitude that are read
pixel for pixel; elsewhere it rests on how GDAL reprojects and resamples. That two runs write the
same bytes at a WebP compression level rests on libwebp writing one file for one set of pixels.
