# detile

Detection of regular tile grids in images (sprite sheets, tile atlases, game
maps) and recovery of the tileset behind them.

The crate is a verified library: each public function carries a contract
that Verus proves. It holds the integer logic of the detector and the
tile-level image work:

- `grid`: checks of a detection request, the cell counts of an axis, the
  combination of two axis fits into a grid, and the placement of the margin
  inside a stride.
- `periodicity`, `stride_set`: peak picking over ranked stride candidates and
  the harmonic expansion of candidate strides, collected in a `BTreeSet`.
- `tiles`, `atlas`, `layers`: cutting an image into grid cells, merging
  near-identical cells into a packed atlas, and splitting the cells into base
  layers (per-pixel mode or median, with k-means clustering for several
  bases) and a detail layer.
- `quantize`: palette reduction with the NeuQuant quantizer of `color_quant`.
- `overlay`: drawing a grid over an image.
- `editing`: hand editing of a grid (pointer gestures, keys, normalisation).
- `raster`, `stats`, `layout`: the RGBA buffer, integer statistics, and the
  packing of slots with one-pixel gutters.

`app/` is the `detile` command: image I/O, the floating-point signal analysis
and scoring that rank the candidate grids, and the command line.
The interactive viewer is not part of `app/`: the `ui` subcommand only says
so. Its decisions (keys, selection, mouse editing, normalisation of the
edited grid) are the verified functions of `editing`.
