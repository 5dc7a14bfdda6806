# leds

Design of LED back-lighting for illuminated signs: import of SVG contours,
grouping of contours into shapes with holes, placement of LED modules inside a
safe zone, a light simulation with under- and over-lighting alerts, series
chains and power supplies, and a cost estimate.

## Layout

- `src/` — the verified library (Verus). It holds the discrete logic of the
  system with its contracts and laws:
  - `topology` — ordering of rings by area and their grouping into shapes by
    even-odd nesting (outer rings, their holes, and islands inside holes);
    every ring with a polygon belongs to exactly one group.
  - `geometry` — boundary cells and zero seeds of the distance transform,
    local maxima of the field, cell lookup, the safe-zone decision.
  - `placement` — identifier order, pruning of overcrowded modules (fixed
    modules always stay), merging of the user's fixed modules, the choice of
    the next gap, placement modes.
  - `lighting` — the alert scan over the classified illuminance grid.
  - `electrical` — the split of placements into series chains, the currency.
  - `catalog`, `import`, `pipeline` — module lookup and choice by depth, import
    dispatch by file extension, module resolution, and the error types.
- `app/` — the command-line program and everything that computes with
  floating-point coordinates, lengths and illuminance (areas, containment,
  offsets, the chamfer distance transform, Gaussian light spots, power and
  prices), file and SVG reading, and JSON output. It hands the library the
  decisions made on those values, or integer order keys ordered as the values
  are.
- `tests/` — tests of the library.
