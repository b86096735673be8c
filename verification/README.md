# ymir-core (verified core)

The integer and graph logic of the C1 lightweight-tectonics pipeline,
written in Verus and proved against its contracts.

Layout:

- `src/` — the verified library (`ymir_core`):
  - `grid` — row-major torus grids (`BoolField`, `PlateIdField`, `PlateTypeField`);
  - `pair_map`, `plate_pairs` — ordered plate-pair maps and the
    convergence / divergence trackers (edge votes from relative-motion signs);
  - `plate_ops` — merges (`reassign_plate`), rift strips, distinct-plate counts,
    pairs past a threshold;
  - `adjacency`, `clustering` — the plate adjacency graph and the seeded
    breadth-first continental clustering (seeds drawn with `rand_chacha`);
  - `drainage_area` — transitive drainage areas;
  - `union_find`, `landmass`, `basins` — union-find, periodic 4-connected land
    masses and bounded 8-connected basins, with land-mass metrics;
  - `land` — circular extents of occupancies on a ring;
  - `seam` — seam invariance: a cyclically shifted mask has a largest mass of
    the same size and, when unique, of the same extent;
  - `window`, `verdict` — the border-clean export window around a mass (ring
    and interior of a square window on the torus) and the domain verdict;
  - `basin_flood` — the priority flood of an enclosed basin: its bowl, sill,
    saddle and escape cell;
  - `river_clip`, `lakes` — clipping reaches against lakes, outlet tracing,
    spillways, lake-map overlays, the exorheic-outlet rule;
  - `tectonic_labels`, `volcanism`, `displacement` — per-cell tectonic masks,
    edifice kinds, noise-channel seeds.
- `tests/` — tests against the library's public API.
- `app/` — the floating-point layer (physical units, closed-form physical
  laws, noise displacement, velocity blending, serde copies of the enums),
  which calls the library.
