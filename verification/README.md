# tracks

The logic of a tool that prepares cycling tracks for print: which places and controls
are shown along a track, how the track is cut into parts and pages, how map tiles are
named and grouped, and how the files of a track are named and found. Each function of
the library states its result in a contract that Verus proves.

Layout:

- `src/` — the verified library, one module per subject:
  `tile` (map grid, tiles and chunks), `point_collection` (places by kind, packets),
  `parameters` (track parts and their order), `trackparts` (point ranges, segments
  between controls), `split_ambiguity` (where to split a track so that steps are
  unambiguous), `waypoint`, `waypoints_table`, `waypoint_values` (grouping and ranking
  of waypoints), `wheel` (short names, ring geometry), `pdf`, `typst`, `svgtable`
  (document texts and pages), `zipexport` (file names), `trackfile` (track files and
  datasets), and the helpers `text` and `ordered`.
- `tests/` — tests of the library on concrete values.
- `app/` — a thin layer around the library: the floating-point geometry of tiles and
  chunks, label zones and the spreading of waypoint values, file access, zip archives,
  and copies of library types that carry `serde` derives.

Not in this crate: the drawing of maps, profiles and wheels, the speed, time and power
models, GPX import and export, label placement, and the projection of points on the
track (including the matching of waypoints to controls). These compute with floating
point or rest on modules that are not part of this code base.
