# geoprint3d_backend

Backend of GeoPrint3D, which turns a small map area into a watertight,
3D-printable terrain model with buildings.

- `src/` is the verified library (Verus): mesh topology (base closure and its
  closedness and manifold laws, building solids and roofs with the same two
  laws, the manifold check),
  parsing of OpenStreetMap elements with cross-tile deduplication, the tile
  work queue and per-tile fetch decisions, Open-Elevation batching and retry
  decisions, Terrain-RGB tile decoding, stitching and zoom choice, frontend log
  formatting and API error bodies.
- `app/` is the HTTP server around it: axum routes, network requests, PROJ
  projection, Delaunay and ear-clip triangulation, and the floating-point
  geometry (clipping, heights, roof shapes, print scaling).
- `tests/` runs the library on concrete inputs.
