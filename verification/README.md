# viz_core

Verified core of a browser map visualization that keeps a sensor point
cloud (sensor index, latitude, longitude, temperature, vibration, timestamp
per row) resident in WASM memory and answers viewport, time and sensor
queries over it.

- `src/cloud.rs` — splitting the row-major buffer into per-field columns,
  the per-sensor row index built once at load time, sensor selection by
  bitmask, and the choice of the two readings that bracket an instant.
- `src/palette.rs` — the five-stop color ramp, evaluated exactly at
  rational positions, and the 256-entry color table sampled from it, with
  proofs that the ramp passes through its stops, clamps outside `[0, 1]`,
  and never loses opacity as the position grows.
- `app/` — the `wasm-bindgen` `PointCloud` type and the floating-point
  parts: Web Mercator projection, bounding boxes, kernel density grid,
  timestamp interpolation and density-to-color quantization.
