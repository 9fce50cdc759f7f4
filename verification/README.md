# o4core

Repair of noisy gyro orientation telemetry in DJI O4 Pro MP4 recordings.

`src/` is the Verus-verified core: everything that works on the bytes of
the MP4 and on integer bookkeeping.

- `bytes` — big/little-endian readers.
- `boxes` — MP4 box walking (`walk_boxes`, `find_box`, top-level headers).
- `proto` — protobuf wire scanning (`read_varint`, `fields`, `sub`).
- `scan` — scan of one telemetry sample: quaternion slots with their file
  offsets and bits, frame timestamp, attitude offset.
- `table` — the `meta` track's sample table (`stsz`, `stco`/`co64`, `stsc`).
- `patch` — the in-place patch plan and what applying it does to a file
  (null patch is byte-identical; injected values read back exactly).
- `slots` — deduplicated-row bookkeeping of the slots.
- `intervals` — maximal runs of a boolean mask.
- `jobs` — stages, job reports, output names, worker count.

`app/` is ordinary Rust around it: the floating-point signal processing,
optical flow (OpenCV), telemetry-parser access, file I/O, the command line
and the desktop front end.
