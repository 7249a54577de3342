# tetra3

Star centroids from images, star catalogs, lens distortion and tracking solves:
the decisions of a plate solver, verified with Verus.

Floating-point numbers are held as bit patterns (`ieee::F32`, `ieee::F64`).
Comparing, ordering, widening and narrowing them is verified; what has to be
added, multiplied or divided is handed in by the caller as functions, and every
contract says which values they are asked for and what becomes of the answers.

- `src/` is the library.
  - `connect`, `union_find`, `runs`, `mask`, `regions`: run-length connected
    regions of a detection mask.
  - `ieee`, `convert`, `stats`, `order`: bit patterns, order statistics, and
    descending order.
  - `background`, `noise`, `par`: background surface, level and noise.
  - `labels`, `blobs`, `measure`, `peak`: labelled components and their
    measurement.
  - `config`, `fast`, `ccl`, `gray`, `steady`: settings, the two extraction
    paths, decoded images, and the laws that hold of results.
  - `catalogs`: the Gaia and Hipparcos formats.
  - `track`, `distortion`, `arguments`: solving with a hint, radial distortion,
    and what the Python bindings decide.
- `tests/` runs the library on concrete values, with arithmetic in floating
  point.
- `app/` holds that arithmetic for use, file access, and the Python bindings.
