# cloud_labeler

Connected-component labelling of three-dimensional boolean cloud fields, with
its behaviour proved by Verus.

A field of `nx * ny * nz` cells is stored flat as `x + nx * (y + ny * z)`.
Cloud cells that share a face belong to the same patch; faces wrap around
along `x` and `y`, not along `z`. `gen_labels` numbers the patches from 0 in
scan order, `label_sizes` counts the cells of each patch.

- `src/grid.rs`: flat indices, coordinates, `cyclic`, face neighbours.
- `src/paths.rs`: paths of cloud cells and connectivity.
- `src/labeler.rs`: `gen_labels` and the flood fill behind it.
- `src/sizes.rs`: `label_sizes`.
- `src/interop.rs`: array layout and signed label encoding for bindings.
- `src/laws.rs`: properties that span the functions above.
- `app/`: a demonstration program and the Python bindings.
