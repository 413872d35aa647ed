# jix

Verified building blocks of a block-compressed n-dimensional array store.

- `util::iter` — n-dimensional index walks (`NdIter`, `IdxIter`) with extensions that track
  strided offsets, the row-major global index and the clipped part of each block.
- `util::nd_iter_unordered` — walks over several strided operands in the most cache-friendly
  axis order, handed out as 1-D runs.
- `util::nd_copy` — strided element copies between byte buffers.
- `util::layout`, `util::bitmap`, `util::arrayvec`, `util::alternating`, `util::hint` — axis
  merging, dimension bitmaps, a fixed-capacity vector, ping-pong buffers, branch hints.
- `storage::params` — block-shape and read-size heuristics and their tuning.
- `storage::block` — the table of compressed block locations and its builder.
- `storage::compact` — the plan of a read from block storage: which blocks, which parts, where
  they land, and which blocks can be decoded in place.
- `storage::elementwise_pipeline` — output layout, axis order and chunking of element-wise
  evaluation.
- `storage::buf`, `storage::out_buf` — strided byte views and read destinations.

Every public function states its behaviour as a `requires`/`ensures` contract checked by Verus
(internal helpers carry what their callers need), and the laws that span functions are public
proof functions; `tests/` runs the functions on concrete values.
