# rav1d

Verified pieces of an AV1 decoder's plumbing, written in Verus.

- `error`: the decoder's error kinds, their `errno` codes, and the conversions
  between the decoder's result and the C-facing integer result (`0` for
  success, minus the code for an error), proved to undo each other.
- `with_offset`: a handle on data together with a position in it, moved by
  unsigned amounts (which must not leave the range of `usize`) and by signed
  amounts (which wrap).
- `lf_apply`: the loop filter's decisions for one superblock row.
  - `unaligned_lvl_slice` reads groups of four filter levels at any byte
    offset.
  - `edge_mask`: moving the bits of an edge mask to the filter level that the
    transform across a tile boundary allows.
  - `edge_plan`: the edges that the luma and chroma filters visit in one
    superblock, with the masks handed to them and the level entries and
    bytes their filters read.
  - `backup`: which lines around the stripe edges are saved into the line
    buffers for CDEF and loop restoration, where in the buffers each backup
    starts, the pixel offset of every line written for either sign of the
    stride, that every superblock row fits the twelve-line buffer, and that
    under tile threading superblock rows write disjoint lines.
  - `sbrow`: fixing the masks along tile column and tile row boundaries
    (which never raises a filter level and changes nothing when repeated) and
    planning the edges of a whole superblock row.

These functions decide and return plans: which edges are filtered with which
masks and level entries, and which lines go where in the line buffers. The
pixel work itself (the filters, the copies into the line buffers and the resize
filter) is not part of this crate.

`tests/` runs the library on concrete values.
