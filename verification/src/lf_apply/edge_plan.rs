use vstd::prelude::*;
use super::edge_mask::half_width;
use super::edge_mask::bit16;
use super::edge_mask::high_bits;
use super::edge_mask::pair_bit;
use super::unaligned_levels;
use super::unaligned_lvl_slice;

verus! {

/// One call of an edge filter over a block row or column: the position along
/// the superblock (a column `x` or a row `i`, in units of 4 pixels), the
/// edge masks of the three filter levels handed to the filter, and where its
/// filter levels start: at byte `lvl_byte` of entry `lvl` of the level slice
/// that the superblock's edges read (the filter reads the groups of four
/// bytes from there on, [`edge_levels`]; the second chroma plane reads from
/// the byte after).
#[derive(Clone, Copy, Debug)]
pub struct LoopFilterEdge {
    pub pos: usize,
    pub mask: [u32; 3],
    pub lvl: usize,
    pub lvl_byte: usize,
}

/// The level entry from which the filter of block row `i` reads, for a
/// level array of `b4_stride` entries per block row.
pub open spec fn row_level(i: int, b4_stride: int) -> int {
    i * b4_stride
}

/// The 32-bit mask made of two halves of `hw` bits: `m[0]` low, `m[1]` high.
pub open spec fn join_halves(m: [u16; 2], hw: u32) -> u32 {
    (m[0] as u32) | ((m[1] as u32) << hw)
}

/// The part of a column edge mask that the superblock rows `starty4..endy4`
/// use, for halves of `hw` bits: the low half alone for a superblock that
/// starts at the top and ends within it, both halves for one that reaches
/// past it, and the high half for one that starts in the middle.
pub open spec fn column_word(m: [u16; 2], starty4: int, endy4: int, hw: u32) -> u32 {
    if starty4 == 0 {
        if endy4 > hw {
            join_halves(m, hw)
        } else {
            m[0] as u32
        }
    } else {
        m[1] as u32
    }
}

/// `edges` are the column edges of a luma superblock that the filter visits
/// for the rows `starty4..endy4`: every column below `w` but the first one
/// where there is nothing to the left, each with the level masks of its
/// column cut to those rows.
pub open spec fn cols_y_edges(
    edges: Seq<LoopFilterEdge>,
    have_left: bool,
    mask: Seq<[[u16; 2]; 3]>,
    w: int,
    starty4: int,
    endy4: int,
) -> bool {
    let first: int = if have_left { 0 } else { 1 };
    &&& edges.len() == if w >= first { w - first } else { 0 }
    &&& forall|k: int| 0 <= k < edges.len() ==> #[trigger] edges[k].pos == k + first
    &&& forall|k: int| 0 <= k < edges.len() ==> #[trigger] edges[k].lvl == edges[k].pos && edges[k].lvl_byte == 0
    &&& forall|k: int, l: int|
        0 <= k < edges.len() && 0 <= l < 3 ==> #[trigger] edges[k].mask[l] == column_word(
            mask[edges[k].pos as int][l],
            starty4,
            endy4,
            16,
        )
}

/// `edges` are the row edges of a luma superblock that the filter visits:
/// every row `i` of `starty4..endy4` (counted from `starty4`) but the top row
/// of the frame where there is nothing above, each with the level masks of
/// row `starty4 + i`, both halves joined.
pub open spec fn rows_y_edges(
    edges: Seq<LoopFilterEdge>,
    have_top: bool,
    b4_stride: int,
    mask: [[[u16; 2]; 3]; 32],
    starty4: int,
    endy4: int,
) -> bool {
    let first: int = if !have_top && starty4 == 0 && endy4 > 0 { 1 } else { 0 };
    &&& edges.len() == endy4 - starty4 - first
    &&& forall|k: int| 0 <= k < edges.len() ==> #[trigger] edges[k].pos == k + first
    &&& forall|k: int|
        0 <= k < edges.len() ==> #[trigger] edges[k].lvl == row_level(edges[k].pos as int, b4_stride) && edges[k].lvl_byte == 1
    &&& forall|k: int, l: int|
        0 <= k < edges.len() && 0 <= l < 3 ==> #[trigger] edges[k].mask[l] == join_halves(
            mask[starty4 + edges[k].pos][l],
            16,
        )
}

/// `edges` are the column edges of a chroma superblock with vertical
/// subsampling `ss_ver` that the filter visits for the rows `starty4..endy4`,
/// as for luma, with two levels and an empty third one.
pub open spec fn cols_uv_edges(
    edges: Seq<LoopFilterEdge>,
    have_left: bool,
    mask: Seq<[[u16; 2]; 2]>,
    w: int,
    starty4: int,
    endy4: int,
    ss_ver: int,
) -> bool {
    let first: int = if have_left { 0 } else { 1 };
    &&& edges.len() == if w >= first { w - first } else { 0 }
    &&& forall|k: int| 0 <= k < edges.len() ==> #[trigger] edges[k].pos == k + first
    &&& forall|k: int| 0 <= k < edges.len() ==> #[trigger] edges[k].lvl == edges[k].pos && edges[k].lvl_byte == 2
    &&& forall|k: int, l: int|
        0 <= k < edges.len() && 0 <= l < 2 ==> #[trigger] edges[k].mask[l] == column_word(
            mask[edges[k].pos as int][l],
            starty4,
            endy4,
            half_width(ss_ver) as u32,
        )
    &&& forall|k: int| 0 <= k < edges.len() ==> #[trigger] edges[k].mask[2] == 0
}

/// `edges` are the row edges of a chroma superblock with horizontal
/// subsampling `ss_hor` that the filter visits, as for luma, with two levels
/// and an empty third one.
pub open spec fn rows_uv_edges(
    edges: Seq<LoopFilterEdge>,
    have_top: bool,
    b4_stride: int,
    mask: [[[u16; 2]; 2]; 32],
    starty4: int,
    endy4: int,
    ss_hor: int,
) -> bool {
    let first: int = if !have_top && starty4 == 0 && endy4 > 0 { 1 } else { 0 };
    &&& edges.len() == endy4 - starty4 - first
    &&& forall|k: int| 0 <= k < edges.len() ==> #[trigger] edges[k].pos == k + first
    &&& forall|k: int|
        0 <= k < edges.len() ==> #[trigger] edges[k].lvl == row_level(edges[k].pos as int, b4_stride) && edges[k].lvl_byte == 2
    &&& forall|k: int, l: int|
        0 <= k < edges.len() && 0 <= l < 2 ==> #[trigger] edges[k].mask[l] == join_halves(
            mask[starty4 + edges[k].pos][l],
            half_width(ss_hor) as u32,
        )
    &&& forall|k: int| 0 <= k < edges.len() ==> #[trigger] edges[k].mask[2] == 0
}

/// Every edge's filter levels lie inside a level slice of `lvl_len`
/// entries: from byte `lvl_byte` of entry `lvl` there are `extra` more bytes
/// to read (`1` for the second chroma plane) and then at least that one.
pub open spec fn edges_in_levels(edges: Seq<LoopFilterEdge>, lvl_len: int, extra: int) -> bool {
    forall|k: int|
        0 <= k < edges.len() ==> #[trigger] edges[k].lvl <= lvl_len && edges[k].lvl_byte + extra <= 4 * (lvl_len - edges[k].lvl)
}

/// The filter levels that the filter of `edge` reads from the level slice
/// `lvl` of its superblock: the groups of four bytes from byte
/// `lvl_byte + plane` of entry `lvl` on, where `plane` is `1` for the second
/// chroma plane and `0` otherwise.
pub fn edge_levels<'a>(lvl: &'a [[u8; 4]], edge: &LoopFilterEdge, plane: usize) -> (r: &'a [[u8; 4]])
    requires
        plane <= 1,
        edge.lvl_byte <= 3,
        edge.lvl <= lvl@.len(),
        edge.lvl_byte + plane <= 4 * (lvl@.len() - edge.lvl),
    ensures
        r@ == unaligned_levels(lvl@.subrange(edge.lvl as int, lvl@.len() as int), edge.lvl_byte + plane),
{
    let from = vstd::slice::slice_subrange(lvl, edge.lvl, lvl.len());
    unaligned_lvl_slice(from, edge.lvl_byte + plane)
}

fn join_halves_exec(m: [u16; 2], hw: u32) -> (r: u32)
    requires
        hw == 8 || hw == 16,
    ensures
        r == join_halves(m, hw),
{
    (m[0] as u32) | ((m[1] as u32) << hw)
}

fn column_word_exec(m: [u16; 2], starty4: usize, endy4: usize, hw: u32) -> (r: u32)
    requires
        hw == 8 || hw == 16,
    ensures
        r == column_word(m, starty4 as int, endy4 as int, hw),
{
    if starty4 == 0 {
        if endy4 > hw as usize {
            join_halves_exec(m, hw)
        } else {
            m[0] as u32
        }
    } else {
        m[1] as u32
    }
}

/// The edges between block columns of one luma superblock that the filter
/// visits, for the rows `starty4..endy4`: every column `x` below `w` but the
/// first one where there is nothing to the left, each with the level masks
/// of column `x` cut to those rows.
#[verifier::spinoff_prover]
pub fn filter_plane_cols_y(
    have_left: bool,
    lvl: &[[u8; 4]],
    mask: &[[[u16; 2]; 3]],
    w: usize,
    starty4: usize,
    endy4: usize,
) -> (edges: Vec<LoopFilterEdge>)
    requires
        w <= mask@.len(),
        w <= lvl@.len() + 1,
        starty4 <= endy4,
    ensures
        cols_y_edges(edges@, have_left, mask@, w as int, starty4 as int, endy4 as int),
        edges_in_levels(edges@, lvl@.len() as int, 0),
{
    let mut edges: Vec<LoopFilterEdge> = Vec::new();
    let first: usize = if have_left { 0 } else { 1 };
    let mut x: usize = 0;
    while x < w
        invariant
            x <= w <= mask@.len(),
            w <= lvl@.len() + 1,
            first == if have_left { 0usize } else { 1usize },
            edges@.len() == if x <= first { 0 } else { x - first },
            forall|k: int| 0 <= k < edges@.len() ==> #[trigger] edges@[k].pos == k + first,
            forall|k: int| 0 <= k < edges@.len() ==> #[trigger] edges@[k].lvl == edges@[k].pos && edges@[k].lvl_byte == 0,
            edges_in_levels(edges@, lvl@.len() as int, 0),
            forall|k: int, l: int|
                0 <= k < edges@.len() && 0 <= l < 3 ==> #[trigger] edges@[k].mask[l] == column_word(
                    mask@[edges@[k].pos as int][l],
                    starty4 as int,
                    endy4 as int,
                    16,
                ),
        decreases w - x,
    {
        if !have_left && x == 0 {
            x = x + 1;
            continue;
        }
        let m = mask[x];
        let hmask = [
            column_word_exec(m[0], starty4, endy4, 16),
            column_word_exec(m[1], starty4, endy4, 16),
            column_word_exec(m[2], starty4, endy4, 16),
        ];
        let ghost prev = edges@;
        edges.push(LoopFilterEdge { pos: x, mask: hmask, lvl: x, lvl_byte: 0 });
        assert forall|k: int| 0 <= k < edges@.len() implies #[trigger] edges@[k].lvl == edges@[k].pos && edges@[k].lvl_byte == 0
            && edges@[k].lvl <= lvl@.len() && edges@[k].lvl_byte + 0 <= 4 * (lvl@.len() - edges@[k].lvl) by {
            if k < prev.len() {
                assert(edges@[k] == prev[k]);
                assert(prev[k].lvl <= lvl@.len() && prev[k].lvl_byte + 0 <= 4 * (lvl@.len() - prev[k].lvl));
            }
        }
        assert forall|k: int, l: int| 0 <= k < edges@.len() && 0 <= l < 3 implies #[trigger] edges@[k].mask[l]
            == column_word(mask@[edges@[k].pos as int][l], starty4 as int, endy4 as int, 16) by {
            if k < prev.len() {
                assert(edges@[k] == prev[k]);
                assert(prev[k].mask[l] == column_word(mask@[prev[k].pos as int][l], starty4 as int, endy4 as int, 16));
            } else {
                assert(edges@[k].mask == hmask);
                assert(m == mask@[x as int]);
                assert(hmask[0] == column_word(m[0], starty4 as int, endy4 as int, 16));
                assert(hmask[1] == column_word(m[1], starty4 as int, endy4 as int, 16));
                assert(hmask[2] == column_word(m[2], starty4 as int, endy4 as int, 16));
                assert(l == 0 || l == 1 || l == 2);
            }
        }
        x = x + 1;
    }
    edges
}

/// The edges between block rows of one luma superblock that the filter
/// visits: every row `i` of `starty4..endy4` (counted from `starty4`) but the
/// top row of the frame where there is nothing above, each with the level
/// masks of row `starty4 + i`, both halves joined.
#[verifier::spinoff_prover]
pub fn filter_plane_rows_y(
    have_top: bool,
    lvl: &[[u8; 4]],
    b4_stride: usize,
    mask: &[[[u16; 2]; 3]; 32],
    starty4: usize,
    endy4: usize,
) -> (edges: Vec<LoopFilterEdge>)
    requires
        starty4 <= endy4 <= 32,
        forall|i: int|
            (if !have_top && starty4 == 0 { 1int } else { 0int }) <= i < endy4 - starty4 ==> #[trigger] row_level(
                i,
                b4_stride as int,
            ) < lvl@.len(),
    ensures
        rows_y_edges(edges@, have_top, b4_stride as int, *mask, starty4 as int, endy4 as int),
        edges_in_levels(edges@, lvl@.len() as int, 0),
{
    let len = endy4 - starty4;
    let lvl_len: usize = lvl.len();
    let ghost first: int = if !have_top && starty4 == 0 && endy4 > 0 { 1 } else { 0 };
    let mut edges: Vec<LoopFilterEdge> = Vec::new();
    let mut i: usize = 0;
    while i < len
        invariant
            len == endy4 - starty4,
            lvl_len == lvl@.len(),
            starty4 <= endy4 <= 32,
            first == if !have_top && starty4 == 0 && endy4 > 0 { 1int } else { 0int },
            forall|i: int|
                (if !have_top && starty4 == 0 { 1int } else { 0int }) <= i < endy4 - starty4 ==> #[trigger] row_level(
                    i,
                    b4_stride as int,
                ) < lvl@.len(),
            i <= len,
            edges@.len() == if i <= first { 0 } else { i - first },
            forall|k: int| 0 <= k < edges@.len() ==> #[trigger] edges@[k].pos == k + first,
            forall|k: int|
                0 <= k < edges@.len() ==> #[trigger] edges@[k].lvl == row_level(edges@[k].pos as int, b4_stride as int)
                    && edges@[k].lvl_byte == 1,
            edges_in_levels(edges@, lvl@.len() as int, 0),
            forall|k: int, l: int|
                0 <= k < edges@.len() && 0 <= l < 3 ==> #[trigger] edges@[k].mask[l] == join_halves(
                    mask[starty4 + edges@[k].pos][l],
                    16,
                ),
        decreases len - i,
    {
        let y = i + starty4;
        if !have_top && y == 0 {
            i = i + 1;
            continue;
        }
        let m = mask[y];
        let vmask = [join_halves_exec(m[0], 16), join_halves_exec(m[1], 16), join_halves_exec(m[2], 16)];
        let ghost prev = edges@;
        assert(row_level(i as int, b4_stride as int) < lvl@.len());
        let row_lvl = i * b4_stride;
        edges.push(LoopFilterEdge { pos: i, mask: vmask, lvl: row_lvl, lvl_byte: 1 });
        assert forall|k: int| 0 <= k < edges@.len() implies #[trigger] edges@[k].lvl == row_level(
            edges@[k].pos as int,
            b4_stride as int,
        ) && edges@[k].lvl_byte == 1 && edges@[k].lvl <= lvl@.len() && edges@[k].lvl_byte + 0 <= 4 * (lvl@.len()
            - edges@[k].lvl) by {
            if k < prev.len() {
                assert(edges@[k] == prev[k]);
            }
        }
        assert forall|k: int, l: int| 0 <= k < edges@.len() && 0 <= l < 3 implies #[trigger] edges@[k].mask[l]
            == join_halves(mask[starty4 + edges@[k].pos][l], 16) by {
            if k < prev.len() {
                assert(edges@[k] == prev[k]);
                assert(prev[k].mask[l] == join_halves(mask[starty4 + prev[k].pos][l], 16));
            } else {
                assert(edges@[k].mask == vmask);
                assert(vmask[0] == join_halves(m[0], 16));
                assert(vmask[1] == join_halves(m[1], 16));
                assert(vmask[2] == join_halves(m[2], 16));
                assert(l == 0 || l == 1 || l == 2);
            }
        }
        i = i + 1;
    }
    edges
}

/// The edges between block columns of one chroma superblock that the filter
/// visits, for the rows `starty4..endy4`, with vertical subsampling `ss_ver`:
/// every column `x` below `w` but the first one where there is nothing to
/// the left, each with the two level masks of column `x` cut to those rows
/// and an empty third level. The same edges serve both chroma planes.
#[verifier::spinoff_prover]
pub fn filter_plane_cols_uv(
    have_left: bool,
    lvl: &[[u8; 4]],
    mask: &[[[u16; 2]; 2]],
    w: usize,
    starty4: usize,
    endy4: usize,
    ss_ver: i32,
) -> (edges: Vec<LoopFilterEdge>)
    requires
        w <= mask@.len(),
        w <= lvl@.len(),
        starty4 <= endy4,
        0 <= ss_ver <= 1,
    ensures
        cols_uv_edges(edges@, have_left, mask@, w as int, starty4 as int, endy4 as int, ss_ver as int),
        edges_in_levels(edges@, w as int, 1),
{
    let hw: u32 = if ss_ver == 0 { 16 } else { 8 };
    let mut edges: Vec<LoopFilterEdge> = Vec::new();
    let first: usize = if have_left { 0 } else { 1 };
    let mut x: usize = 0;
    while x < w
        invariant
            x <= w <= mask@.len(),
            hw == half_width(ss_ver as int),
            first == if have_left { 0usize } else { 1usize },
            edges@.len() == if x <= first { 0 } else { x - first },
            forall|k: int| 0 <= k < edges@.len() ==> #[trigger] edges@[k].pos == k + first,
            forall|k: int| 0 <= k < edges@.len() ==> #[trigger] edges@[k].lvl == edges@[k].pos && edges@[k].lvl_byte == 2,
            edges_in_levels(edges@, w as int, 1),
            forall|k: int, l: int|
                0 <= k < edges@.len() && 0 <= l < 2 ==> #[trigger] edges@[k].mask[l] == column_word(
                    mask@[edges@[k].pos as int][l],
                    starty4 as int,
                    endy4 as int,
                    hw,
                ),
            forall|k: int| 0 <= k < edges@.len() ==> #[trigger] edges@[k].mask[2] == 0,
        decreases w - x,
    {
        if !have_left && x == 0 {
            x = x + 1;
            continue;
        }
        let m = mask[x];
        let hmask = [column_word_exec(m[0], starty4, endy4, hw), column_word_exec(m[1], starty4, endy4, hw), 0];
        let ghost prev = edges@;
        edges.push(LoopFilterEdge { pos: x, mask: hmask, lvl: x, lvl_byte: 2 });
        assert forall|k: int| 0 <= k < edges@.len() implies #[trigger] edges@[k].lvl == edges@[k].pos && edges@[k].lvl_byte == 2
            && edges@[k].lvl <= w && edges@[k].lvl_byte + 1 <= 4 * (w - edges@[k].lvl) by {
            if k < prev.len() {
                assert(edges@[k] == prev[k]);
                assert(prev[k].lvl <= w && prev[k].lvl_byte + 1 <= 4 * (w - prev[k].lvl));
            }
        }
        assert forall|k: int, l: int| 0 <= k < edges@.len() && 0 <= l < 2 implies #[trigger] edges@[k].mask[l]
            == column_word(mask@[edges@[k].pos as int][l], starty4 as int, endy4 as int, hw) by {
            if k < prev.len() {
                assert(edges@[k] == prev[k]);
                assert(prev[k].mask[l] == column_word(mask@[prev[k].pos as int][l], starty4 as int, endy4 as int, hw));
            } else {
                assert(edges@[k].mask == hmask);
                assert(m == mask@[x as int]);
                assert(hmask[0] == column_word(m[0], starty4 as int, endy4 as int, hw));
                assert(hmask[1] == column_word(m[1], starty4 as int, endy4 as int, hw));
                assert(l == 0 || l == 1);
            }
        }
        assert forall|k: int| 0 <= k < edges@.len() implies #[trigger] edges@[k].mask[2] == 0 by {
            if k < prev.len() {
                assert(edges@[k] == prev[k]);
                assert(prev[k].mask[2] == 0);
            } else {
                assert(edges@[k].mask == hmask);
                assert(hmask[2] == 0);
            }
        }
        x = x + 1;
    }
    edges
}

/// The edges between block rows of one chroma superblock that the filter
/// visits, with horizontal subsampling `ss_hor`: every row `i` of
/// `starty4..endy4` (counted from `starty4`) but the top row of the frame
/// where there is nothing above, each with the two level masks of row
/// `starty4 + i`, both halves joined, and an empty third level. The same
/// edges serve both chroma planes.
#[verifier::spinoff_prover]
pub fn filter_plane_rows_uv(
    have_top: bool,
    lvl: &[[u8; 4]],
    b4_stride: usize,
    mask: &[[[u16; 2]; 2]; 32],
    starty4: usize,
    endy4: usize,
    ss_hor: i32,
) -> (edges: Vec<LoopFilterEdge>)
    requires
        starty4 <= endy4 <= 32,
        0 <= ss_hor <= 1,
        forall|i: int|
            (if !have_top && starty4 == 0 { 1int } else { 0int }) <= i < endy4 - starty4 ==> #[trigger] row_level(
                i,
                b4_stride as int,
            ) < lvl@.len(),
    ensures
        rows_uv_edges(edges@, have_top, b4_stride as int, *mask, starty4 as int, endy4 as int, ss_hor as int),
        edges_in_levels(edges@, lvl@.len() as int, 1),
{
    let hw: u32 = if ss_hor == 0 { 16 } else { 8 };
    let len = endy4 - starty4;
    let lvl_len: usize = lvl.len();
    let ghost first: int = if !have_top && starty4 == 0 && endy4 > 0 { 1 } else { 0 };
    let mut edges: Vec<LoopFilterEdge> = Vec::new();
    let mut i: usize = 0;
    while i < len
        invariant
            len == endy4 - starty4,
            lvl_len == lvl@.len(),
            starty4 <= endy4 <= 32,
            hw == half_width(ss_hor as int),
            first == if !have_top && starty4 == 0 && endy4 > 0 { 1int } else { 0int },
            forall|i: int|
                (if !have_top && starty4 == 0 { 1int } else { 0int }) <= i < endy4 - starty4 ==> #[trigger] row_level(
                    i,
                    b4_stride as int,
                ) < lvl@.len(),
            i <= len,
            edges@.len() == if i <= first { 0 } else { i - first },
            forall|k: int| 0 <= k < edges@.len() ==> #[trigger] edges@[k].pos == k + first,
            forall|k: int|
                0 <= k < edges@.len() ==> #[trigger] edges@[k].lvl == row_level(edges@[k].pos as int, b4_stride as int)
                    && edges@[k].lvl_byte == 2,
            edges_in_levels(edges@, lvl@.len() as int, 1),
            forall|k: int, l: int|
                0 <= k < edges@.len() && 0 <= l < 2 ==> #[trigger] edges@[k].mask[l] == join_halves(
                    mask[starty4 + edges@[k].pos][l],
                    hw,
                ),
            forall|k: int| 0 <= k < edges@.len() ==> #[trigger] edges@[k].mask[2] == 0,
        decreases len - i,
    {
        let y = i + starty4;
        if !have_top && y == 0 {
            i = i + 1;
            continue;
        }
        let m = mask[y];
        let vmask = [join_halves_exec(m[0], hw), join_halves_exec(m[1], hw), 0];
        let ghost prev = edges@;
        assert(row_level(i as int, b4_stride as int) < lvl@.len());
        let row_lvl = i * b4_stride;
        edges.push(LoopFilterEdge { pos: i, mask: vmask, lvl: row_lvl, lvl_byte: 2 });
        assert forall|k: int| 0 <= k < edges@.len() implies #[trigger] edges@[k].lvl == row_level(
            edges@[k].pos as int,
            b4_stride as int,
        ) && edges@[k].lvl_byte == 2 && edges@[k].lvl <= lvl@.len() && edges@[k].lvl_byte + 1 <= 4 * (lvl@.len()
            - edges@[k].lvl) by {
            if k < prev.len() {
                assert(edges@[k] == prev[k]);
            }
        }
        assert forall|k: int, l: int| 0 <= k < edges@.len() && 0 <= l < 2 implies #[trigger] edges@[k].mask[l]
            == join_halves(mask[starty4 + edges@[k].pos][l], hw) by {
            if k < prev.len() {
                assert(edges@[k] == prev[k]);
                assert(prev[k].mask[l] == join_halves(mask[starty4 + prev[k].pos][l], hw));
            } else {
                assert(edges@[k].mask == vmask);
                assert(vmask[0] == join_halves(m[0], hw));
                assert(vmask[1] == join_halves(m[1], hw));
                assert(l == 0 || l == 1);
            }
        }
        assert forall|k: int| 0 <= k < edges@.len() implies #[trigger] edges@[k].mask[2] == 0 by {
            if k < prev.len() {
                assert(edges@[k] == prev[k]);
                assert(prev[k].mask[2] == 0);
            } else {
                assert(edges@[k].mask == vmask);
                assert(vmask[2] == 0);
            }
        }
        i = i + 1;
    }
    edges
}

/// Whether bit `j` of the 32-bit mask `x` is set.
pub open spec fn bit32(x: u32, j: u32) -> bool {
    x & (1u32 << j) != 0
}

proof fn lemma_join16_bit(m0: u16, m1: u16, j: u32)
    by (bit_vector)
    requires
        j < 32,
    ensures
        bit32((m0 as u32) | ((m1 as u32) << 16u32), j) == if j < 16 { bit16(m0, j as u16) } else { bit16(m1, (j - 16) as u16) },
{
}

proof fn lemma_join8_bit(m0: u16, m1: u16, j: u32)
    by (bit_vector)
    requires
        j < 32,
    ensures
        bit32((m0 as u32) | ((m1 as u32) << 8u32), j) == ((j < 16 && bit16(m0, j as u16)) || (8 <= j < 24 && bit16(m1, (j - 8) as u16))),
{
}

proof fn lemma_word_bit(m0: u16, j: u32)
    by (bit_vector)
    requires
        j < 32,
    ensures
        bit32(m0 as u32, j) == (j < 16 && bit16(m0, j as u16)),
{
}

proof fn lemma_clear_high(m0: u16, j: u32)
    by (bit_vector)
    requires
        8 <= j < 16,
        m0 >> 8u16 == 0,
    ensures
        !bit16(m0, j as u16),
{
}

/// Bit `b` of a two-half mask is bit `b % hw` of half `b / hw`.
proof fn lemma_pair_bit_split(m: [u16; 2], b: int, hw: int)
    requires
        hw == 8 || hw == 16,
        0 <= b < 2 * hw,
    ensures
        pair_bit(m, b, hw) == if b < hw { bit16(m[0], b as u16) } else { bit16(m[1], (b - hw) as u16) },
{
    if b < hw {
        vstd::arithmetic::div_mod::lemma_fundamental_div_mod_converse(b, hw, 0, b);
    } else {
        vstd::arithmetic::div_mod::lemma_fundamental_div_mod_converse(b, hw, 1, b - hw);
    }
}

/// The word that the filter of one column gets for the rows
/// `starty4..endy4` of a superblock row, from the two halves `m` of its
/// column mask (halves of `hw` bits, a superblock row starting at the top or
/// in the middle): every edge bit of a row inside `starty4..endy4` is in it,
/// at the bit of its row counted from `starty4`; where the halves fill
/// their words (or hold nothing above `hw` bits), every bit of the word is
/// such an edge bit of the column.
pub proof fn lemma_column_word_rows(m: [u16; 2], starty4: int, endy4: int, hw: int)
    requires
        hw == 8 || hw == 16,
        starty4 == 0 || starty4 == hw,
        starty4 <= endy4 <= 2 * hw,
    ensures
        forall|b: int|
            starty4 <= b < endy4 && pair_bit(m, b, hw) ==> #[trigger] bit32(column_word(m, starty4, endy4, hw as u32), (b - starty4) as u32),
        hw == 16 || (high_bits(m[0], 8) == 0 && high_bits(m[1], 8) == 0) ==> forall|j: int|
            0 <= j < 32 && #[trigger] bit32(column_word(m, starty4, endy4, hw as u32), j as u32) ==> starty4 + j < 2 * hw && pair_bit(
                m,
                starty4 + j,
                hw,
            ),
{
    let w = column_word(m, starty4, endy4, hw as u32);
    assert forall|b: int| starty4 <= b < endy4 && pair_bit(m, b, hw) implies #[trigger] bit32(w, (b - starty4) as u32) by {
        lemma_pair_bit_split(m, b, hw);
        let j = (b - starty4) as u32;
        if starty4 == 0 && endy4 > hw {
            if hw == 16 {
                lemma_join16_bit(m[0], m[1], j);
            } else {
                lemma_join8_bit(m[0], m[1], j);
            }
        } else if starty4 == 0 {
            lemma_word_bit(m[0], j);
        } else {
            lemma_word_bit(m[1], j);
        }
    }
    if hw == 16 || (high_bits(m[0], 8) == 0 && high_bits(m[1], 8) == 0) {
        assert forall|j: int| 0 <= j < 32 && #[trigger] bit32(w, j as u32) implies starty4 + j < 2 * hw && pair_bit(m, starty4 + j, hw) by {
            let ju = j as u32;
            if starty4 == 0 && endy4 > hw {
                if hw == 16 {
                    lemma_join16_bit(m[0], m[1], ju);
                } else {
                    lemma_join8_bit(m[0], m[1], ju);
                    if 8 <= j < 16 && bit16(m[0], ju as u16) {
                        lemma_clear_high(m[0], ju);
                    }
                    if 16 <= j < 24 {
                        lemma_clear_high(m[1], (j - 8) as u32);
                    }
                }
            } else if starty4 == 0 {
                lemma_word_bit(m[0], ju);
                if hw == 8 && 8 <= j < 16 {
                    lemma_clear_high(m[0], ju);
                }
            } else {
                lemma_word_bit(m[1], ju);
                if hw == 8 && 8 <= j < 16 {
                    lemma_clear_high(m[1], ju);
                }
            }
            if starty4 + j < 2 * hw {
                lemma_pair_bit_split(m, starty4 + j, hw);
            }
        }
    }
}

/// Every edge bit that a luma superblock's columns hold in the rows
/// `starty4..endy4` reaches the mask handed to the filter of its column, at
/// the bit of its row counted from `starty4`, and no other bit is set.
pub proof fn lemma_cols_y_edges_keep_rows(
    edges: Seq<LoopFilterEdge>,
    have_left: bool,
    mask: Seq<[[u16; 2]; 3]>,
    w: int,
    starty4: int,
    endy4: int,
)
    requires
        cols_y_edges(edges, have_left, mask, w, starty4, endy4),
        starty4 == 0 || starty4 == 16,
        starty4 <= endy4 <= 32,
    ensures
        forall|k: int, l: int, b: int|
            0 <= k < edges.len() && 0 <= l < 3 && starty4 <= b < endy4 && pair_bit(mask[edges[k].pos as int][l], b, 16) ==> #[trigger] bit32(
                edges[k].mask[l],
                (b - starty4) as u32,
            ),
        forall|k: int, l: int, j: int|
            0 <= k < edges.len() && 0 <= l < 3 && 0 <= j < 32 && #[trigger] bit32(edges[k].mask[l], j as u32) ==> starty4 + j < 32
                && pair_bit(mask[edges[k].pos as int][l], starty4 + j, 16),
{
    assert forall|k: int, l: int, b: int|
        0 <= k < edges.len() && 0 <= l < 3 && starty4 <= b < endy4 && pair_bit(mask[edges[k].pos as int][l], b, 16) implies #[trigger] bit32(
        edges[k].mask[l],
        (b - starty4) as u32,
    ) by {
        lemma_column_word_rows(mask[edges[k].pos as int][l], starty4, endy4, 16);
        assert(edges[k].mask[l] == column_word(mask[edges[k].pos as int][l], starty4, endy4, 16));
        assert((16int as u32) == 16u32);
    }
    assert forall|k: int, l: int, j: int|
        0 <= k < edges.len() && 0 <= l < 3 && 0 <= j < 32 && #[trigger] bit32(edges[k].mask[l], j as u32) implies starty4 + j < 32
        && pair_bit(mask[edges[k].pos as int][l], starty4 + j, 16) by {
        lemma_column_word_rows(mask[edges[k].pos as int][l], starty4, endy4, 16);
        assert(edges[k].mask[l] == column_word(mask[edges[k].pos as int][l], starty4, endy4, 16));
        assert((16int as u32) == 16u32);
    }
}

/// Every edge bit that a chroma superblock's columns hold in the rows
/// `starty4..endy4` reaches the mask handed to the filter of its column, at
/// the bit of its row counted from `starty4`; where the mask halves hold
/// nothing above their `16 >> ss_ver` bits, no other bit is set.
pub proof fn lemma_cols_uv_edges_keep_rows(
    edges: Seq<LoopFilterEdge>,
    have_left: bool,
    mask: Seq<[[u16; 2]; 2]>,
    w: int,
    starty4: int,
    endy4: int,
    ss_ver: int,
)
    requires
        cols_uv_edges(edges, have_left, mask, w, starty4, endy4, ss_ver),
        0 <= ss_ver <= 1,
        starty4 == 0 || starty4 == half_width(ss_ver),
        starty4 <= endy4 <= 2 * half_width(ss_ver),
    ensures
        forall|k: int, l: int, b: int|
            0 <= k < edges.len() && 0 <= l < 2 && starty4 <= b < endy4 && pair_bit(mask[edges[k].pos as int][l], b, half_width(ss_ver))
                ==> #[trigger] bit32(edges[k].mask[l], (b - starty4) as u32),
        forall|k: int, l: int, j: int|
            0 <= k < edges.len() && 0 <= l < 2 && 0 <= j < 32 && #[trigger] bit32(edges[k].mask[l], j as u32) && (ss_ver == 0 || (
            high_bits(mask[edges[k].pos as int][l][0], 8) == 0 && high_bits(mask[edges[k].pos as int][l][1], 8) == 0)) ==> starty4 + j
                < 2 * half_width(ss_ver) && pair_bit(mask[edges[k].pos as int][l], starty4 + j, half_width(ss_ver)),
{
    let hw = half_width(ss_ver);
    assert forall|k: int, l: int, b: int|
        0 <= k < edges.len() && 0 <= l < 2 && starty4 <= b < endy4 && pair_bit(mask[edges[k].pos as int][l], b, hw) implies #[trigger] bit32(
        edges[k].mask[l],
        (b - starty4) as u32,
    ) by {
        lemma_column_word_rows(mask[edges[k].pos as int][l], starty4, endy4, hw);
    }
    assert forall|k: int, l: int, j: int|
        0 <= k < edges.len() && 0 <= l < 2 && 0 <= j < 32 && #[trigger] bit32(edges[k].mask[l], j as u32) && (ss_ver == 0 || (high_bits(
            mask[edges[k].pos as int][l][0],
            8,
        ) == 0 && high_bits(mask[edges[k].pos as int][l][1], 8) == 0)) implies starty4 + j < 2 * hw && pair_bit(
        mask[edges[k].pos as int][l],
        starty4 + j,
        hw,
    ) by {
        lemma_column_word_rows(mask[edges[k].pos as int][l], starty4, endy4, hw);
    }
}

} // verus!
