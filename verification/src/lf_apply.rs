//! The loop filter's bookkeeping for one superblock row: which lines are
//! saved around stripe edges for CDEF and loop restoration, how the edge
//! masks are fixed at tile boundaries, and which edges the filters visit.

use vstd::prelude::*;

pub mod backup;
pub mod edge_mask;
pub mod edge_plan;
pub mod sbrow;

pub use backup::backup_lpf;
pub use backup::rav1d_copy_lpf;
pub use backup::LineBuffer;
pub use backup::LpfBackupCall;
pub use backup::LpfBackupPlan;
pub use backup::LpfStripe;
pub use backup::LR_RESTORE_U;
pub use backup::LR_RESTORE_V;
pub use backup::LR_RESTORE_Y;
pub use edge_mask::fix_uv_edge;
pub use edge_mask::fix_y_edge;
pub use edge_plan::filter_plane_cols_uv;
pub use edge_plan::filter_plane_cols_y;
pub use edge_plan::filter_plane_rows_uv;
pub use edge_plan::filter_plane_rows_y;
pub use edge_plan::LoopFilterEdge;
pub use sbrow::rav1d_loopfilter_sbrow_cols;
pub use sbrow::rav1d_loopfilter_sbrow_rows;
pub use sbrow::Av1Filter;
pub use sbrow::LoopFilterFrame;
pub use sbrow::SbrowFilterPlan;
pub use sbrow::SuperblockEdges;

verus! {

/// `<[[u8; 4]]>::as_flattened`: the bytes of all the arrays, one array after
/// another.
#[verifier::external_body]
fn flatten_levels(lvl: &[[u8; 4]]) -> (r: &[u8])
    ensures
        r@.len() == 4 * lvl@.len(),
        forall|i: int| 0 <= i < r@.len() ==> #[trigger] r@[i] == lvl@[i / 4][i % 4],
{
    lvl.as_flattened()
}

/// `<[u8]>::as_chunks::<4>`: the whole groups of four consecutive bytes, in
/// order; a shorter tail is left out.
#[verifier::external_body]
fn chunk_levels(bytes: &[u8]) -> (r: &[[u8; 4]])
    ensures
        r@.len() == bytes@.len() / 4,
        forall|i: int, j: int|
            0 <= i < r@.len() && 0 <= j < 4 ==> #[trigger] r@[i][j] == bytes@[4 * i + j],
{
    bytes.as_chunks::<4>().0
}

/// Slice `[u8; 4]`s from `lvl`, but "unaligned",
/// meaning the `[u8; 4]`s can straddle
/// adjacent `[u8; 4]`s in the `lvl` slice.
///
/// The result starts at byte `y` of the bytes of `lvl` and holds every whole
/// group of four bytes from there on.
#[verifier::spinoff_prover]
pub fn unaligned_lvl_slice(lvl: &[[u8; 4]], y: usize) -> (r: &[[u8; 4]])
    requires
        y <= 4 * lvl@.len(),
    ensures
        r@.len() == (4 * lvl@.len() - y) / 4,
        forall|i: int, j: int|
            0 <= i < r@.len() && 0 <= j < 4 ==> #[trigger] r@[i][j] == lvl@[(y + 4 * i + j) / 4][(y
                + 4 * i + j) % 4],
        r@ == unaligned_levels(lvl@, y as int),
        y % 4 == 0 ==> r@ == lvl@.subrange(y as int / 4, lvl@.len() as int),
{
    let flat = flatten_levels(lvl);
    let tail = vstd::slice::slice_subrange(flat, y, flat.len());
    let r = chunk_levels(tail);
    assert forall|i: int, j: int| 0 <= i < r@.len() && 0 <= j < 4 implies #[trigger] r@[i][j]
        == lvl@[(y + 4 * i + j) / 4][(y + 4 * i + j) % 4] by {
        assert(r@[i][j] == tail@[4 * i + j]);
        assert(tail@[4 * i + j] == flat@[y + 4 * i + j]);
    }
    if y % 4 == 0 {
        assert forall|i: int| 0 <= i < r@.len() implies #[trigger] r@[i] == lvl@[y / 4 + i] by {
            assert forall|j: int| 0 <= j < 4 implies r@[i]@[j] == lvl@[y / 4 + i]@[j] by {
                assert(r@[i][j] == lvl@[(y + 4 * i + j) / 4][(y + 4 * i + j) % 4]);
                assert((y + 4 * i + j) / 4 == y / 4 + i && (y + 4 * i + j) % 4 == j);
            }
            assert(r@[i]@ =~= lvl@[y / 4 + i]@);
        }
        assert(r@ =~= lvl@.subrange(y as int / 4, lvl@.len() as int));
    }
    assert forall|i: int| 0 <= i < r@.len() implies #[trigger] r@[i] == unaligned_levels(lvl@, y as int)[i] by {
        let a = unaligned_levels(lvl@, y as int)[i];
        assert forall|j: int| 0 <= j < 4 implies r@[i]@[j] == a@[j] by {
            assert(r@[i][j] == lvl@[(y + 4 * i + j) / 4][(y + 4 * i + j) % 4]);
        }
        assert(r@[i]@ =~= a@);
    }
    assert(r@ =~= unaligned_levels(lvl@, y as int));
    r
}

/// Byte `b` of the bytes of `s`, the arrays one after another.
pub open spec fn level_byte(s: Seq<[u8; 4]>, b: int) -> u8 {
    s[b / 4][b % 4]
}

/// The whole groups of four bytes of `s` from byte `y` on.
pub open spec fn unaligned_levels(s: Seq<[u8; 4]>, y: int) -> Seq<[u8; 4]> {
    Seq::new(
        ((4 * s.len() - y) / 4) as nat,
        |i: int|
            [
                level_byte(s, y + 4 * i),
                level_byte(s, y + 4 * i + 1),
                level_byte(s, y + 4 * i + 2),
                level_byte(s, y + 4 * i + 3),
            ],
    )
}

pub(crate) proof fn lemma_div4(k: int, x: int)
    requires
        0 <= x,
    ensures
        (4 * k + x) / 4 == k + x / 4,
        (4 * k + x) % 4 == x % 4,
{
}

/// Reading from byte `0` gives the arrays themselves.
pub proof fn lemma_unaligned_levels_from_start(s: Seq<[u8; 4]>)
    ensures
        unaligned_levels(s, 0) == s,
{
    let z = unaligned_levels(s, 0);
    assert forall|i: int| 0 <= i < s.len() implies #[trigger] z[i] == s[i] by {
        assert forall|j: int| 0 <= j < 4 implies z[i]@[j] == s[i]@[j] by {
            lemma_div4(i, j);
            assert(z[i][j] == level_byte(s, 4 * i + j));
        }
        assert(z[i]@ =~= s[i]@);
    }
    assert(z =~= s);
}

/// Reading from byte `4 * k + d` is reading from byte `d` of the arrays from
/// `k` on.
pub proof fn lemma_unaligned_levels_shift(s: Seq<[u8; 4]>, k: int, d: int)
    requires
        0 <= k <= s.len(),
        0 <= d <= 4 * (s.len() - k),
    ensures
        unaligned_levels(s, 4 * k + d) == unaligned_levels(s.subrange(k, s.len() as int), d),
{
    let t = s.subrange(k, s.len() as int);
    let a = unaligned_levels(s, 4 * k + d);
    let b = unaligned_levels(t, d);
    assert(a.len() == b.len());
    assert forall|i: int| 0 <= i < a.len() implies #[trigger] a[i] == b[i] by {
        assert forall|j: int| 0 <= j < 4 implies a[i]@[j] == b[i]@[j] by {
            lemma_div4(k, d + 4 * i + j);
            assert(a[i][j] == level_byte(s, 4 * k + (d + 4 * i + j)));
            assert(b[i][j] == level_byte(t, d + 4 * i + j));
        }
        assert(a[i]@ =~= b[i]@);
    }
    assert(a =~= b);
}

/// Reading from byte `4 * k` gives the arrays from `k` on.
pub proof fn lemma_unaligned_levels_aligned(s: Seq<[u8; 4]>, k: int)
    requires
        0 <= k <= s.len(),
    ensures
        unaligned_levels(s, 4 * k) == s.subrange(k, s.len() as int),
{
    lemma_unaligned_levels_shift(s, k, 0);
    lemma_unaligned_levels_from_start(s.subrange(k, s.len() as int));
}

/// The chroma subsampling of a picture.
#[derive(Clone, Copy, PartialEq, Eq, Structural, Debug)]
pub enum Rav1dPixelLayout {
    I400,
    I420,
    I422,
    I444,
}

/// `v >> ss` for a non-negative `v` and `ss` of `0` or `1`.
pub open spec fn shr_ss(v: int, ss: int) -> int {
    if ss == 1 { v / 2 } else { v }
}

/// The horizontal subsampling of a layout.
pub open spec fn layout_ss_hor(layout: Rav1dPixelLayout) -> int {
    if layout != Rav1dPixelLayout::I444 { 1 } else { 0 }
}

/// The vertical subsampling of a layout.
pub open spec fn layout_ss_ver(layout: Rav1dPixelLayout) -> int {
    if layout == Rav1dPixelLayout::I420 { 1 } else { 0 }
}

} // verus!
