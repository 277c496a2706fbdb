use vstd::prelude::*;
use super::backup::lemma_step_mul;
use super::edge_mask::capped_level;
use super::edge_mask::fix_uv_edge;
use super::edge_mask::fix_y_edge;
use super::edge_mask::half_width;
use super::edge_mask::uv_edge_fixed;
use super::edge_mask::uv_edge_level;
use super::edge_mask::y_edge_fixed;
use super::edge_mask::y_edge_level;
use super::edge_mask::lemma_uv_edge_fix_never_raises;
use super::edge_mask::lemma_y_edge_fix_never_raises;
use super::edge_mask::uv_bits_apart;
use super::edge_mask::uv_in_one;
use super::edge_mask::y_bits_apart;
use super::edge_mask::y_in_one;
use super::edge_mask::lemma_fix_uv_edge_idempotent;
use super::edge_mask::lemma_fix_y_edge_idempotent;
use super::edge_mask::pair_bit;
use super::edge_plan::cols_uv_edges;
use super::edge_plan::cols_y_edges;
use super::edge_plan::filter_plane_cols_uv;
use super::edge_plan::filter_plane_cols_y;
use super::edge_plan::filter_plane_rows_uv;
use super::edge_plan::filter_plane_rows_y;
use super::edge_plan::rows_uv_edges;
use super::edge_plan::rows_y_edges;
use super::edge_plan::edges_in_levels;
use super::edge_plan::row_level;
use super::edge_plan::LoopFilterEdge;
use super::layout_ss_hor;
use super::layout_ss_ver;
use super::shr_ss;
use super::Rav1dPixelLayout;

verus! {

/// The edge masks of one 128x128 area of the frame, for the two directions
/// (`0`: edges between columns, `1`: edges between rows), the 32 block rows
/// or columns, the filter levels and the two 16-bit halves; chroma masks
/// have two levels.
#[derive(Clone, Copy)]
pub struct Av1Filter {
    pub filter_y: [[[[u16; 2]; 3]; 32]; 2],
    pub filter_uv: [[[[u16; 2]; 2]; 32]; 2],
}

/// What filtering a superblock row reads of the frame: the sequence header's
/// superblock size, the picture layout, the frame size in 4-pixel blocks
/// (`bw` x `bh`, and `w4` x `h4` for the visible part), the number of
/// 128-pixel superblock columns, the level array's entries per block row,
/// the chroma filter levels, the filter levels of every 4x4 block (four
/// bytes each: two luma directions, then the two chroma planes), the tile
/// column starts (in superblocks), the transform levels along the right
/// edges of tile columns, and those along the bottom edge of the tile row
/// above, one array of 32 per superblock.
pub struct LoopFilterFrame {
    pub sb128: u8,
    pub layout: Rav1dPixelLayout,
    pub bw: i32,
    pub bh: i32,
    pub w4: i32,
    pub h4: i32,
    pub sb128w: i32,
    pub b4_stride: isize,
    pub level_u: u8,
    pub level_v: u8,
    pub level: Vec<[u8; 4]>,
    pub col_start_sb: Vec<u16>,
    pub tx_lpf_right_edge_y: Vec<u8>,
    pub tx_lpf_right_edge_uv: Vec<u8>,
    pub a_tx_lpf_y: Vec<[u8; 32]>,
    pub a_tx_lpf_uv: Vec<[u8; 32]>,
}

/// The edges that the filter visits in one superblock of a superblock row:
/// `px` is the superblock's first pixel column in its plane, `lvl` the index
/// of its first entry in the level array, `w` its width in 4-pixel blocks.
#[derive(Debug)]
pub struct SuperblockEdges {
    pub px: usize,
    pub lvl: usize,
    pub w: usize,
    pub edges: Vec<LoopFilterEdge>,
}

/// The edges that filtering a superblock row in one direction visits,
/// superblock by superblock: for luma, and for the chroma planes (both take
/// the same edges; none where the frame filters neither chroma plane).
#[derive(Debug)]
pub struct SbrowFilterPlan {
    pub luma: Vec<SuperblockEdges>,
    pub chroma: Vec<SuperblockEdges>,
}

/// Block rows of a superblock: `32` for 128-pixel superblocks, `16` for
/// 64-pixel ones.
pub open spec fn sbsz(sb128: int) -> int {
    if sb128 == 1 { 32 } else { 16 }
}

/// The first block row of superblock row `sby` inside its 128-pixel mask
/// area: the lower half for an odd row of 64-pixel superblocks.
pub open spec fn sbrow_starty4(sb128: int, sby: int) -> int {
    if sb128 == 0 && sby % 2 == 1 { 16 } else { 0 }
}

/// The block row where superblock row `sby` ends inside its mask area, for a
/// frame `h4` block rows high.
pub open spec fn sbrow_endy4(sb128: int, sby: int, h4: int) -> int {
    sbrow_starty4(sb128, sby) + if h4 - sby * sbsz(sb128) < sbsz(sb128) { h4 - sby * sbsz(sb128) } else { sbsz(sb128) }
}

/// The width in 4-pixel blocks of luma superblock `x` in a frame `w4`
/// blocks wide.
pub open spec fn sb_w4(w4: int, x: int) -> int {
    if w4 - 32 * x < 32 { w4 - 32 * x } else { 32 }
}

/// Where the level entries of superblock row `sby` start, luma.
pub open spec fn luma_level_base(f: LoopFilterFrame, sby: int) -> int {
    f.b4_stride * sby * sbsz(f.sb128 as int)
}

/// Where the level entries of superblock row `sby` start, chroma.
pub open spec fn chroma_level_base(f: LoopFilterFrame, sby: int) -> int {
    f.b4_stride * shr_ss(sby * sbsz(f.sb128 as int), layout_ss_ver(f.layout))
}

/// Level entries per chroma superblock across.
pub open spec fn chroma_sb_levels(f: LoopFilterFrame) -> int {
    shr_ss(32, layout_ss_hor(f.layout))
}

/// Whether either chroma plane is filtered.
pub open spec fn filters_chroma(f: LoopFilterFrame) -> bool {
    f.level_u != 0 || f.level_v != 0
}

/// What the frame geometry demands of superblock row `sby`, where `lflvl`
/// holds the masks of the row's superblocks: the row lies in the frame, there
/// are masks for every superblock column, the level array's indices fit, and
/// the level array holds the entries of every superblock of the row, luma
/// and, where chroma is filtered, chroma.
pub open spec fn sbrow_fits(f: LoopFilterFrame, lflvl_len: int, sby: int) -> bool {
    &&& f.sb128 <= 1
    &&& 0 <= sby
    &&& sby * sbsz(f.sb128 as int) <= f.h4
    &&& 0 <= f.sb128w <= lflvl_len
    &&& 32 * f.sb128w <= f.w4 + 31
    &&& f.w4 <= i32::MAX - 32
    &&& 0 <= f.b4_stride
    &&& f.b4_stride * (sby + 1) * 32 + 128 * f.sb128w <= isize::MAX
    &&& luma_level_base(f, sby) + 32 * f.sb128w <= f.level@.len()
    &&& filters_chroma(f) ==> chroma_level_base(f, sby) + chroma_sb_levels(f) * f.sb128w <= f.level@.len()
}

/// The level entry that the filter of block row `i` (counted from the
/// superblock row's first) of luma superblock `x` starts from.
pub open spec fn luma_row_level(f: LoopFilterFrame, sby: int, x: int, i: int) -> int {
    luma_level_base(f, sby) + 32 * x + row_level(i, f.b4_stride as int)
}

/// The level entry that the filter of block row `i` of chroma superblock `x`
/// starts from.
pub open spec fn chroma_row_level(f: LoopFilterFrame, sby: int, x: int, i: int) -> int {
    chroma_level_base(f, sby) + chroma_sb_levels(f) * x + row_level(i, f.b4_stride as int)
}

/// The level array holds an entry for every block row that filtering
/// superblock row `sby` between block rows visits (all but the frame's top
/// row), luma and, where chroma is filtered, chroma.
pub open spec fn rows_levels_fit(f: LoopFilterFrame, sby: int) -> bool {
    let (ys, ye, uvs, uve) = sbrow_rows_in_area(f, sby);
    let first: int = if sby == 0 { 1 } else { 0 };
    &&& forall|x: int, i: int|
        0 <= x < f.sb128w && first <= i < ye - ys ==> #[trigger] luma_row_level(f, sby, x, i) < f.level@.len()
    &&& filters_chroma(f) ==> forall|x: int, i: int|
        0 <= x < f.sb128w && first <= i < uve - uvs ==> #[trigger] chroma_row_level(f, sby, x, i) < f.level@.len()
}

/// The luma rows `ys..ye` and chroma rows `uvs..uve` of superblock row `sby`
/// inside its mask area, computed.
fn sbrow_rows(f: &LoopFilterFrame, sby: i32) -> (r: (i32, i32, i32, i32))
    requires
        f.sb128 <= 1,
        0 <= sby,
        sby * sbsz(f.sb128 as int) <= f.h4,
    ensures
        (r.0 as int, r.1 as int, r.2 as int, r.3 as int) == sbrow_rows_in_area(*f, sby as int),
        0 <= r.0 <= r.1 <= 32,
        0 <= r.2 <= r.3 <= 32,
        r.0 < 32,
        r.2 < 32,
{
    let sbsz_: i32 = if f.sb128 == 1 { 32 } else { 16 };
    let h4 = f.h4;
    assert(0 <= sby * sbsz_ <= h4) by (nonlinear_arith)
        requires
            0 <= sby,
            sbsz_ == 16 || sbsz_ == 32,
            sby * sbsz_ <= h4,
    ;
    let starty4: i32 = if f.sb128 == 0 && sby % 2 == 1 { 16 } else { 0 };
    let rest: i32 = h4 - sby * sbsz_;
    let endy4: i32 = starty4 + if rest < sbsz_ { rest } else { sbsz_ };
    let ss_ver: i32 = if f.layout == Rav1dPixelLayout::I420 { 1 } else { 0 };
    let uv_starty4: i32 = if ss_ver == 1 { starty4 / 2 } else { starty4 };
    let uv_endy4: i32 = if ss_ver == 1 { (endy4 + 1) / 2 } else { endy4 };
    (starty4, endy4, uv_starty4, uv_endy4)
}

/// Luma superblock `x` of a superblock row filtered between block rows.
pub open spec fn rows_luma_ok(e: SuperblockEdges, x: int, f: LoopFilterFrame, lflvl: Seq<Av1Filter>, sby: int) -> bool {
    let sb128 = f.sb128 as int;
    &&& e.px == 128 * x
    &&& e.lvl == luma_level_base(f, sby) + 32 * x
    &&& e.w == sb_w4(f.w4 as int, x)
    &&& rows_y_edges(
        e.edges@,
        sby > 0,
        f.b4_stride as int,
        lflvl[x].filter_y[1],
        sbrow_starty4(sb128, sby),
        sbrow_endy4(sb128, sby, f.h4 as int),
    )
    &&& edges_in_levels(e.edges@, f.level@.len() - e.lvl, 0)
}

/// Chroma superblock `x` of a superblock row filtered between block rows.
pub open spec fn rows_chroma_ok(e: SuperblockEdges, x: int, f: LoopFilterFrame, lflvl: Seq<Av1Filter>, sby: int) -> bool {
    let sb128 = f.sb128 as int;
    let ss_ver = layout_ss_ver(f.layout);
    let ss_hor = layout_ss_hor(f.layout);
    &&& e.px == shr_ss(128 * x, ss_hor)
    &&& e.lvl == chroma_level_base(f, sby) + chroma_sb_levels(f) * x
    &&& e.w == shr_ss(sb_w4(f.w4 as int, x) + ss_hor, ss_hor)
    &&& rows_uv_edges(
        e.edges@,
        sby > 0,
        f.b4_stride as int,
        lflvl[x].filter_uv[1],
        shr_ss(sbrow_starty4(sb128, sby), ss_ver),
        shr_ss(sbrow_endy4(sb128, sby, f.h4 as int) + ss_ver, ss_ver),
        ss_hor,
    )
    &&& edges_in_levels(e.edges@, f.level@.len() - e.lvl, 1)
}

proof fn lemma_sb_index_bounds(b4_stride: int, sby: int, sbsz: int, sb128w: int, x: int)
    by (nonlinear_arith)
    requires
        0 <= b4_stride,
        0 <= sby,
        0 < sbsz <= 32,
        0 <= x < sb128w,
        b4_stride * (sby + 1) * 32 + 128 * sb128w <= isize::MAX,
    ensures
        0 <= b4_stride * sby * sbsz,
        b4_stride * sby * sbsz + 32 * x + 32 <= isize::MAX,
        128 * x + 128 <= isize::MAX,
{
}

proof fn lemma_level_base_bounds(b4_stride: int, sby: int, sbsz: int)
    by (nonlinear_arith)
    requires
        0 <= b4_stride,
        0 <= sby,
        0 < sbsz <= 32,
    ensures
        0 <= b4_stride * sby <= b4_stride * sby * sbsz,
        b4_stride * sby * sbsz <= b4_stride * (sby + 1) * 32,
{
}

/// Plans the filtering between block rows of superblock row `sby` of frame
/// `f`, whose superblocks' masks `lflvl` holds: the row edges of each luma
/// superblock, then, where either chroma plane has a filter level, those of
/// each chroma superblock, each edge with the level entry its filter reads.
#[verifier::spinoff_prover]
#[verifier::rlimit(30)]
pub fn rav1d_loopfilter_sbrow_rows(f: &LoopFilterFrame, lflvl: &[Av1Filter], sby: i32) -> (plan: SbrowFilterPlan)
    requires
        sbrow_fits(*f, lflvl@.len() as int, sby as int),
        rows_levels_fit(*f, sby as int),
    ensures
        plan.luma@.len() == f.sb128w,
        forall|x: int| 0 <= x < f.sb128w ==> #[trigger] rows_luma_ok(plan.luma@[x], x, *f, lflvl@, sby as int),
        plan.chroma@.len() == if filters_chroma(*f) { f.sb128w as int } else { 0 },
        forall|x: int| 0 <= x < plan.chroma@.len() ==> #[trigger] rows_chroma_ok(plan.chroma@[x], x, *f, lflvl@, sby as int),
{
    let sb128 = f.sb128;
    let w4 = f.w4;
    let b4_stride = f.b4_stride;
    let have_top = sby > 0;
    let sbsz_: i32 = if sb128 == 1 { 32 } else { 16 };
    let ss_ver: i32 = if f.layout == Rav1dPixelLayout::I420 { 1 } else { 0 };
    let ss_hor: i32 = if f.layout != Rav1dPixelLayout::I444 { 1 } else { 0 };
    let (starty4, endy4, uv_starty4, uv_endy4) = sbrow_rows(f, sby);
    let level = f.level.as_slice();
    let n: usize = f.sb128w as usize;
    proof {
        lemma_level_base_bounds(b4_stride as int, sby as int, sbsz_ as int);
    }
    let base: usize = (b4_stride * (sby as isize) * (sbsz_ as isize)) as usize;
    let mut luma: Vec<SuperblockEdges> = Vec::new();
    let mut x: usize = 0;
    while x < n
        invariant
            sbrow_fits(*f, lflvl@.len() as int, sby as int),
            rows_levels_fit(*f, sby as int),
            n == f.sb128w,
            sb128 == f.sb128,
            w4 == f.w4,
            b4_stride == f.b4_stride,
            level@ == f.level@,
            sbsz_ == sbsz(sb128 as int),
            base == luma_level_base(*f, sby as int),
            have_top == (sby > 0),
            (starty4 as int, endy4 as int, uv_starty4 as int, uv_endy4 as int) == sbrow_rows_in_area(*f, sby as int),
            0 <= starty4 <= endy4 <= 32,
            x <= n,
            luma@.len() == x,
            forall|k: int| 0 <= k < x ==> #[trigger] rows_luma_ok(luma@[k], k, *f, lflvl@, sby as int),
        decreases n - x,
    {
        proof {
            lemma_sb_index_bounds(b4_stride as int, sby as int, sbsz_ as int, n as int, x as int);
        }
        let left: i32 = w4 - (x as i32) * 32;
        let w: i32 = if left < 32 { left } else { 32 };
        let lvl: usize = base + 32 * x;
        let sb_level = vstd::slice::slice_subrange(level, lvl, level.len());
        assert forall|i: int|
            (if !have_top && starty4 == 0 { 1int } else { 0int }) <= i < endy4 - starty4 implies #[trigger] row_level(
                i,
                b4_stride as int,
            ) < sb_level@.len() by {
            assert(luma_row_level(*f, sby as int, x as int, i) < f.level@.len());
        }
        let edges = filter_plane_rows_y(have_top, sb_level, b4_stride as usize, &lflvl[x].filter_y[1], starty4 as usize, endy4 as usize);
        luma.push(SuperblockEdges { px: 128 * x, lvl, w: w as usize, edges });
        assert(rows_luma_ok(luma@[x as int], x as int, *f, lflvl@, sby as int));
        x = x + 1;
    }
    let mut chroma: Vec<SuperblockEdges> = Vec::new();
    if f.level_u == 0 && f.level_v == 0 {
        return SbrowFilterPlan { luma, chroma };
    }
    let rows_uv: isize = if ss_ver == 1 { (sby as isize) * (sbsz_ as isize) / 2 } else { (sby as isize) * (sbsz_ as isize) };
    assert(0 <= b4_stride * rows_uv <= b4_stride * sby * sbsz_) by (nonlinear_arith)
        requires
            0 <= b4_stride,
            0 <= rows_uv <= sby * sbsz_,
    ;
    let base_uv: usize = (b4_stride * rows_uv) as usize;
    let step: usize = if ss_hor == 1 { 16 } else { 32 };
    let mut x: usize = 0;
    while x < n
        invariant
            sbrow_fits(*f, lflvl@.len() as int, sby as int),
            rows_levels_fit(*f, sby as int),
            filters_chroma(*f),
            n == f.sb128w,
            sb128 == f.sb128,
            w4 == f.w4,
            b4_stride == f.b4_stride,
            level@ == f.level@,
            sbsz_ == sbsz(sb128 as int),
            base_uv == chroma_level_base(*f, sby as int),
            step == chroma_sb_levels(*f),
            have_top == (sby > 0),
            ss_ver == layout_ss_ver(f.layout),
            ss_hor == layout_ss_hor(f.layout),
            (starty4 as int, endy4 as int, uv_starty4 as int, uv_endy4 as int) == sbrow_rows_in_area(*f, sby as int),
            0 <= uv_starty4 <= uv_endy4 <= 32,
            x <= n,
            chroma@.len() == x,
            forall|k: int| 0 <= k < x ==> #[trigger] rows_chroma_ok(chroma@[k], k, *f, lflvl@, sby as int),
        decreases n - x,
    {
        proof {
            lemma_sb_index_bounds(b4_stride as int, sby as int, sbsz_ as int, n as int, x as int);
        }
        let left: i32 = w4 - (x as i32) * 32;
        let w: i32 = if left < 32 { left } else { 32 };
        let w_uv: i32 = if ss_hor == 1 { (w + 1) / 2 } else { w };
        assert(step * x + step <= step * n) by (nonlinear_arith)
            requires
                x < n,
                0 <= step,
        ;
        assert(step * n == chroma_sb_levels(*f) * f.sb128w);
        let total: usize = level.len();
        let lvl: usize = base_uv + step * x;
        let sb_level = vstd::slice::slice_subrange(level, lvl, total);
        assert forall|i: int|
            (if !have_top && uv_starty4 == 0 { 1int } else { 0int }) <= i < uv_endy4 - uv_starty4 implies #[trigger] row_level(
                i,
                b4_stride as int,
            ) < sb_level@.len() by {
            assert(chroma_row_level(*f, sby as int, x as int, i) < f.level@.len());
        }
        let px: usize = if ss_hor == 1 { 128 * x / 2 } else { 128 * x };
        let edges = filter_plane_rows_uv(
            have_top,
            sb_level,
            b4_stride as usize,
            &lflvl[x].filter_uv[1],
            uv_starty4 as usize,
            uv_endy4 as usize,
            ss_hor,
        );
        chroma.push(SuperblockEdges { px, lvl, w: w_uv as usize, edges });
        assert(rows_chroma_ok(chroma@[x as int], x as int, *f, lflvl@, sby as int));
        x = x + 1;
    }
    SbrowFilterPlan { luma, chroma }
}

/// `new` holds the same masks as `old` everywhere but at the luma position
/// `(dir, ypos)` and the chroma position `(dir, uvpos)`.
pub open spec fn filter_same_except(old: Av1Filter, new: Av1Filter, dir: int, ypos: int, uvpos: int) -> bool {
    &&& forall|d: int, p: int|
        0 <= d < 2 && 0 <= p < 32 && !(d == dir && p == ypos) ==> #[trigger] new.filter_y[d][p] == old.filter_y[d][p]
    &&& forall|d: int, p: int|
        0 <= d < 2 && 0 <= p < 32 && !(d == dir && p == uvpos) ==> #[trigger] new.filter_uv[d][p] == old.filter_uv[d][p]
}

/// Fixes the edge masks of superblock `x` where a boundary crosses it: the
/// luma bits `y_start..y_end` of `filter_y[dir][ypos]` with the levels `lpf_y`
/// allows (from `y_start` on), and, for a picture with chroma, the chroma
/// bits `uv_start..uv_end` of `filter_uv[dir][uvpos]` with `lpf_uv`, for
/// halves of `16 >> ss` bits.
fn fix_boundary(
    lflvl: &mut [Av1Filter],
    x: usize,
    dir: usize,
    ypos: usize,
    y_start: u32,
    y_end: u32,
    lpf_y: &[u8],
    chroma: bool,
    uvpos: usize,
    uv_start: u32,
    uv_end: u32,
    lpf_uv: &[u8],
    ss: i32,
)
    requires
        x < old(lflvl)@.len(),
        dir < 2,
        ypos < 32,
        uvpos < 32,
        0 <= ss <= 1,
        y_start <= y_end <= 32,
        y_end - y_start <= lpf_y@.len(),
        forall|b: int|
            y_start <= b < y_end ==> capped_level(y_edge_level(old(lflvl)@[x as int].filter_y[dir as int][ypos as int], b), #[trigger] lpf_y@[b - y_start]) < 3,
        chroma ==> uv_start <= uv_end <= 2 * half_width(ss as int),
        chroma ==> uv_end - uv_start <= lpf_uv@.len(),
        chroma ==> forall|b: int|
            uv_start <= b < uv_end ==> capped_level(
                uv_edge_level(old(lflvl)@[x as int].filter_uv[dir as int][uvpos as int], b, half_width(ss as int)),
                #[trigger] lpf_uv@[b - uv_start],
            ) < 2,
    ensures
        final(lflvl)@.len() == old(lflvl)@.len(),
        forall|i: int| 0 <= i < old(lflvl)@.len() && i != x ==> #[trigger] final(lflvl)@[i] == old(lflvl)@[i],
        filter_same_except(old(lflvl)@[x as int], final(lflvl)@[x as int], dir as int, ypos as int, if chroma { uvpos as int } else { -1 }),
        y_edge_fixed(
            old(lflvl)@[x as int].filter_y[dir as int][ypos as int],
            final(lflvl)@[x as int].filter_y[dir as int][ypos as int],
            y_start as int,
            y_end as int,
            lpf_y@,
        ),
        chroma ==> uv_edge_fixed(
            old(lflvl)@[x as int].filter_uv[dir as int][uvpos as int],
            final(lflvl)@[x as int].filter_uv[dir as int][uvpos as int],
            uv_start as int,
            uv_end as int,
            lpf_uv@,
            half_width(ss as int),
        ),
{
    let mut e = lflvl[x];
    let fixed_y = fix_y_edge(e.filter_y[dir][ypos], y_start, y_end, lpf_y);
    e.filter_y[dir][ypos] = fixed_y;
    if chroma {
        let fixed_uv = fix_uv_edge(e.filter_uv[dir][uvpos], uv_start, uv_end, lpf_uv, ss);
        e.filter_uv[dir][uvpos] = fixed_uv;
    }
    lflvl[x] = e;
}

/// The mask area (luma superblock column) that tile column start `c`, in
/// superblocks, falls in.
pub open spec fn tile_x(c: int, sb128: int) -> int {
    if sb128 == 1 { c } else { c / 2 }
}

/// The block column inside its mask area at which tile column start `c` lies.
pub open spec fn tile_bx4(c: int, sb128: int) -> int {
    if sb128 == 0 && c % 2 == 1 { 16 } else { 0 }
}

/// The first tile column, from `t` on, that starts at or right of block
/// column `bw` (or the end of the list).
pub open spec fn tile_cols_end(cols: Seq<u16>, t: int, sb128: int, bw: int) -> int
    decreases cols.len() - t,
{
    if t >= cols.len() || cols[t] * sbsz(sb128) >= bw {
        t
    } else {
        tile_cols_end(cols, t + 1, sb128, bw)
    }
}

/// `bh` rounded up to a multiple of 32.
pub open spec fn halign(bh: int) -> int {
    (bh + 31) / 32 * 32
}

/// Where the right-edge transform levels of tile column `t` start for
/// superblock row `sby`, luma.
pub open spec fn lpf_y_idx(f: LoopFilterFrame, sby: int, t: int) -> int {
    sby * sbsz(f.sb128 as int) + (t - 1) * halign(f.bh as int)
}

/// Where the right-edge transform levels of tile column `t` start for
/// superblock row `sby`, chroma.
pub open spec fn lpf_uv_idx(f: LoopFilterFrame, sby: int, t: int) -> int {
    let ss_ver = layout_ss_ver(f.layout);
    shr_ss(sby * sbsz(f.sb128 as int), ss_ver) + (t - 1) * shr_ss(halign(f.bh as int), ss_ver)
}

/// The number that ends the tile columns of frame `f`.
pub open spec fn tiles_end(f: LoopFilterFrame) -> int {
    tile_cols_end(f.col_start_sb@, 1, f.sb128 as int, f.bw as int)
}

/// Whether the luma mask at block column `p` of mask area `i` lies on one of
/// the first tile column boundaries `1..n`.
#[verifier::opaque]
pub open spec fn on_tile_col_y(f: LoopFilterFrame, n: int, i: int, p: int) -> bool {
    exists|t: int|
        1 <= t < n && tile_x(#[trigger] f.col_start_sb@[t] as int, f.sb128 as int) == i && tile_bx4(
            f.col_start_sb@[t] as int,
            f.sb128 as int,
        ) == p
}

/// Whether the chroma mask at block column `p` of mask area `i` lies on one
/// of the first tile column boundaries `1..n`.
#[verifier::opaque]
pub open spec fn on_tile_col_uv(f: LoopFilterFrame, n: int, i: int, p: int) -> bool {
    exists|t: int|
        1 <= t < n && tile_x(#[trigger] f.col_start_sb@[t] as int, f.sb128 as int) == i && shr_ss(
            tile_bx4(f.col_start_sb@[t] as int, f.sb128 as int),
            layout_ss_hor(f.layout),
        ) == p
}

/// The luma rows `ys..ye` and chroma rows `uvs..uve` of superblock row `sby`
/// inside its mask area.
pub open spec fn sbrow_rows_in_area(f: LoopFilterFrame, sby: int) -> (int, int, int, int) {
    let ys = sbrow_starty4(f.sb128 as int, sby);
    let ye = sbrow_endy4(f.sb128 as int, sby, f.h4 as int);
    let ss_ver = layout_ss_ver(f.layout);
    (ys, ye, shr_ss(ys, ss_ver), shr_ss(ye + ss_ver, ss_ver))
}

/// Every level that fixing the boundary of tile column `t` would move an
/// edge bit to exists.
pub open spec fn tile_col_fixable(f: LoopFilterFrame, old: Seq<Av1Filter>, sby: int, t: int) -> bool {
    let c = f.col_start_sb@[t] as int;
    let x = tile_x(c, f.sb128 as int);
    let bx4 = tile_bx4(c, f.sb128 as int);
    let (ys, ye, uvs, uve) = sbrow_rows_in_area(f, sby);
    let yi = lpf_y_idx(f, sby, t);
    let ui = lpf_uv_idx(f, sby, t);
    &&& forall|b: int|
        ys <= b < ye ==> capped_level(y_edge_level(old[x].filter_y[0][bx4], b), #[trigger] f.tx_lpf_right_edge_y@[yi + b - ys]) < 3
    &&& f.layout != Rav1dPixelLayout::I400 ==> forall|b: int|
        uvs <= b < uve ==> capped_level(
            uv_edge_level(old[x].filter_uv[0][shr_ss(bx4, layout_ss_hor(f.layout))], b, half_width(layout_ss_ver(f.layout))),
            #[trigger] f.tx_lpf_right_edge_uv@[ui + b - uvs],
        ) < 2
}

/// The masks on the boundary of tile column `t` in `new` are those of `old`
/// fixed with the transform levels along that boundary.
pub open spec fn tile_col_fixed(f: LoopFilterFrame, old: Seq<Av1Filter>, new: Seq<Av1Filter>, sby: int, t: int) -> bool {
    let c = f.col_start_sb@[t] as int;
    let x = tile_x(c, f.sb128 as int);
    let bx4 = tile_bx4(c, f.sb128 as int);
    let cbx4 = shr_ss(bx4, layout_ss_hor(f.layout));
    let (ys, ye, uvs, uve) = sbrow_rows_in_area(f, sby);
    let yi = lpf_y_idx(f, sby, t);
    let ui = lpf_uv_idx(f, sby, t);
    &&& y_edge_fixed(old[x].filter_y[0][bx4], new[x].filter_y[0][bx4], ys, ye, f.tx_lpf_right_edge_y@.subrange(yi, yi + ye - ys))
    &&& f.layout != Rav1dPixelLayout::I400 ==> uv_edge_fixed(
        old[x].filter_uv[0][cbx4],
        new[x].filter_uv[0][cbx4],
        uvs,
        uve,
        f.tx_lpf_right_edge_uv@.subrange(ui, ui + uve - uvs),
        half_width(layout_ss_ver(f.layout)),
    )
}

/// What fixing the tile column boundaries of superblock row `sby` demands:
/// the mask area of every boundary inside the frame is one of `old`'s, the
/// transform levels along each boundary are there, and the levels they move
/// edge bits to exist. It also asks that no tile column start repeats up to
/// the first one past the frame: the tiling of an AV1 frame guarantees that
/// (its starts rise), and with it no mask lies on two boundaries, so each
/// boundary's fix is stated against the masks as they were.
pub open spec fn tile_cols_fit(f: LoopFilterFrame, old: Seq<Av1Filter>, sby: int) -> bool {
    let (ys, ye, uvs, uve) = sbrow_rows_in_area(f, sby);
    &&& sbrow_fits(f, old.len() as int, sby)
    &&& 0 <= f.bh <= i32::MAX - 31
    &&& 0 <= f.bw
    &&& tiles_end(f) < f.col_start_sb@.len()
    &&& forall|t: int| 1 <= t < tiles_end(f) ==> #[trigger] tile_x(f.col_start_sb@[t] as int, f.sb128 as int) < old.len()
    &&& forall|t1: int, t2: int|
        1 <= t1 < t2 < tiles_end(f) ==> #[trigger] f.col_start_sb@[t1] != #[trigger] f.col_start_sb@[t2]
    &&& forall|t: int| 1 <= t < tiles_end(f) ==> #[trigger] lpf_y_idx(f, sby, t) + (ye - ys) <= f.tx_lpf_right_edge_y@.len()
    &&& f.layout != Rav1dPixelLayout::I400 ==> forall|t: int|
        1 <= t < tiles_end(f) ==> #[trigger] lpf_uv_idx(f, sby, t) + (uve - uvs) <= f.tx_lpf_right_edge_uv@.len()
    &&& forall|t: int| 1 <= t < tiles_end(f) ==> #[trigger] tile_col_fixable(f, old, sby, t)
}

/// Taking in tile column boundary `t` adds its position to those already on
/// a boundary.
proof fn lemma_on_tile_col_step(f: LoopFilterFrame, t: int, i: int, p: int)
    requires
        1 <= t,
    ensures
        on_tile_col_y(f, t + 1, i, p) == (on_tile_col_y(f, t, i, p) || (tile_x(f.col_start_sb@[t] as int, f.sb128 as int) == i
            && tile_bx4(f.col_start_sb@[t] as int, f.sb128 as int) == p)),
        on_tile_col_uv(f, t + 1, i, p) == (on_tile_col_uv(f, t, i, p) || (tile_x(f.col_start_sb@[t] as int, f.sb128 as int) == i
            && shr_ss(tile_bx4(f.col_start_sb@[t] as int, f.sb128 as int), layout_ss_hor(f.layout)) == p)),
{
    reveal(on_tile_col_y);
    reveal(on_tile_col_uv);
    if on_tile_col_y(f, t + 1, i, p) {
        let w = choose|w: int|
            1 <= w < t + 1 && tile_x(#[trigger] f.col_start_sb@[w] as int, f.sb128 as int) == i && tile_bx4(
                f.col_start_sb@[w] as int,
                f.sb128 as int,
            ) == p;
        if w < t {
            assert(on_tile_col_y(f, t, i, p));
        }
    }
    if on_tile_col_y(f, t, i, p) {
        let w = choose|w: int|
            1 <= w < t && tile_x(#[trigger] f.col_start_sb@[w] as int, f.sb128 as int) == i && tile_bx4(
                f.col_start_sb@[w] as int,
                f.sb128 as int,
            ) == p;
        assert(on_tile_col_y(f, t + 1, i, p));
    }
    if tile_x(f.col_start_sb@[t] as int, f.sb128 as int) == i && tile_bx4(f.col_start_sb@[t] as int, f.sb128 as int) == p {
        assert(on_tile_col_y(f, t + 1, i, p));
    }
    if on_tile_col_uv(f, t + 1, i, p) {
        let w = choose|w: int|
            1 <= w < t + 1 && tile_x(#[trigger] f.col_start_sb@[w] as int, f.sb128 as int) == i && shr_ss(
                tile_bx4(f.col_start_sb@[w] as int, f.sb128 as int),
                layout_ss_hor(f.layout),
            ) == p;
        if w < t {
            assert(on_tile_col_uv(f, t, i, p));
        }
    }
    if on_tile_col_uv(f, t, i, p) {
        let w = choose|w: int|
            1 <= w < t && tile_x(#[trigger] f.col_start_sb@[w] as int, f.sb128 as int) == i && shr_ss(
                tile_bx4(f.col_start_sb@[w] as int, f.sb128 as int),
                layout_ss_hor(f.layout),
            ) == p;
        assert(on_tile_col_uv(f, t + 1, i, p));
    }
    if tile_x(f.col_start_sb@[t] as int, f.sb128 as int) == i && shr_ss(tile_bx4(f.col_start_sb@[t] as int, f.sb128 as int), layout_ss_hor(f.layout)) == p {
        assert(on_tile_col_uv(f, t + 1, i, p));
    }
}

proof fn lemma_tile_pos_injective(c1: int, c2: int, sb128: int, ss_hor: int)
    requires
        0 <= c1,
        0 <= c2,
        c1 != c2,
        0 <= sb128 <= 1,
        0 <= ss_hor <= 1,
    ensures
        tile_x(c1, sb128) != tile_x(c2, sb128) || tile_bx4(c1, sb128) != tile_bx4(c2, sb128),
        tile_x(c1, sb128) != tile_x(c2, sb128) || shr_ss(tile_bx4(c1, sb128), ss_hor) != shr_ss(tile_bx4(c2, sb128), ss_hor),
{
    assert(c1 == 2 * (c1 / 2) + c1 % 2);
    assert(c2 == 2 * (c2 / 2) + c2 % 2);
}

proof fn lemma_tile_cols_end_bounds(cols: Seq<u16>, t: int, sb128: int, bw: int)
    ensures
        tile_cols_end(cols, t, sb128, bw) >= t,
        t < cols.len() && cols[t] * sbsz(sb128) < bw ==> tile_cols_end(cols, t, sb128, bw) > t,
    decreases cols.len() - t,
{
    if t < cols.len() && cols[t] * sbsz(sb128) < bw {
        lemma_tile_cols_end_bounds(cols, t + 1, sb128, bw);
    }
}

/// The mask area of every tile column boundary inside the frame is one of
/// the superblock row's.
proof fn lemma_tile_x_in_row(f: LoopFilterFrame, len: int, t: int)
    requires
        1 <= t < tiles_end(f),
        f.sb128 <= 1,
        forall|t2: int| 1 <= t2 < tiles_end(f) ==> #[trigger] tile_x(f.col_start_sb@[t2] as int, f.sb128 as int) < len,
    ensures
        0 <= tile_x(f.col_start_sb@[t] as int, f.sb128 as int) < len,
{
    assert(tile_x(f.col_start_sb@[t] as int, f.sb128 as int) < len);
}

proof fn lemma_lpf_idx_step(f: LoopFilterFrame, sby: int, t: int)
    ensures
        lpf_y_idx(f, sby, t) == lpf_y_idx(f, sby, t - 1) + halign(f.bh as int),
        lpf_uv_idx(f, sby, t) == lpf_uv_idx(f, sby, t - 1) + shr_ss(halign(f.bh as int), layout_ss_ver(f.layout)),
{
    lemma_step_mul(t - 2, halign(f.bh as int));
    lemma_step_mul(t - 2, shr_ss(halign(f.bh as int), layout_ss_ver(f.layout)));
    assert(t - 1 - 1 == t - 2);
}

/// How far fixing the tile column boundaries has come: `cur` is `orig` with
/// the boundaries `1..t` fixed and every other mask unchanged.
#[verifier::opaque]
pub open spec fn tile_cols_progress(f: LoopFilterFrame, orig: Seq<Av1Filter>, cur: Seq<Av1Filter>, sby: int, t: int) -> bool {
    &&& cur.len() == orig.len()
    &&& forall|t2: int| 1 <= t2 < t ==> #[trigger] tile_col_fixed(f, orig, cur, sby, t2)
    &&& forall|i: int, p: int|
        0 <= i < orig.len() && 0 <= p < 32 && !on_tile_col_y(f, t, i, p) ==> #[trigger] cur[i].filter_y[0][p] == orig[i].filter_y[0][p]
    &&& forall|i: int, p: int|
        0 <= i < orig.len() && 0 <= p < 32 && !(f.layout != Rav1dPixelLayout::I400 && on_tile_col_uv(f, t, i, p)) ==> #[trigger] cur[i].filter_uv[0][p]
            == orig[i].filter_uv[0][p]
    &&& forall|i: int, p: int| 0 <= i < orig.len() && 0 <= p < 32 ==> #[trigger] cur[i].filter_y[1][p] == orig[i].filter_y[1][p]
    &&& forall|i: int, p: int| 0 <= i < orig.len() && 0 <= p < 32 ==> #[trigger] cur[i].filter_uv[1][p] == orig[i].filter_uv[1][p]
}

/// `new` is `cur` with the boundary of tile column `t` fixed and every other
/// mask unchanged.
pub open spec fn tile_col_step(f: LoopFilterFrame, cur: Seq<Av1Filter>, new: Seq<Av1Filter>, sby: int, t: int) -> bool {
    let c = f.col_start_sb@[t] as int;
    let x = tile_x(c, f.sb128 as int);
    let bx4 = tile_bx4(c, f.sb128 as int);
    let cbx4 = shr_ss(bx4, layout_ss_hor(f.layout));
    let (ys, ye, uvs, uve) = sbrow_rows_in_area(f, sby);
    let yi = lpf_y_idx(f, sby, t);
    let ui = lpf_uv_idx(f, sby, t);
    &&& new.len() == cur.len()
    &&& forall|i: int| 0 <= i < cur.len() && i != x ==> #[trigger] new[i] == cur[i]
    &&& filter_same_except(cur[x], new[x], 0, bx4, if f.layout != Rav1dPixelLayout::I400 { cbx4 } else { -1 })
    &&& y_edge_fixed(cur[x].filter_y[0][bx4], new[x].filter_y[0][bx4], ys, ye, f.tx_lpf_right_edge_y@.subrange(yi, yi + ye - ys))
    &&& f.layout != Rav1dPixelLayout::I400 ==> uv_edge_fixed(
        cur[x].filter_uv[0][cbx4],
        new[x].filter_uv[0][cbx4],
        uvs,
        uve,
        f.tx_lpf_right_edge_uv@.subrange(ui, ui + uve - uvs),
        half_width(layout_ss_ver(f.layout)),
    )
}

/// Before boundary `t` is fixed, its masks are still those the row started with.
#[verifier::spinoff_prover]
proof fn lemma_tile_col_untouched(f: LoopFilterFrame, orig: Seq<Av1Filter>, cur: Seq<Av1Filter>, sby: int, t: int)
    requires
        tile_cols_fit(f, orig, sby),
        1 <= t < tiles_end(f),
        tile_cols_progress(f, orig, cur, sby, t),
    ensures
        ({
            let c = f.col_start_sb@[t] as int;
            let x = tile_x(c, f.sb128 as int);
            let bx4 = tile_bx4(c, f.sb128 as int);
            let cbx4 = shr_ss(bx4, layout_ss_hor(f.layout));
            &&& 0 <= x < orig.len()
            &&& cur.len() == orig.len()
            &&& cur[x].filter_y[0][bx4] == orig[x].filter_y[0][bx4]
            &&& f.layout != Rav1dPixelLayout::I400 ==> cur[x].filter_uv[0][cbx4] == orig[x].filter_uv[0][cbx4]
        }),
{
    reveal(tile_cols_progress);
    let c = f.col_start_sb@[t] as int;
    let x = tile_x(c, f.sb128 as int);
    let bx4 = tile_bx4(c, f.sb128 as int);
    let ss_hor = layout_ss_hor(f.layout);
    let cbx4 = shr_ss(bx4, ss_hor);
    lemma_tile_x_in_row(f, orig.len() as int, t);
    assert forall|t2: int| 1 <= t2 < t implies #[trigger] f.col_start_sb@[t2] != c && (tile_x(
        f.col_start_sb@[t2] as int,
        f.sb128 as int,
    ) != x || tile_bx4(f.col_start_sb@[t2] as int, f.sb128 as int) != bx4) && (tile_x(
        f.col_start_sb@[t2] as int,
        f.sb128 as int,
    ) != x || shr_ss(tile_bx4(f.col_start_sb@[t2] as int, f.sb128 as int), ss_hor) != cbx4) by {
        assert(f.col_start_sb@[t2] != f.col_start_sb@[t]);
        lemma_tile_pos_injective(f.col_start_sb@[t2] as int, c, f.sb128 as int, ss_hor);
    }
    assert(!on_tile_col_y(f, t, x, bx4)) by {
        reveal(on_tile_col_y);
    }
    assert(!on_tile_col_uv(f, t, x, cbx4)) by {
        reveal(on_tile_col_uv);
    }
    assert(0 <= bx4 < 32 && 0 <= cbx4 < 32);
}

/// Fixing boundary `t` keeps the earlier fixes and adds its own.
#[verifier::spinoff_prover]
#[verifier::rlimit(40)]
proof fn lemma_tile_col_progress(f: LoopFilterFrame, orig: Seq<Av1Filter>, cur: Seq<Av1Filter>, new: Seq<Av1Filter>, sby: int, t: int)
    requires
        tile_cols_fit(f, orig, sby),
        1 <= t < tiles_end(f),
        tile_cols_progress(f, orig, cur, sby, t),
        tile_col_step(f, cur, new, sby, t),
    ensures
        tile_cols_progress(f, orig, new, sby, t + 1),
{
    lemma_tile_col_untouched(f, orig, cur, sby, t);
    reveal(tile_cols_progress);
    let chroma = f.layout != Rav1dPixelLayout::I400;
    let ss_hor = layout_ss_hor(f.layout);
    let c = f.col_start_sb@[t] as int;
    let x = tile_x(c, f.sb128 as int);
    let bx4 = tile_bx4(c, f.sb128 as int);
    let cbx4 = shr_ss(bx4, ss_hor);
    assert(0 <= bx4 < 32 && 0 <= cbx4 < 32);
    assert(tile_col_fixed(f, orig, new, sby, t));
    assert forall|t2: int| 1 <= t2 < t + 1 implies #[trigger] tile_col_fixed(f, orig, new, sby, t2) by {
        if t2 < t {
            assert(tile_col_fixed(f, orig, cur, sby, t2));
            let c2 = f.col_start_sb@[t2] as int;
            let x2 = tile_x(c2, f.sb128 as int);
            let b2 = tile_bx4(c2, f.sb128 as int);
            let cb2 = shr_ss(b2, ss_hor);
            assert(f.col_start_sb@[t2] != f.col_start_sb@[t]);
            lemma_tile_pos_injective(c2, c, f.sb128 as int, ss_hor);
            lemma_tile_x_in_row(f, orig.len() as int, t2);
            assert(0 <= b2 < 32 && 0 <= cb2 < 32);
            assert(new[x2].filter_y[0][b2] == cur[x2].filter_y[0][b2]);
            assert(chroma ==> new[x2].filter_uv[0][cb2] == cur[x2].filter_uv[0][cb2]);
        }
    }
    assert forall|i: int, p: int|
        0 <= i < orig.len() && 0 <= p < 32 && !on_tile_col_y(f, t + 1, i, p) implies #[trigger] new[i].filter_y[0][p]
            == orig[i].filter_y[0][p] by {
        lemma_on_tile_col_step(f, t, i, p);
        assert(cur[i].filter_y[0][p] == orig[i].filter_y[0][p]);
    }
    assert forall|i: int, p: int|
        0 <= i < orig.len() && 0 <= p < 32 && !(chroma && on_tile_col_uv(f, t + 1, i, p)) implies #[trigger] new[i].filter_uv[0][p]
            == orig[i].filter_uv[0][p] by {
        lemma_on_tile_col_step(f, t, i, p);
        assert(cur[i].filter_uv[0][p] == orig[i].filter_uv[0][p]);
    }
    assert forall|i: int, p: int| 0 <= i < orig.len() && 0 <= p < 32 implies #[trigger] new[i].filter_y[1][p] == orig[i].filter_y[1][p] by {
        assert(cur[i].filter_y[1][p] == orig[i].filter_y[1][p]);
    }
    assert forall|i: int, p: int| 0 <= i < orig.len() && 0 <= p < 32 implies #[trigger] new[i].filter_uv[1][p] == orig[i].filter_uv[1][p] by {
        assert(cur[i].filter_uv[1][p] == orig[i].filter_uv[1][p]);
    }
}

/// Fixes the filter levels of the luma and chroma column-edge masks along
/// every tile column boundary that crosses superblock row `sby`, with the
/// transform levels along the boundary; all other masks stay as they are.
#[verifier::spinoff_prover]
#[verifier::rlimit(40)]
fn fix_tile_cols(f: &LoopFilterFrame, lflvl: &mut [Av1Filter], sby: i32)
    requires
        tile_cols_fit(*f, old(lflvl)@, sby as int),
    ensures
        tile_cols_progress(*f, old(lflvl)@, final(lflvl)@, sby as int, tiles_end(*f)),
{
    let ghost orig = lflvl@;
    let ghost end = tiles_end(*f);
    let sb128 = f.sb128;
    let sbsz_: i32 = if sb128 == 1 { 32 } else { 16 };
    let ss_ver: i32 = if f.layout == Rav1dPixelLayout::I420 { 1 } else { 0 };
    let ss_hor: i32 = if f.layout != Rav1dPixelLayout::I444 { 1 } else { 0 };
    let chroma = f.layout != Rav1dPixelLayout::I400;
    assert(0 <= sby * sbsz_ <= f.h4) by (nonlinear_arith)
        requires
            0 <= sby,
            sbsz_ == 16 || sbsz_ == 32,
            sby * sbsz_ <= f.h4,
    ;
    let (starty4, endy4, uv_starty4, uv_endy4) = sbrow_rows(f, sby);
    let bh = f.bh;
    let rounded: i32 = bh + 31;
    let halign_: usize = (rounded & !31i32) as usize;
    assert((rounded & !31i32) == rounded / 32 * 32) by (bit_vector)
        requires
            0 <= rounded,
    ;
    assert(halign_ == halign(bh as int));
    let halign_uv: usize = if ss_ver == 1 { halign_ / 2 } else { halign_ };
    let base_y: usize = (sby * sbsz_) as usize;
    let base_uv: usize = if ss_ver == 1 { base_y / 2 } else { base_y };
    let mut t: usize = 1;
    let mut yi: usize = base_y;
    let mut ui: usize = base_uv;
    let ylen = f.tx_lpf_right_edge_y.len();
    let uvlen = f.tx_lpf_right_edge_uv.len();
    let cols_len = f.col_start_sb.len();
    proof {
        lemma_tile_cols_end_bounds(f.col_start_sb@, 1, sb128 as int, f.bw as int);
        reveal(tile_cols_progress);
        assert forall|i: int, p: int| 0 <= i < orig.len() && 0 <= p < 32 implies !on_tile_col_y(*f, 1, i, p) && !on_tile_col_uv(*f, 1, i, p) by {
            reveal(on_tile_col_y);
            reveal(on_tile_col_uv);
        }
    }
    while (f.col_start_sb[t] as i32) * sbsz_ < f.bw
        invariant
            tile_cols_fit(*f, orig, sby as int),
            end == tiles_end(*f),
            sb128 == f.sb128,
            sbsz_ == sbsz(sb128 as int),
            ss_ver == layout_ss_ver(f.layout),
            ss_hor == layout_ss_hor(f.layout),
            chroma == (f.layout != Rav1dPixelLayout::I400),
            sbrow_rows_in_area(*f, sby as int) == (starty4 as int, endy4 as int, uv_starty4 as int, uv_endy4 as int),
            0 <= starty4 <= endy4 <= 32,
            0 <= uv_starty4 <= uv_endy4 <= 2 * half_width(ss_ver as int),
            halign_ == halign(f.bh as int),
            halign_uv == shr_ss(halign_ as int, ss_ver as int),
            1 <= t <= end,
            tile_cols_end(f.col_start_sb@, t as int, sb128 as int, f.bw as int) == end,
            yi == lpf_y_idx(*f, sby as int, if t == 1 { 1 } else { t - 1 }),
            ui == lpf_uv_idx(*f, sby as int, if t == 1 { 1 } else { t - 1 }),
            ylen == f.tx_lpf_right_edge_y@.len(),
            cols_len == f.col_start_sb@.len(),
            uvlen == f.tx_lpf_right_edge_uv@.len(),
            tile_cols_progress(*f, orig, lflvl@, sby as int, t as int),
        decreases end - t,
    {
        let ghost cur = lflvl@;
        proof {
            lemma_tile_cols_end_bounds(f.col_start_sb@, t as int, sb128 as int, f.bw as int);
            assert(t < end);
            assert(lpf_y_idx(*f, sby as int, t as int) + (endy4 - starty4) <= f.tx_lpf_right_edge_y@.len());
            assert(chroma ==> lpf_uv_idx(*f, sby as int, t as int) + (uv_endy4 - uv_starty4) <= f.tx_lpf_right_edge_uv@.len());
            lemma_tile_col_untouched(*f, orig, cur, sby as int, t as int);
        }
        if t > 1 {
            proof {
                lemma_lpf_idx_step(*f, sby as int, t as int);
            }
            yi = yi + halign_;
            ui = ui + halign_uv;
        }
        assert(yi == lpf_y_idx(*f, sby as int, t as int));
        assert(ui == lpf_uv_idx(*f, sby as int, t as int));
        let c: u16 = f.col_start_sb[t];
        let x: usize = if sb128 == 1 { c as usize } else { (c / 2) as usize };
        let bx4: usize = if sb128 == 0 && c % 2 == 1 { 16 } else { 0 };
        let cbx4: usize = if ss_hor == 1 { bx4 / 2 } else { bx4 };
        assert(x == tile_x(c as int, sb128 as int) && bx4 == tile_bx4(c as int, sb128 as int));
        assert(tile_col_fixable(*f, orig, sby as int, t as int));
        let len_y: usize = (endy4 - starty4) as usize;
        let lpf_y = vstd::slice::slice_subrange(f.tx_lpf_right_edge_y.as_slice(), yi, yi + len_y);
        let len_uv: usize = (uv_endy4 - uv_starty4) as usize;
        let lpf_uv = if chroma {
            vstd::slice::slice_subrange(f.tx_lpf_right_edge_uv.as_slice(), ui, ui + len_uv)
        } else {
            vstd::slice::slice_subrange(f.tx_lpf_right_edge_uv.as_slice(), 0, 0)
        };
        assert forall|b: int| starty4 <= b < endy4 implies capped_level(
            y_edge_level(cur[x as int].filter_y[0][bx4 as int], b),
            #[trigger] lpf_y@[b - starty4],
        ) < 3 by {
            assert(lpf_y@[b - starty4] == f.tx_lpf_right_edge_y@[yi + b - starty4]);
        }
        assert forall|b: int| chroma && uv_starty4 <= b < uv_endy4 implies capped_level(
            uv_edge_level(cur[x as int].filter_uv[0][cbx4 as int], b, half_width(ss_ver as int)),
            #[trigger] lpf_uv@[b - uv_starty4],
        ) < 2 by {
            assert(lpf_uv@[b - uv_starty4] == f.tx_lpf_right_edge_uv@[ui + b - uv_starty4]);
        }
        fix_boundary(
            lflvl,
            x,
            0,
            bx4,
            starty4 as u32,
            endy4 as u32,
            lpf_y,
            chroma,
            cbx4,
            uv_starty4 as u32,
            uv_endy4 as u32,
            lpf_uv,
            ss_ver,
        );
        proof {
            assert(tile_col_step(*f, cur, lflvl@, sby as int, t as int));
            lemma_tile_col_progress(*f, orig, cur, lflvl@, sby as int, t as int);
        }
        t = t + 1;
    }
}

/// The entry of the tile row above that superblock `x` of a row starting
/// tile row `start_of_tile_row` reads.
pub open spec fn tile_row_a(f: LoopFilterFrame, start_of_tile_row: int, x: int) -> int {
    f.sb128w * (start_of_tile_row - 1) + x
}

/// Every level that fixing the tile row boundary above superblock `x` would
/// move an edge bit to exists.
pub open spec fn tile_row_fixable(f: LoopFilterFrame, old: Seq<Av1Filter>, sby: int, start_of_tile_row: int, x: int) -> bool {
    let a = tile_row_a(f, start_of_tile_row, x);
    let (ys, ye, uvs, uve) = sbrow_rows_in_area(f, sby);
    let ss_hor = layout_ss_hor(f.layout);
    let w = sb_w4(f.w4 as int, x);
    let cw = shr_ss(w + ss_hor, ss_hor);
    &&& forall|b: int| 0 <= b < w ==> capped_level(y_edge_level(old[x].filter_y[1][ys], b), #[trigger] f.a_tx_lpf_y@[a][b]) < 3
    &&& f.layout != Rav1dPixelLayout::I400 ==> forall|b: int|
        0 <= b < cw ==> capped_level(uv_edge_level(old[x].filter_uv[1][uvs], b, half_width(ss_hor)), #[trigger] f.a_tx_lpf_uv@[a][b]) < 2
}

/// The masks on the tile row boundary above superblock `x` in `new` are those
/// of `old` fixed with the transform levels along the bottom of the tile row
/// above.
pub open spec fn tile_row_fixed(
    f: LoopFilterFrame,
    old: Seq<Av1Filter>,
    new: Seq<Av1Filter>,
    sby: int,
    start_of_tile_row: int,
    x: int,
) -> bool {
    let a = tile_row_a(f, start_of_tile_row, x);
    let (ys, ye, uvs, uve) = sbrow_rows_in_area(f, sby);
    let ss_hor = layout_ss_hor(f.layout);
    let w = sb_w4(f.w4 as int, x);
    let cw = shr_ss(w + ss_hor, ss_hor);
    &&& y_edge_fixed(old[x].filter_y[1][ys], new[x].filter_y[1][ys], 0, w, f.a_tx_lpf_y@[a]@)
    &&& f.layout != Rav1dPixelLayout::I400 ==> uv_edge_fixed(
        old[x].filter_uv[1][uvs],
        new[x].filter_uv[1][uvs],
        0,
        cw,
        f.a_tx_lpf_uv@[a]@,
        half_width(ss_hor),
    )
}

/// What fixing the tile row boundary above superblock row `sby`, the first of
/// tile row `start_of_tile_row`, demands: the tile row above has its
/// transform levels, and the levels they move edge bits to exist.
pub open spec fn tile_row_fits(f: LoopFilterFrame, old: Seq<Av1Filter>, sby: int, start_of_tile_row: int) -> bool {
    &&& sbrow_fits(f, old.len() as int, sby)
    &&& 1 <= start_of_tile_row
    &&& f.sb128w * start_of_tile_row <= f.a_tx_lpf_y@.len()
    &&& f.layout != Rav1dPixelLayout::I400 ==> f.sb128w * start_of_tile_row <= f.a_tx_lpf_uv@.len()
    &&& forall|x: int| 0 <= x < f.sb128w ==> #[trigger] tile_row_fixable(f, old, sby, start_of_tile_row, x)
}

/// The chroma mask position that fixing a tile row boundary touches, none
/// (`-1`) for a picture without chroma.
pub open spec fn row_fix_uvpos(f: LoopFilterFrame, sby: int) -> int {
    if f.layout != Rav1dPixelLayout::I400 { sbrow_rows_in_area(f, sby).2 } else { -1 }
}

/// Fixes the filter levels of the luma and chroma row-edge masks along the
/// top of superblock row `sby`, which starts tile row `start_of_tile_row`,
/// with the transform levels along the bottom of the tile row above; all
/// other masks stay as they are.
#[verifier::spinoff_prover]
#[verifier::rlimit(60)]
fn fix_tile_row(f: &LoopFilterFrame, lflvl: &mut [Av1Filter], sby: i32, start_of_tile_row: i32)
    requires
        tile_row_fits(*f, old(lflvl)@, sby as int, start_of_tile_row as int),
    ensures
        final(lflvl)@.len() == old(lflvl)@.len(),
        forall|x: int| 0 <= x < f.sb128w ==> #[trigger] tile_row_fixed(*f, old(lflvl)@, final(lflvl)@, sby as int, start_of_tile_row as int, x),
        forall|x: int|
            0 <= x < f.sb128w ==> #[trigger] filter_same_except(
                old(lflvl)@[x],
                final(lflvl)@[x],
                1,
                sbrow_rows_in_area(*f, sby as int).0,
                row_fix_uvpos(*f, sby as int),
            ),
        forall|i: int| f.sb128w <= i < old(lflvl)@.len() ==> #[trigger] final(lflvl)@[i] == old(lflvl)@[i],
{
    let ghost orig = lflvl@;
    let sb128 = f.sb128;
    let ss_hor: i32 = if f.layout != Rav1dPixelLayout::I444 { 1 } else { 0 };
    let chroma = f.layout != Rav1dPixelLayout::I400;
    let (starty4, _endy4, uv_starty4, _uv_endy4) = sbrow_rows(f, sby);
    let n: usize = f.sb128w as usize;
    let w4 = f.w4;
    let ylen = f.a_tx_lpf_y.len();
    let uvlen = f.a_tx_lpf_uv.len();
    assert(0 <= f.sb128w * (start_of_tile_row - 1) && f.sb128w * (start_of_tile_row - 1) + f.sb128w == f.sb128w * start_of_tile_row) by (nonlinear_arith)
        requires
            0 <= f.sb128w,
            1 <= start_of_tile_row,
    ;
    let a_base: usize = (f.sb128w as usize) * ((start_of_tile_row - 1) as usize);
    let mut x: usize = 0;
    while x < n
        invariant
            tile_row_fits(*f, orig, sby as int, start_of_tile_row as int),
            n == f.sb128w,
            w4 == f.w4,
            a_base == f.sb128w * (start_of_tile_row - 1),
            a_base + n <= f.a_tx_lpf_y@.len(),
            chroma ==> a_base + n <= f.a_tx_lpf_uv@.len(),
            ylen == f.a_tx_lpf_y@.len(),
            uvlen == f.a_tx_lpf_uv@.len(),
            sb128 == f.sb128,
            ss_hor == layout_ss_hor(f.layout),
            chroma == (f.layout != Rav1dPixelLayout::I400),
            sbrow_rows_in_area(*f, sby as int).0 == starty4,
            sbrow_rows_in_area(*f, sby as int).2 == uv_starty4,
            0 <= starty4 < 32,
            0 <= uv_starty4 < 32,
            x <= n,
            lflvl@.len() == orig.len(),
            forall|k: int| 0 <= k < x ==> #[trigger] tile_row_fixed(*f, orig, lflvl@, sby as int, start_of_tile_row as int, k),
            forall|k: int|
                0 <= k < x ==> #[trigger] filter_same_except(
                    orig[k],
                    lflvl@[k],
                    1,
                    starty4 as int,
                    row_fix_uvpos(*f, sby as int),
                ),
            forall|i: int| x <= i < orig.len() ==> #[trigger] lflvl@[i] == orig[i],
        decreases n - x,
    {
        let ghost cur = lflvl@;
        let left: i32 = w4 - (x as i32) * 32;
        let w: i32 = if left < 32 { left } else { 32 };
        let cw: i32 = if ss_hor == 1 { (w + 1) / 2 } else { w };
        assert(a_base + x < f.a_tx_lpf_y@.len());
        let a: usize = a_base + x;
        assert(tile_row_fixable(*f, orig, sby as int, start_of_tile_row as int, x as int));
        let lpf_y = f.a_tx_lpf_y[a].as_slice();
        let lpf_uv = if chroma { f.a_tx_lpf_uv[a].as_slice() } else { vstd::slice::slice_subrange(lpf_y, 0, 0) };
        assert(lpf_y@ == f.a_tx_lpf_y@[a as int]@);
        assert(chroma ==> lpf_uv@ == f.a_tx_lpf_uv@[a as int]@);
        assert forall|b: int| 0 <= b < w implies capped_level(
            y_edge_level(cur[x as int].filter_y[1][starty4 as int], b),
            #[trigger] lpf_y@[b - 0],
        ) < 3 by {
            assert(lpf_y@[b - 0] == f.a_tx_lpf_y@[a as int][b]);
            assert(tile_row_a(*f, start_of_tile_row as int, x as int) == a);
        }
        assert forall|b: int| chroma && 0 <= b < cw implies capped_level(
            uv_edge_level(cur[x as int].filter_uv[1][uv_starty4 as int], b, half_width(ss_hor as int)),
            #[trigger] lpf_uv@[b - 0],
        ) < 2 by {
            assert(lpf_uv@[b - 0] == f.a_tx_lpf_uv@[a as int][b]);
            assert(tile_row_a(*f, start_of_tile_row as int, x as int) == a);
        }
        fix_boundary(
            lflvl,
            x,
            1,
            starty4 as usize,
            0,
            w as u32,
            lpf_y,
            chroma,
            uv_starty4 as usize,
            0,
            cw as u32,
            lpf_uv,
            ss_hor,
        );
        assert(tile_row_fixed(*f, orig, lflvl@, sby as int, start_of_tile_row as int, x as int));
        assert forall|k: int| 0 <= k < x + 1 implies #[trigger] tile_row_fixed(*f, orig, lflvl@, sby as int, start_of_tile_row as int, k) by {
            if k < x {
                assert(lflvl@[k] == cur[k]);
                assert(tile_row_fixed(*f, orig, cur, sby as int, start_of_tile_row as int, k));
            }
        }
        x = x + 1;
    }
}

/// Luma superblock `x` of a superblock row filtered between block columns.
pub open spec fn cols_luma_ok(e: SuperblockEdges, x: int, f: LoopFilterFrame, lflvl: Seq<Av1Filter>, sby: int) -> bool {
    let sb128 = f.sb128 as int;
    &&& e.px == 128 * x
    &&& e.lvl == luma_level_base(f, sby) + 32 * x
    &&& e.w == sb_w4(f.w4 as int, x)
    &&& edges_in_levels(e.edges@, f.level@.len() - e.lvl, 0)
    &&& cols_y_edges(
        e.edges@,
        x > 0,
        lflvl[x].filter_y[0]@,
        sb_w4(f.w4 as int, x),
        sbrow_starty4(sb128, sby),
        sbrow_endy4(sb128, sby, f.h4 as int),
    )
}

/// Chroma superblock `x` of a superblock row filtered between block columns.
pub open spec fn cols_chroma_ok(e: SuperblockEdges, x: int, f: LoopFilterFrame, lflvl: Seq<Av1Filter>, sby: int) -> bool {
    let sb128 = f.sb128 as int;
    let ss_ver = layout_ss_ver(f.layout);
    let ss_hor = layout_ss_hor(f.layout);
    &&& e.px == shr_ss(128 * x, ss_hor)
    &&& e.lvl == chroma_level_base(f, sby) + chroma_sb_levels(f) * x
    &&& e.w == shr_ss(sb_w4(f.w4 as int, x) + ss_hor, ss_hor)
    &&& e.lvl + e.w <= f.level@.len()
    &&& edges_in_levels(e.edges@, e.w as int, 1)
    &&& cols_uv_edges(
        e.edges@,
        x > 0,
        lflvl[x].filter_uv[0]@,
        shr_ss(sb_w4(f.w4 as int, x) + ss_hor, ss_hor),
        shr_ss(sbrow_starty4(sb128, sby), ss_ver),
        shr_ss(sbrow_endy4(sb128, sby, f.h4 as int) + ss_ver, ss_ver),
        ss_ver,
    )
}

/// The column edges of superblock row `sby`, superblock by superblock, read
/// from the masks in `lflvl`, each edge with the level entry its filter reads.
#[verifier::spinoff_prover]
#[verifier::rlimit(30)]
fn plan_sbrow_cols(f: &LoopFilterFrame, lflvl: &[Av1Filter], sby: i32) -> (plan: SbrowFilterPlan)
    requires
        sbrow_fits(*f, lflvl@.len() as int, sby as int),
    ensures
        plan.luma@.len() == f.sb128w,
        forall|x: int| 0 <= x < f.sb128w ==> #[trigger] cols_luma_ok(plan.luma@[x], x, *f, lflvl@, sby as int),
        plan.chroma@.len() == if filters_chroma(*f) { f.sb128w as int } else { 0 },
        forall|x: int| 0 <= x < plan.chroma@.len() ==> #[trigger] cols_chroma_ok(plan.chroma@[x], x, *f, lflvl@, sby as int),
{
    let sb128 = f.sb128;
    let w4 = f.w4;
    let b4_stride = f.b4_stride;
    let sbsz_: i32 = if sb128 == 1 { 32 } else { 16 };
    let ss_ver: i32 = if f.layout == Rav1dPixelLayout::I420 { 1 } else { 0 };
    let ss_hor: i32 = if f.layout != Rav1dPixelLayout::I444 { 1 } else { 0 };
    let (starty4, endy4, uv_starty4, uv_endy4) = sbrow_rows(f, sby);
    let level = f.level.as_slice();
    let n: usize = f.sb128w as usize;
    proof {
        lemma_level_base_bounds(b4_stride as int, sby as int, sbsz_ as int);
    }
    let base: usize = (b4_stride * (sby as isize) * (sbsz_ as isize)) as usize;
    let mut luma: Vec<SuperblockEdges> = Vec::new();
    let mut x: usize = 0;
    while x < n
        invariant
            sbrow_fits(*f, lflvl@.len() as int, sby as int),
            n == f.sb128w,
            sb128 == f.sb128,
            w4 == f.w4,
            b4_stride == f.b4_stride,
            level@ == f.level@,
            sbsz_ == sbsz(sb128 as int),
            base == luma_level_base(*f, sby as int),
            (starty4 as int, endy4 as int, uv_starty4 as int, uv_endy4 as int) == sbrow_rows_in_area(*f, sby as int),
            0 <= starty4 <= endy4 <= 32,
            x <= n,
            luma@.len() == x,
            forall|k: int| 0 <= k < x ==> #[trigger] cols_luma_ok(luma@[k], k, *f, lflvl@, sby as int),
        decreases n - x,
    {
        proof {
            lemma_sb_index_bounds(b4_stride as int, sby as int, sbsz_ as int, n as int, x as int);
        }
        let left: i32 = w4 - (x as i32) * 32;
        let w: i32 = if left < 32 { left } else { 32 };
        let lvl: usize = base + 32 * x;
        let sb_level = vstd::slice::slice_subrange(level, lvl, level.len());
        let edges = filter_plane_cols_y(x > 0, sb_level, lflvl[x].filter_y[0].as_slice(), w as usize, starty4 as usize, endy4 as usize);
        luma.push(SuperblockEdges { px: 128 * x, lvl, w: w as usize, edges });
        assert(cols_luma_ok(luma@[x as int], x as int, *f, lflvl@, sby as int));
        x = x + 1;
    }
    let mut chroma: Vec<SuperblockEdges> = Vec::new();
    if f.level_u == 0 && f.level_v == 0 {
        return SbrowFilterPlan { luma, chroma };
    }
    let rows_uv: isize = if ss_ver == 1 { (sby as isize) * (sbsz_ as isize) / 2 } else { (sby as isize) * (sbsz_ as isize) };
    assert(0 <= b4_stride * rows_uv <= b4_stride * sby * sbsz_) by (nonlinear_arith)
        requires
            0 <= b4_stride,
            0 <= rows_uv <= sby * sbsz_,
    ;
    let base_uv: usize = (b4_stride * rows_uv) as usize;
    let step: usize = if ss_hor == 1 { 16 } else { 32 };
    let mut x: usize = 0;
    while x < n
        invariant
            sbrow_fits(*f, lflvl@.len() as int, sby as int),
            filters_chroma(*f),
            n == f.sb128w,
            sb128 == f.sb128,
            w4 == f.w4,
            b4_stride == f.b4_stride,
            level@ == f.level@,
            sbsz_ == sbsz(sb128 as int),
            base_uv == chroma_level_base(*f, sby as int),
            step == chroma_sb_levels(*f),
            ss_ver == layout_ss_ver(f.layout),
            ss_hor == layout_ss_hor(f.layout),
            (starty4 as int, endy4 as int, uv_starty4 as int, uv_endy4 as int) == sbrow_rows_in_area(*f, sby as int),
            0 <= uv_starty4 <= uv_endy4 <= 32,
            x <= n,
            chroma@.len() == x,
            forall|k: int| 0 <= k < x ==> #[trigger] cols_chroma_ok(chroma@[k], k, *f, lflvl@, sby as int),
        decreases n - x,
    {
        proof {
            lemma_sb_index_bounds(b4_stride as int, sby as int, sbsz_ as int, n as int, x as int);
        }
        let left: i32 = w4 - (x as i32) * 32;
        let w: i32 = if left < 32 { left } else { 32 };
        let w_uv: i32 = if ss_hor == 1 { (w + 1) / 2 } else { w };
        assert(step * x + step <= step * n) by (nonlinear_arith)
            requires
                x < n,
                0 <= step,
        ;
        assert(step * n == chroma_sb_levels(*f) * f.sb128w);
        let total: usize = level.len();
        let lvl: usize = base_uv + step * x;
        let sb_level = vstd::slice::slice_subrange(level, lvl, total);
        let px: usize = if ss_hor == 1 { x * 64 } else { x * 128 };
        let edges = filter_plane_cols_uv(
            x > 0,
            sb_level,
            lflvl[x].filter_uv[0].as_slice(),
            w_uv as usize,
            uv_starty4 as usize,
            uv_endy4 as usize,
            ss_ver,
        );
        chroma.push(SuperblockEdges { px, lvl, w: w_uv as usize, edges });
        assert(cols_chroma_ok(chroma@[x as int], x as int, *f, lflvl@, sby as int));
        x = x + 1;
    }
    SbrowFilterPlan { luma, chroma }
}

/// What filtering superblock row `sby` between block columns demands, where
/// the row starts tile row `start_of_tile_row` (`0` for none).
pub open spec fn sbrow_cols_fits(f: LoopFilterFrame, old: Seq<Av1Filter>, sby: int, start_of_tile_row: int) -> bool {
    &&& tile_cols_fit(f, old, sby)
    &&& 0 <= start_of_tile_row
    &&& start_of_tile_row != 0 ==> tile_row_fits(f, old, sby, start_of_tile_row)
}

/// Filters superblock row `sby` of frame `f` between block columns, as far as
/// deciding goes: first the edge masks in `lflvl` (those of the row's
/// superblocks) are fixed along every tile column boundary, and along the
/// tile row boundary above where the row starts tile row `start_of_tile_row`
/// (`0` for none), so that no edge is filtered more strongly than the
/// transform across the boundary allows; then the column edges of each luma
/// superblock, and, where either chroma plane has a filter level, of each
/// chroma superblock, are planned from the fixed masks.
#[verifier::spinoff_prover]
#[verifier::rlimit(80)]
pub fn rav1d_loopfilter_sbrow_cols(
    f: &LoopFilterFrame,
    lflvl: &mut [Av1Filter],
    sby: i32,
    start_of_tile_row: i32,
) -> (plan: SbrowFilterPlan)
    requires
        sbrow_cols_fits(*f, old(lflvl)@, sby as int, start_of_tile_row as int),
    ensures
        sbrow_cols_fixed(*f, old(lflvl)@, final(lflvl)@, sby as int, start_of_tile_row as int),
        plan.luma@.len() == f.sb128w,
        forall|x: int| 0 <= x < f.sb128w ==> #[trigger] cols_luma_ok(plan.luma@[x], x, *f, final(lflvl)@, sby as int),
        plan.chroma@.len() == if filters_chroma(*f) { f.sb128w as int } else { 0 },
        forall|x: int| 0 <= x < plan.chroma@.len() ==> #[trigger] cols_chroma_ok(plan.chroma@[x], x, *f, final(lflvl)@, sby as int),
{
    let ghost orig = lflvl@;
    fix_tile_cols(f, lflvl, sby);
    let ghost mid = lflvl@;
    proof {
        reveal(tile_cols_progress);
    }
    if start_of_tile_row != 0 {
        assert forall|x: int| 0 <= x < f.sb128w implies #[trigger] tile_row_fixable(*f, mid, sby as int, start_of_tile_row as int, x) by {
            assert(tile_row_fixable(*f, orig, sby as int, start_of_tile_row as int, x));
            let (ys, ye, uvs, uve) = sbrow_rows_in_area(*f, sby as int);
            assert(0 <= ys < 32 && 0 <= uvs < 32);
            assert(mid[x].filter_y[1][ys] == orig[x].filter_y[1][ys]);
            assert(mid[x].filter_uv[1][uvs] == orig[x].filter_uv[1][uvs]);
        }
        fix_tile_row(f, lflvl, sby, start_of_tile_row);
    }
    let ghost fin = lflvl@;
    let ghost ys = sbrow_rows_in_area(*f, sby as int).0;
    assert forall|i: int, p: int| 0 <= i < orig.len() && 0 <= p < 32 implies #[trigger] fin[i].filter_y[0][p] == mid[i].filter_y[0][p] by {
        if start_of_tile_row != 0 && i < f.sb128w {
            assert(filter_same_except(mid[i], fin[i], 1, ys, row_fix_uvpos(*f, sby as int)));
        }
    }
    assert forall|i: int, p: int| 0 <= i < orig.len() && 0 <= p < 32 implies #[trigger] fin[i].filter_uv[0][p] == mid[i].filter_uv[0][p] by {
        if start_of_tile_row != 0 && i < f.sb128w {
            assert(filter_same_except(mid[i], fin[i], 1, ys, row_fix_uvpos(*f, sby as int)));
        }
    }
    assert forall|t: int| 1 <= t < tiles_end(*f) implies #[trigger] tile_col_fixed(*f, orig, fin, sby as int, t) by {
        assert(tile_col_fixed(*f, orig, mid, sby as int, t));
        let c = f.col_start_sb@[t] as int;
        let x = tile_x(c, f.sb128 as int);
        let bx4 = tile_bx4(c, f.sb128 as int);
        let cbx4 = shr_ss(bx4, layout_ss_hor(f.layout));
        lemma_tile_x_in_row(*f, orig.len() as int, t);
        assert(0 <= bx4 < 32 && 0 <= cbx4 < 32);
        assert(fin[x].filter_y[0][bx4] == mid[x].filter_y[0][bx4]);
        assert(fin[x].filter_uv[0][cbx4] == mid[x].filter_uv[0][cbx4]);
    }

    assert forall|x: int| start_of_tile_row != 0 && 0 <= x < f.sb128w implies #[trigger] tile_row_fixed(
        *f,
        orig,
        fin,
        sby as int,
        start_of_tile_row as int,
        x,
    ) by {
        assert(tile_row_fixed(*f, mid, fin, sby as int, start_of_tile_row as int, x));
        let (ys, ye, uvs, uve) = sbrow_rows_in_area(*f, sby as int);
        assert(0 <= ys < 32 && 0 <= uvs < 32);
        assert(mid[x].filter_y[1][ys] == orig[x].filter_y[1][ys]);
        assert(mid[x].filter_uv[1][uvs] == orig[x].filter_uv[1][uvs]);
    }
    assert forall|i: int, p: int|
        0 <= i < orig.len() && 0 <= p < 32 && !(start_of_tile_row != 0 && i < f.sb128w && p == ys) implies #[trigger] fin[i].filter_y[1][p]
            == orig[i].filter_y[1][p] by {
        assert(mid[i].filter_y[1][p] == orig[i].filter_y[1][p]);
        if start_of_tile_row != 0 && i < f.sb128w {
            assert(filter_same_except(mid[i], fin[i], 1, ys, row_fix_uvpos(*f, sby as int)));
        }
    }
    assert forall|i: int, p: int|
        0 <= i < orig.len() && 0 <= p < 32 && !(start_of_tile_row != 0 && i < f.sb128w && p == row_fix_uvpos(*f, sby as int)) implies #[trigger] fin[i].filter_uv[1][p]
            == orig[i].filter_uv[1][p] by {
        assert(mid[i].filter_uv[1][p] == orig[i].filter_uv[1][p]);
        if start_of_tile_row != 0 && i < f.sb128w {
            assert(filter_same_except(mid[i], fin[i], 1, ys, row_fix_uvpos(*f, sby as int)));
        }
    }
    plan_sbrow_cols(f, lflvl, sby)
}

/// The masks of `new` are those of `old` after filtering a superblock row
/// between block columns: every tile column boundary crossing superblock row
/// `sby` fixed, the tile row boundary above it fixed where the row starts
/// tile row `start_of_tile_row` (`0` for none), and every other mask kept.
pub open spec fn sbrow_cols_fixed(
    f: LoopFilterFrame,
    old: Seq<Av1Filter>,
    new: Seq<Av1Filter>,
    sby: int,
    start_of_tile_row: int,
) -> bool {
    &&& new.len() == old.len()
    &&& forall|t: int| 1 <= t < tiles_end(f) ==> #[trigger] tile_col_fixed(f, old, new, sby, t)
    &&& start_of_tile_row != 0 ==> forall|x: int|
        0 <= x < f.sb128w ==> #[trigger] tile_row_fixed(f, old, new, sby, start_of_tile_row, x)
    &&& forall|i: int, p: int|
        0 <= i < old.len() && 0 <= p < 32 && !on_tile_col_y(f, tiles_end(f), i, p) ==> #[trigger] new[i].filter_y[0][p]
            == old[i].filter_y[0][p]
    &&& forall|i: int, p: int|
        0 <= i < old.len() && 0 <= p < 32 && !(f.layout != Rav1dPixelLayout::I400 && on_tile_col_uv(f, tiles_end(f), i, p))
            ==> #[trigger] new[i].filter_uv[0][p] == old[i].filter_uv[0][p]
    &&& forall|i: int, p: int|
        0 <= i < old.len() && 0 <= p < 32 && !(start_of_tile_row != 0 && i < f.sb128w && p == sbrow_rows_in_area(f, sby).0)
            ==> #[trigger] new[i].filter_y[1][p] == old[i].filter_y[1][p]
    &&& forall|i: int, p: int|
        0 <= i < old.len() && 0 <= p < 32 && !(start_of_tile_row != 0 && i < f.sb128w && p == row_fix_uvpos(f, sby))
            ==> #[trigger] new[i].filter_uv[1][p] == old[i].filter_uv[1][p]
}

/// The width in bits of each half of the chroma masks of direction `d`
/// (`0`: edges between columns, whose bits run down the rows).
pub open spec fn uv_half_width(f: LoopFilterFrame, d: int) -> int {
    if d == 0 { half_width(layout_ss_ver(f.layout)) } else { half_width(layout_ss_hor(f.layout)) }
}

/// No edge bit of any mask in `lflvl` is set at two filter levels.
pub open spec fn filters_apart(f: LoopFilterFrame, lflvl: Seq<Av1Filter>) -> bool {
    &&& forall|i: int, d: int, p: int|
        0 <= i < lflvl.len() && 0 <= d < 2 && 0 <= p < 32 ==> #[trigger] y_bits_apart(lflvl[i].filter_y[d][p])
    &&& forall|i: int, d: int, p: int|
        0 <= i < lflvl.len() && 0 <= d < 2 && 0 <= p < 32 ==> #[trigger] uv_bits_apart(lflvl[i].filter_uv[d][p], uv_half_width(f, d))
}

/// No edge bit stands at a higher filter level in `new` than in `old`.
pub open spec fn filters_not_raised(f: LoopFilterFrame, old: Seq<Av1Filter>, new: Seq<Av1Filter>) -> bool {
    &&& forall|i: int, d: int, p: int, b: int|
        0 <= i < old.len() && 0 <= d < 2 && 0 <= p < 32 && 0 <= b < 32 ==> #[trigger] y_edge_level(new[i].filter_y[d][p], b)
            <= y_edge_level(old[i].filter_y[d][p], b)
    &&& forall|i: int, d: int, p: int, b: int|
        0 <= i < old.len() && 0 <= d < 2 && 0 <= p < 32 && 0 <= b < 2 * uv_half_width(f, d) ==> #[trigger] uv_edge_level(
            new[i].filter_uv[d][p],
            b,
            uv_half_width(f, d),
        ) <= uv_edge_level(old[i].filter_uv[d][p], b, uv_half_width(f, d))
}

/// Every edge bit of superblock row `sby` on a tile boundary stands at
/// exactly one filter level in `new`.
pub open spec fn boundary_bits_in_one(f: LoopFilterFrame, new: Seq<Av1Filter>, sby: int, start_of_tile_row: int) -> bool {
    let (ys, ye, uvs, uve) = sbrow_rows_in_area(f, sby);
    let ss_hor = layout_ss_hor(f.layout);
    &&& forall|t: int, b: int|
        1 <= t < tiles_end(f) && ys <= b < ye ==> #[trigger] y_in_one(
            new[tile_x(f.col_start_sb@[t] as int, f.sb128 as int)].filter_y[0][tile_bx4(f.col_start_sb@[t] as int, f.sb128 as int)],
            b,
        )
    &&& f.layout != Rav1dPixelLayout::I400 ==> forall|t: int, b: int|
        1 <= t < tiles_end(f) && uvs <= b < uve ==> #[trigger] uv_in_one(
            new[tile_x(f.col_start_sb@[t] as int, f.sb128 as int)].filter_uv[0][shr_ss(
                tile_bx4(f.col_start_sb@[t] as int, f.sb128 as int),
                ss_hor,
            )],
            b,
            uv_half_width(f, 0),
        )
    &&& start_of_tile_row != 0 ==> forall|x: int, b: int|
        0 <= x < f.sb128w && 0 <= b < sb_w4(f.w4 as int, x) ==> #[trigger] y_in_one(new[x].filter_y[1][ys], b)
    &&& start_of_tile_row != 0 && f.layout != Rav1dPixelLayout::I400 ==> forall|x: int, b: int|
        0 <= x < f.sb128w && 0 <= b < shr_ss(sb_w4(f.w4 as int, x) + ss_hor, ss_hor) ==> #[trigger] uv_in_one(
            new[x].filter_uv[1][uvs],
            b,
            uv_half_width(f, 1),
        )
}

proof fn lemma_rows_in_area_bounds(f: LoopFilterFrame, lflvl_len: int, sby: int)
    requires
        sbrow_fits(f, lflvl_len, sby),
    ensures
        0 <= sbrow_rows_in_area(f, sby).0 <= sbrow_rows_in_area(f, sby).1 <= 32,
        sbrow_rows_in_area(f, sby).0 < 32,
        0 <= sbrow_rows_in_area(f, sby).2 <= sbrow_rows_in_area(f, sby).3 <= 2 * half_width(layout_ss_ver(f.layout)),
        sbrow_rows_in_area(f, sby).2 < 32,
{
}

/// The luma mask at block column `p` of mask area `i` in direction `d`,
/// after a superblock row's boundary fix, keeps its bits apart, raises no
/// bit's level, and holds every bit it fixes at exactly one level.
proof fn lemma_y_mask_not_raised(
    f: LoopFilterFrame,
    old: Seq<Av1Filter>,
    new: Seq<Av1Filter>,
    sby: int,
    start_of_tile_row: int,
    i: int,
    d: int,
    p: int,
)
    requires
        sbrow_cols_fits(f, old, sby, start_of_tile_row),
        sbrow_cols_fixed(f, old, new, sby, start_of_tile_row),
        0 <= i < old.len(),
        0 <= d < 2,
        0 <= p < 32,
        y_bits_apart(old[i].filter_y[d][p]),
    ensures
        y_bits_apart(new[i].filter_y[d][p]),
        forall|b: int| 0 <= b < 32 ==> #[trigger] y_edge_level(new[i].filter_y[d][p], b) <= y_edge_level(old[i].filter_y[d][p], b),
{
    let (ys, ye, uvs, uve) = sbrow_rows_in_area(f, sby);
    lemma_rows_in_area_bounds(f, old.len() as int, sby);
    if d == 0 && on_tile_col_y(f, tiles_end(f), i, p) {
        reveal(on_tile_col_y);
        let t = choose|t: int|
            1 <= t < tiles_end(f) && tile_x(#[trigger] f.col_start_sb@[t] as int, f.sb128 as int) == i && tile_bx4(
                f.col_start_sb@[t] as int,
                f.sb128 as int,
            ) == p;
        assert(tile_col_fixed(f, old, new, sby, t));
        assert(tile_col_fixable(f, old, sby, t));
        let yi = lpf_y_idx(f, sby, t);
        let lpf = f.tx_lpf_right_edge_y@.subrange(yi, yi + ye - ys);
        assert forall|b: int| ys <= b < ye implies capped_level(y_edge_level(old[i].filter_y[0][p], b), #[trigger] lpf[b - ys]) < 3 by {
            assert(lpf[b - ys] == f.tx_lpf_right_edge_y@[yi + b - ys]);
        }
        lemma_y_edge_fix_never_raises(old[i].filter_y[0][p], new[i].filter_y[0][p], ys, ye, lpf);
    } else if d == 1 && start_of_tile_row != 0 && i < f.sb128w && p == ys {
        assert(tile_row_fixed(f, old, new, sby, start_of_tile_row, i));
        assert(tile_row_fixable(f, old, sby, start_of_tile_row, i));
        let a = tile_row_a(f, start_of_tile_row, i);
        let lpf = f.a_tx_lpf_y@[a]@;
        let w = sb_w4(f.w4 as int, i);
        assert forall|b: int| 0 <= b < w implies capped_level(y_edge_level(old[i].filter_y[1][p], b), #[trigger] lpf[b - 0]) < 3 by {
            assert(lpf[b - 0] == f.a_tx_lpf_y@[a][b]);
        }
        lemma_y_edge_fix_never_raises(old[i].filter_y[1][p], new[i].filter_y[1][p], 0, w, lpf);
    } else {
        assert(new[i].filter_y[d][p] == old[i].filter_y[d][p]);
    }
}

/// The chroma mask at block column `p` of mask area `i` in direction `d`,
/// after a superblock row's boundary fix, keeps its bits apart and raises no
/// bit's level.
proof fn lemma_uv_mask_not_raised(
    f: LoopFilterFrame,
    old: Seq<Av1Filter>,
    new: Seq<Av1Filter>,
    sby: int,
    start_of_tile_row: int,
    i: int,
    d: int,
    p: int,
)
    requires
        sbrow_cols_fits(f, old, sby, start_of_tile_row),
        sbrow_cols_fixed(f, old, new, sby, start_of_tile_row),
        0 <= i < old.len(),
        0 <= d < 2,
        0 <= p < 32,
        uv_bits_apart(old[i].filter_uv[d][p], uv_half_width(f, d)),
    ensures
        uv_bits_apart(new[i].filter_uv[d][p], uv_half_width(f, d)),
        forall|b: int|
            0 <= b < 2 * uv_half_width(f, d) ==> #[trigger] uv_edge_level(new[i].filter_uv[d][p], b, uv_half_width(f, d))
                <= uv_edge_level(old[i].filter_uv[d][p], b, uv_half_width(f, d)),
{
    let (ys, ye, uvs, uve) = sbrow_rows_in_area(f, sby);
    let hw = uv_half_width(f, d);
    lemma_rows_in_area_bounds(f, old.len() as int, sby);
    if d == 0 && f.layout != Rav1dPixelLayout::I400 && on_tile_col_uv(f, tiles_end(f), i, p) {
        reveal(on_tile_col_uv);
        let t = choose|t: int|
            1 <= t < tiles_end(f) && tile_x(#[trigger] f.col_start_sb@[t] as int, f.sb128 as int) == i && shr_ss(
                tile_bx4(f.col_start_sb@[t] as int, f.sb128 as int),
                layout_ss_hor(f.layout),
            ) == p;
        assert(tile_col_fixed(f, old, new, sby, t));
        assert(tile_col_fixable(f, old, sby, t));
        let ui = lpf_uv_idx(f, sby, t);
        let lpf = f.tx_lpf_right_edge_uv@.subrange(ui, ui + uve - uvs);
        assert forall|b: int| uvs <= b < uve implies capped_level(uv_edge_level(old[i].filter_uv[0][p], b, hw), #[trigger] lpf[b - uvs])
            < 2 by {
            assert(lpf[b - uvs] == f.tx_lpf_right_edge_uv@[ui + b - uvs]);
        }
        lemma_uv_edge_fix_never_raises(old[i].filter_uv[0][p], new[i].filter_uv[0][p], uvs, uve, lpf, hw);
    } else if d == 1 && start_of_tile_row != 0 && i < f.sb128w && p == row_fix_uvpos(f, sby) {
        assert(tile_row_fixed(f, old, new, sby, start_of_tile_row, i));
        assert(tile_row_fixable(f, old, sby, start_of_tile_row, i));
        let a = tile_row_a(f, start_of_tile_row, i);
        let lpf = f.a_tx_lpf_uv@[a]@;
        let ss_hor = layout_ss_hor(f.layout);
        let cw = shr_ss(sb_w4(f.w4 as int, i) + ss_hor, ss_hor);
        assert forall|b: int| 0 <= b < cw implies capped_level(uv_edge_level(old[i].filter_uv[1][p], b, hw), #[trigger] lpf[b - 0]) < 2 by {
            assert(lpf[b - 0] == f.a_tx_lpf_uv@[a][b]);
        }
        lemma_uv_edge_fix_never_raises(old[i].filter_uv[1][p], new[i].filter_uv[1][p], 0, cw, lpf, hw);
    } else {
        assert(new[i].filter_uv[d][p] == old[i].filter_uv[d][p]);
    }
}

/// Fixing the masks of a superblock row at the tile boundaries never makes
/// an edge filter stronger: where no edge bit was set at two filter levels,
/// none is afterwards, no bit's level rises, and every bit on a boundary
/// (one set at no level before included) stands at exactly one level.
pub proof fn lemma_sbrow_cols_fix_never_raises(
    f: LoopFilterFrame,
    old: Seq<Av1Filter>,
    new: Seq<Av1Filter>,
    sby: int,
    start_of_tile_row: int,
)
    requires
        sbrow_cols_fits(f, old, sby, start_of_tile_row),
        sbrow_cols_fixed(f, old, new, sby, start_of_tile_row),
        filters_apart(f, old),
    ensures
        filters_apart(f, new),
        filters_not_raised(f, old, new),
        boundary_bits_in_one(f, new, sby, start_of_tile_row),
{
    assert forall|i: int, d: int, p: int| 0 <= i < new.len() && 0 <= d < 2 && 0 <= p < 32 implies #[trigger] y_bits_apart(
        new[i].filter_y[d][p],
    ) by {
        assert(y_bits_apart(old[i].filter_y[d][p]));
        lemma_y_mask_not_raised(f, old, new, sby, start_of_tile_row, i, d, p);
    }
    assert forall|i: int, d: int, p: int| 0 <= i < new.len() && 0 <= d < 2 && 0 <= p < 32 implies #[trigger] uv_bits_apart(
        new[i].filter_uv[d][p],
        uv_half_width(f, d),
    ) by {
        assert(uv_bits_apart(old[i].filter_uv[d][p], uv_half_width(f, d)));
        lemma_uv_mask_not_raised(f, old, new, sby, start_of_tile_row, i, d, p);
    }
    assert forall|i: int, d: int, p: int, b: int|
        0 <= i < old.len() && 0 <= d < 2 && 0 <= p < 32 && 0 <= b < 32 implies #[trigger] y_edge_level(new[i].filter_y[d][p], b)
        <= y_edge_level(old[i].filter_y[d][p], b) by {
        assert(y_bits_apart(old[i].filter_y[d][p]));
        lemma_y_mask_not_raised(f, old, new, sby, start_of_tile_row, i, d, p);
    }
    assert forall|i: int, d: int, p: int, b: int|
        0 <= i < old.len() && 0 <= d < 2 && 0 <= p < 32 && 0 <= b < 2 * uv_half_width(f, d) implies #[trigger] uv_edge_level(
        new[i].filter_uv[d][p],
        b,
        uv_half_width(f, d),
    ) <= uv_edge_level(old[i].filter_uv[d][p], b, uv_half_width(f, d)) by {
        assert(uv_bits_apart(old[i].filter_uv[d][p], uv_half_width(f, d)));
        lemma_uv_mask_not_raised(f, old, new, sby, start_of_tile_row, i, d, p);
    }
    lemma_boundary_bits_in_one(f, old, new, sby, start_of_tile_row);
}

proof fn lemma_boundary_bits_in_one(
    f: LoopFilterFrame,
    old: Seq<Av1Filter>,
    new: Seq<Av1Filter>,
    sby: int,
    start_of_tile_row: int,
)
    requires
        sbrow_cols_fits(f, old, sby, start_of_tile_row),
        sbrow_cols_fixed(f, old, new, sby, start_of_tile_row),
        filters_apart(f, old),
    ensures
        boundary_bits_in_one(f, new, sby, start_of_tile_row),
{
    let (ys, ye, uvs, uve) = sbrow_rows_in_area(f, sby);
    let ss_hor = layout_ss_hor(f.layout);
    lemma_rows_in_area_bounds(f, old.len() as int, sby);
    assert forall|t: int, b: int| 1 <= t < tiles_end(f) && ys <= b < ye implies #[trigger] y_in_one(
        new[tile_x(f.col_start_sb@[t] as int, f.sb128 as int)].filter_y[0][tile_bx4(f.col_start_sb@[t] as int, f.sb128 as int)],
        b,
    ) by {
        let x = tile_x(f.col_start_sb@[t] as int, f.sb128 as int);
        let p = tile_bx4(f.col_start_sb@[t] as int, f.sb128 as int);
        lemma_tile_x_in_row(f, old.len() as int, t);
        assert(tile_col_fixed(f, old, new, sby, t));
        assert(tile_col_fixable(f, old, sby, t));
        assert(y_bits_apart(old[x].filter_y[0][p]));
        let yi = lpf_y_idx(f, sby, t);
        let lpf = f.tx_lpf_right_edge_y@.subrange(yi, yi + ye - ys);
        assert forall|c: int| ys <= c < ye implies capped_level(y_edge_level(old[x].filter_y[0][p], c), #[trigger] lpf[c - ys]) < 3 by {
            assert(lpf[c - ys] == f.tx_lpf_right_edge_y@[yi + c - ys]);
        }
        lemma_y_edge_fix_never_raises(old[x].filter_y[0][p], new[x].filter_y[0][p], ys, ye, lpf);
    }
    assert forall|t: int, b: int| f.layout != Rav1dPixelLayout::I400 && 1 <= t < tiles_end(f) && uvs <= b < uve implies #[trigger] uv_in_one(
        new[tile_x(f.col_start_sb@[t] as int, f.sb128 as int)].filter_uv[0][shr_ss(tile_bx4(f.col_start_sb@[t] as int, f.sb128 as int), ss_hor)],
        b,
        uv_half_width(f, 0),
    ) by {
        let x = tile_x(f.col_start_sb@[t] as int, f.sb128 as int);
        let p = shr_ss(tile_bx4(f.col_start_sb@[t] as int, f.sb128 as int), ss_hor);
        let hw = uv_half_width(f, 0);
        lemma_tile_x_in_row(f, old.len() as int, t);
        assert(tile_col_fixed(f, old, new, sby, t));
        assert(tile_col_fixable(f, old, sby, t));
        assert(0 <= p < 32);
        assert(uv_bits_apart(old[x].filter_uv[0][p], hw));
        let ui = lpf_uv_idx(f, sby, t);
        let lpf = f.tx_lpf_right_edge_uv@.subrange(ui, ui + uve - uvs);
        assert forall|c: int| uvs <= c < uve implies capped_level(uv_edge_level(old[x].filter_uv[0][p], c, hw), #[trigger] lpf[c - uvs])
            < 2 by {
            assert(lpf[c - uvs] == f.tx_lpf_right_edge_uv@[ui + c - uvs]);
        }
        lemma_uv_edge_fix_never_raises(old[x].filter_uv[0][p], new[x].filter_uv[0][p], uvs, uve, lpf, hw);
    }
    assert forall|x: int, b: int| start_of_tile_row != 0 && 0 <= x < f.sb128w && 0 <= b < sb_w4(f.w4 as int, x) implies #[trigger] y_in_one(
        new[x].filter_y[1][ys],
        b,
    ) by {
        assert(tile_row_fixed(f, old, new, sby, start_of_tile_row, x));
        assert(tile_row_fixable(f, old, sby, start_of_tile_row, x));
        assert(y_bits_apart(old[x].filter_y[1][ys]));
        let a = tile_row_a(f, start_of_tile_row, x);
        let lpf = f.a_tx_lpf_y@[a]@;
        let w = sb_w4(f.w4 as int, x);
        assert forall|c: int| 0 <= c < w implies capped_level(y_edge_level(old[x].filter_y[1][ys], c), #[trigger] lpf[c - 0]) < 3 by {
            assert(lpf[c - 0] == f.a_tx_lpf_y@[a][c]);
        }
        lemma_y_edge_fix_never_raises(old[x].filter_y[1][ys], new[x].filter_y[1][ys], 0, w, lpf);
    }
    assert forall|x: int, b: int|
        start_of_tile_row != 0 && f.layout != Rav1dPixelLayout::I400 && 0 <= x < f.sb128w && 0 <= b < shr_ss(
            sb_w4(f.w4 as int, x) + ss_hor,
            ss_hor,
        ) implies #[trigger] uv_in_one(new[x].filter_uv[1][uvs], b, uv_half_width(f, 1)) by {
        let hw = uv_half_width(f, 1);
        assert(tile_row_fixed(f, old, new, sby, start_of_tile_row, x));
        assert(tile_row_fixable(f, old, sby, start_of_tile_row, x));
        assert(uv_bits_apart(old[x].filter_uv[1][uvs], hw));
        let a = tile_row_a(f, start_of_tile_row, x);
        let lpf = f.a_tx_lpf_uv@[a]@;
        let cw = shr_ss(sb_w4(f.w4 as int, x) + ss_hor, ss_hor);
        assert forall|c: int| 0 <= c < cw implies capped_level(uv_edge_level(old[x].filter_uv[1][uvs], c, hw), #[trigger] lpf[c - 0]) < 2 by {
            assert(lpf[c - 0] == f.a_tx_lpf_uv@[a][c]);
        }
        lemma_uv_edge_fix_never_raises(old[x].filter_uv[1][uvs], new[x].filter_uv[1][uvs], 0, cw, lpf, hw);
    }
}

proof fn lemma_y_mask_fix_idempotent(
    f: LoopFilterFrame,
    old: Seq<Av1Filter>,
    mid: Seq<Av1Filter>,
    new: Seq<Av1Filter>,
    sby: int,
    start_of_tile_row: int,
    i: int,
    d: int,
    p: int,
)
    requires
        sbrow_cols_fits(f, old, sby, start_of_tile_row),
        sbrow_cols_fixed(f, old, mid, sby, start_of_tile_row),
        sbrow_cols_fixed(f, mid, new, sby, start_of_tile_row),
        0 <= i < old.len(),
        0 <= d < 2,
        0 <= p < 32,
    ensures
        forall|l: int, h: int| 0 <= l < 3 && 0 <= h < 2 ==> #[trigger] new[i].filter_y[d][p][l][h] == mid[i].filter_y[d][p][l][h],
{
    let (ys, ye, uvs, uve) = sbrow_rows_in_area(f, sby);
    lemma_rows_in_area_bounds(f, old.len() as int, sby);
    if d == 0 && on_tile_col_y(f, tiles_end(f), i, p) {
        reveal(on_tile_col_y);
        let t = choose|t: int|
            1 <= t < tiles_end(f) && tile_x(#[trigger] f.col_start_sb@[t] as int, f.sb128 as int) == i && tile_bx4(
                f.col_start_sb@[t] as int,
                f.sb128 as int,
            ) == p;
        assert(tile_col_fixed(f, old, mid, sby, t));
        assert(tile_col_fixed(f, mid, new, sby, t));
        assert(tile_col_fixable(f, old, sby, t));
        let yi = lpf_y_idx(f, sby, t);
        let lpf = f.tx_lpf_right_edge_y@.subrange(yi, yi + ye - ys);
        assert forall|b: int| ys <= b < ye implies capped_level(y_edge_level(old[i].filter_y[0][p], b), #[trigger] lpf[b - ys]) < 3 by {
            assert(lpf[b - ys] == f.tx_lpf_right_edge_y@[yi + b - ys]);
        }
        lemma_fix_y_edge_idempotent(old[i].filter_y[0][p], mid[i].filter_y[0][p], new[i].filter_y[0][p], ys, ye, lpf);
    } else if d == 1 && start_of_tile_row != 0 && i < f.sb128w && p == ys {
        assert(tile_row_fixed(f, old, mid, sby, start_of_tile_row, i));
        assert(tile_row_fixed(f, mid, new, sby, start_of_tile_row, i));
        assert(tile_row_fixable(f, old, sby, start_of_tile_row, i));
        let a = tile_row_a(f, start_of_tile_row, i);
        let lpf = f.a_tx_lpf_y@[a]@;
        let w = sb_w4(f.w4 as int, i);
        assert forall|b: int| 0 <= b < w implies capped_level(y_edge_level(old[i].filter_y[1][p], b), #[trigger] lpf[b - 0]) < 3 by {
            assert(lpf[b - 0] == f.a_tx_lpf_y@[a][b]);
        }
        lemma_fix_y_edge_idempotent(old[i].filter_y[1][p], mid[i].filter_y[1][p], new[i].filter_y[1][p], 0, w, lpf);
    } else {
        assert(new[i].filter_y[d][p] == mid[i].filter_y[d][p]);
    }
}

proof fn lemma_uv_mask_fix_idempotent(
    f: LoopFilterFrame,
    old: Seq<Av1Filter>,
    mid: Seq<Av1Filter>,
    new: Seq<Av1Filter>,
    sby: int,
    start_of_tile_row: int,
    i: int,
    d: int,
    p: int,
)
    requires
        sbrow_cols_fits(f, old, sby, start_of_tile_row),
        sbrow_cols_fixed(f, old, mid, sby, start_of_tile_row),
        sbrow_cols_fixed(f, mid, new, sby, start_of_tile_row),
        0 <= i < old.len(),
        0 <= d < 2,
        0 <= p < 32,
    ensures
        forall|l: int, h: int| 0 <= l < 2 && 0 <= h < 2 ==> #[trigger] new[i].filter_uv[d][p][l][h] == mid[i].filter_uv[d][p][l][h],
{
    let (ys, ye, uvs, uve) = sbrow_rows_in_area(f, sby);
    let hw = uv_half_width(f, d);
    lemma_rows_in_area_bounds(f, old.len() as int, sby);
    if d == 0 && f.layout != Rav1dPixelLayout::I400 && on_tile_col_uv(f, tiles_end(f), i, p) {
        reveal(on_tile_col_uv);
        let t = choose|t: int|
            1 <= t < tiles_end(f) && tile_x(#[trigger] f.col_start_sb@[t] as int, f.sb128 as int) == i && shr_ss(
                tile_bx4(f.col_start_sb@[t] as int, f.sb128 as int),
                layout_ss_hor(f.layout),
            ) == p;
        assert(tile_col_fixed(f, old, mid, sby, t));
        assert(tile_col_fixed(f, mid, new, sby, t));
        assert(tile_col_fixable(f, old, sby, t));
        let ui = lpf_uv_idx(f, sby, t);
        let lpf = f.tx_lpf_right_edge_uv@.subrange(ui, ui + uve - uvs);
        assert forall|b: int| uvs <= b < uve implies capped_level(uv_edge_level(old[i].filter_uv[0][p], b, hw), #[trigger] lpf[b - uvs])
            < 2 by {
            assert(lpf[b - uvs] == f.tx_lpf_right_edge_uv@[ui + b - uvs]);
        }
        lemma_fix_uv_edge_idempotent(old[i].filter_uv[0][p], mid[i].filter_uv[0][p], new[i].filter_uv[0][p], uvs, uve, lpf, hw);
    } else if d == 1 && start_of_tile_row != 0 && i < f.sb128w && p == row_fix_uvpos(f, sby) {
        assert(tile_row_fixed(f, old, mid, sby, start_of_tile_row, i));
        assert(tile_row_fixed(f, mid, new, sby, start_of_tile_row, i));
        assert(tile_row_fixable(f, old, sby, start_of_tile_row, i));
        let a = tile_row_a(f, start_of_tile_row, i);
        let lpf = f.a_tx_lpf_uv@[a]@;
        let ss_hor = layout_ss_hor(f.layout);
        let cw = shr_ss(sb_w4(f.w4 as int, i) + ss_hor, ss_hor);
        assert forall|b: int| 0 <= b < cw implies capped_level(uv_edge_level(old[i].filter_uv[1][p], b, hw), #[trigger] lpf[b - 0]) < 2 by {
            assert(lpf[b - 0] == f.a_tx_lpf_uv@[a][b]);
        }
        lemma_fix_uv_edge_idempotent(old[i].filter_uv[1][p], mid[i].filter_uv[1][p], new[i].filter_uv[1][p], 0, cw, lpf, hw);
    } else {
        assert(new[i].filter_uv[d][p] == mid[i].filter_uv[d][p]);
    }
}

/// Filtering a superblock row between block columns a second time, with the
/// same frame, changes no mask: after the second pass every mask word is
/// what the first pass left.
pub proof fn lemma_sbrow_cols_fix_idempotent(
    f: LoopFilterFrame,
    old: Seq<Av1Filter>,
    mid: Seq<Av1Filter>,
    new: Seq<Av1Filter>,
    sby: int,
    start_of_tile_row: int,
)
    requires
        sbrow_cols_fits(f, old, sby, start_of_tile_row),
        sbrow_cols_fixed(f, old, mid, sby, start_of_tile_row),
        sbrow_cols_fixed(f, mid, new, sby, start_of_tile_row),
    ensures
        new.len() == mid.len(),
        forall|i: int, d: int, p: int, l: int, h: int|
            0 <= i < mid.len() && 0 <= d < 2 && 0 <= p < 32 && 0 <= l < 3 && 0 <= h < 2 ==> #[trigger] new[i].filter_y[d][p][l][h]
                == mid[i].filter_y[d][p][l][h],
        forall|i: int, d: int, p: int, l: int, h: int|
            0 <= i < mid.len() && 0 <= d < 2 && 0 <= p < 32 && 0 <= l < 2 && 0 <= h < 2 ==> #[trigger] new[i].filter_uv[d][p][l][h]
                == mid[i].filter_uv[d][p][l][h],
{
    assert forall|i: int, d: int, p: int, l: int, h: int|
        0 <= i < mid.len() && 0 <= d < 2 && 0 <= p < 32 && 0 <= l < 3 && 0 <= h < 2 implies #[trigger] new[i].filter_y[d][p][l][h]
        == mid[i].filter_y[d][p][l][h] by {
        lemma_y_mask_fix_idempotent(f, old, mid, new, sby, start_of_tile_row, i, d, p);
    }
    assert forall|i: int, d: int, p: int, l: int, h: int|
        0 <= i < mid.len() && 0 <= d < 2 && 0 <= p < 32 && 0 <= l < 2 && 0 <= h < 2 implies #[trigger] new[i].filter_uv[d][p][l][h]
        == mid[i].filter_uv[d][p][l][h] by {
        lemma_uv_mask_fix_idempotent(f, old, mid, new, sby, start_of_tile_row, i, d, p);
    }
}

/// The masks that filtering a superblock row between block columns leaves
/// admit filtering the row again with the same frame: every bit on a
/// boundary already stands at a level that the boundary allows.
pub proof fn lemma_sbrow_cols_fix_admits_repeat(
    f: LoopFilterFrame,
    old: Seq<Av1Filter>,
    mid: Seq<Av1Filter>,
    sby: int,
    start_of_tile_row: int,
)
    requires
        sbrow_cols_fits(f, old, sby, start_of_tile_row),
        sbrow_cols_fixed(f, old, mid, sby, start_of_tile_row),
    ensures
        sbrow_cols_fits(f, mid, sby, start_of_tile_row),
{
    let (ys, ye, uvs, uve) = sbrow_rows_in_area(f, sby);
    lemma_rows_in_area_bounds(f, old.len() as int, sby);
    assert forall|t: int| 1 <= t < tiles_end(f) implies #[trigger] tile_col_fixable(f, mid, sby, t) by {
        assert(tile_col_fixed(f, old, mid, sby, t));
        assert(tile_col_fixable(f, old, sby, t));
        let c = f.col_start_sb@[t] as int;
        let x = tile_x(c, f.sb128 as int);
        let bx4 = tile_bx4(c, f.sb128 as int);
        let cbx4 = shr_ss(bx4, layout_ss_hor(f.layout));
        let yi = lpf_y_idx(f, sby, t);
        let ui = lpf_uv_idx(f, sby, t);
        let lpf = f.tx_lpf_right_edge_y@.subrange(yi, yi + ye - ys);
        let lpf_uv = f.tx_lpf_right_edge_uv@.subrange(ui, ui + uve - uvs);
        assert forall|b: int| ys <= b < ye implies capped_level(
            y_edge_level(mid[x].filter_y[0][bx4], b),
            #[trigger] f.tx_lpf_right_edge_y@[yi + b - ys],
        ) < 3 by {
            assert(lpf[b - ys] == f.tx_lpf_right_edge_y@[yi + b - ys]);
            assert(capped_level(y_edge_level(old[x].filter_y[0][bx4], b), lpf[b - ys]) < 3);
            assert(pair_bit(mid[x].filter_y[0][bx4][1], b, 16) == (1 == capped_level(y_edge_level(old[x].filter_y[0][bx4], b), lpf[b - ys])));
            assert(pair_bit(mid[x].filter_y[0][bx4][2], b, 16) == (2 == capped_level(y_edge_level(old[x].filter_y[0][bx4], b), lpf[b - ys])));
        }
        if f.layout != Rav1dPixelLayout::I400 {
            let hw = half_width(layout_ss_ver(f.layout));
            assert forall|b: int| uvs <= b < uve implies capped_level(
                uv_edge_level(mid[x].filter_uv[0][cbx4], b, hw),
                #[trigger] f.tx_lpf_right_edge_uv@[ui + b - uvs],
            ) < 2 by {
                assert(lpf_uv[b - uvs] == f.tx_lpf_right_edge_uv@[ui + b - uvs]);
                assert(capped_level(uv_edge_level(old[x].filter_uv[0][cbx4], b, hw), lpf_uv[b - uvs]) < 2);
                assert(pair_bit(mid[x].filter_uv[0][cbx4][1], b, hw) == (1 == capped_level(
                    uv_edge_level(old[x].filter_uv[0][cbx4], b, hw),
                    lpf_uv[b - uvs],
                )));
            }
        }
    }
    if start_of_tile_row != 0 {
        assert forall|x: int| 0 <= x < f.sb128w implies #[trigger] tile_row_fixable(f, mid, sby, start_of_tile_row, x) by {
            assert(tile_row_fixed(f, old, mid, sby, start_of_tile_row, x));
            assert(tile_row_fixable(f, old, sby, start_of_tile_row, x));
            let a = tile_row_a(f, start_of_tile_row, x);
            let ss_hor = layout_ss_hor(f.layout);
            let w = sb_w4(f.w4 as int, x);
            let cw = shr_ss(w + ss_hor, ss_hor);
            let lpf = f.a_tx_lpf_y@[a]@;
            assert forall|b: int| 0 <= b < w implies capped_level(
                y_edge_level(mid[x].filter_y[1][ys], b),
                #[trigger] f.a_tx_lpf_y@[a][b],
            ) < 3 by {
                assert(lpf[b - 0] == f.a_tx_lpf_y@[a][b]);
                assert(capped_level(y_edge_level(old[x].filter_y[1][ys], b), lpf[b - 0]) < 3);
                assert(pair_bit(mid[x].filter_y[1][ys][1], b, 16) == (1 == capped_level(y_edge_level(old[x].filter_y[1][ys], b), lpf[b - 0])));
                assert(pair_bit(mid[x].filter_y[1][ys][2], b, 16) == (2 == capped_level(y_edge_level(old[x].filter_y[1][ys], b), lpf[b - 0])));
            }
            if f.layout != Rav1dPixelLayout::I400 {
                let hw = half_width(ss_hor);
                let lpf_uv = f.a_tx_lpf_uv@[a]@;
                assert forall|b: int| 0 <= b < cw implies capped_level(
                    uv_edge_level(mid[x].filter_uv[1][uvs], b, hw),
                    #[trigger] f.a_tx_lpf_uv@[a][b],
                ) < 2 by {
                    assert(lpf_uv[b - 0] == f.a_tx_lpf_uv@[a][b]);
                    assert(capped_level(uv_edge_level(old[x].filter_uv[1][uvs], b, hw), lpf_uv[b - 0]) < 2);
                    assert(pair_bit(mid[x].filter_uv[1][uvs][1], b, hw) == (1 == capped_level(
                        uv_edge_level(old[x].filter_uv[1][uvs], b, hw),
                        lpf_uv[b - 0],
                    )));
                }
            }
        }
    }
}

/// The first block row, inside its 128-pixel mask area, of superblock row
/// `sby` of a frame with 128-pixel superblocks where `sb128`.
pub open spec fn first_area_row(sb128: u8, sby: int) -> int {
    (sby * (if sb128 == 1 { 32int } else { 16int })) % 32
}

/// The block rows that superblock row `sby` holds in a frame `h4` block rows
/// high: `32` for 128-pixel superblocks, `16` for 64-pixel ones, fewer in the
/// last superblock row.
pub open spec fn sbrow_height(sb128: u8, sby: int, h4: int) -> int {
    let s: int = if sb128 == 1 { 32 } else { 16 };
    if h4 - sby * s < s { h4 - sby * s } else { s }
}

/// The tile-boundary fix of superblock row `sby` caps every edge bit by the
/// transform level across the boundary at the bit's own place in the frame:
/// at tile column boundary `t`, luma bit `b` of the boundary's mask (block
/// row `b` of the mask area, one of the superblock row's rows) by the
/// right-edge level of frame block row `sby * sbsz + (b - first row)` in the
/// `t`-th column of right-edge levels, columns `bh` rounded up to `32` rows
/// apart (chroma alike, in the chroma rows); at the tile row boundary, luma
/// bit `b` of superblock `x` by level `b` of the bottom edge of superblock
/// `x` of the tile row above, entry `sb128w * (start_of_tile_row - 1) + x`
/// (chroma alike).
#[verifier::spinoff_prover]
#[verifier::rlimit(60)]
pub proof fn lemma_sbrow_cols_fix_levels(
    f: LoopFilterFrame,
    old: Seq<Av1Filter>,
    new: Seq<Av1Filter>,
    sby: int,
    start_of_tile_row: int,
)
    requires
        sbrow_cols_fits(f, old, sby, start_of_tile_row),
        sbrow_cols_fixed(f, old, new, sby, start_of_tile_row),
    ensures
        ({
            let s: int = if f.sb128 == 1 { 32 } else { 16 };
            let ys = first_area_row(f.sb128, sby);
            let ye = ys + sbrow_height(f.sb128, sby, f.h4 as int);
            let ha: int = (f.bh + 31) / 32 * 32;
            forall|t: int, x: int, p: int, b: int, l: int|
                #![trigger pair_bit(new[x].filter_y[0][p][l], b, 16), f.col_start_sb@[t]]
                1 <= t < tiles_end(f) && x == (if f.sb128 == 1 { f.col_start_sb@[t] as int } else { f.col_start_sb@[t] as int / 2 }) && p == (if f.sb128
                    == 0 && f.col_start_sb@[t] % 2 == 1 { 16int } else { 0int }) && ys <= b < ye && 0 <= l < 3 ==> pair_bit(
                    new[x].filter_y[0][p][l],
                    b,
                    16,
                ) == (l == capped_level(
                    y_edge_level(old[x].filter_y[0][p], b),
                    f.tx_lpf_right_edge_y@[(t - 1) * ha + sby * s + (b - ys)],
                ))
        }),
        ({
            let s: int = if f.sb128 == 1 { 32 } else { 16 };
            let ss_ver: int = if f.layout == Rav1dPixelLayout::I420 { 1 } else { 0 };
            let ss_hor: int = if f.layout != Rav1dPixelLayout::I444 { 1 } else { 0 };
            let ys = first_area_row(f.sb128, sby);
            let ye = ys + sbrow_height(f.sb128, sby, f.h4 as int);
            let uvs = ys / (ss_ver + 1);
            let uve = (ye + ss_ver) / (ss_ver + 1);
            let ha: int = (f.bh + 31) / 32 * 32;
            let hw: int = 16int / (ss_ver + 1);
            f.layout != Rav1dPixelLayout::I400 ==> forall|t: int, x: int, p: int, b: int, l: int|
                #![trigger pair_bit(new[x].filter_uv[0][p][l], b, hw), f.col_start_sb@[t]]
                1 <= t < tiles_end(f) && x == (if f.sb128 == 1 { f.col_start_sb@[t] as int } else { f.col_start_sb@[t] as int / 2 }) && p == (if f.sb128
                    == 0 && f.col_start_sb@[t] % 2 == 1 { 16int } else { 0int }) / (ss_hor + 1) && uvs <= b < uve && 0 <= l < 2 ==> pair_bit(
                    new[x].filter_uv[0][p][l],
                    b,
                    hw,
                ) == (l == capped_level(
                    uv_edge_level(old[x].filter_uv[0][p], b, hw),
                    f.tx_lpf_right_edge_uv@[(t - 1) * (ha / (ss_ver + 1)) + sby * s / (ss_ver + 1) + (b - uvs)],
                ))
        }),
        ({
            let ys = first_area_row(f.sb128, sby);
            start_of_tile_row != 0 ==> forall|x: int, b: int, l: int|
                0 <= x < f.sb128w && 0 <= b < 32 && b < f.w4 - 32 * x && 0 <= l < 3 ==> #[trigger] pair_bit(new[x].filter_y[1][ys][l], b, 16)
                    == (l == capped_level(
                    y_edge_level(old[x].filter_y[1][ys], b),
                    f.a_tx_lpf_y@[f.sb128w * (start_of_tile_row - 1) + x][b],
                ))
        }),
        ({
            let ss_ver: int = if f.layout == Rav1dPixelLayout::I420 { 1 } else { 0 };
            let ss_hor: int = if f.layout != Rav1dPixelLayout::I444 { 1 } else { 0 };
            let uvs = first_area_row(f.sb128, sby) / (ss_ver + 1);
            let hw: int = 16int / (ss_hor + 1);
            start_of_tile_row != 0 && f.layout != Rav1dPixelLayout::I400 ==> forall|x: int, b: int, l: int|
                0 <= x < f.sb128w && 0 <= b < 32int / (ss_hor + 1) && b < (f.w4 - 32 * x + ss_hor) / (ss_hor + 1) && 0 <= l < 2
                    ==> #[trigger] pair_bit(new[x].filter_uv[1][uvs][l], b, hw) == (l == capped_level(
                    uv_edge_level(old[x].filter_uv[1][uvs], b, hw),
                    f.a_tx_lpf_uv@[f.sb128w * (start_of_tile_row - 1) + x][b],
                ))
        }),
{
    let (ys, ye, uvs, uve) = sbrow_rows_in_area(f, sby);
    let s: int = if f.sb128 == 1 { 32 } else { 16 };
    let ss_ver: int = if f.layout == Rav1dPixelLayout::I420 { 1 } else { 0 };
    let ss_hor: int = if f.layout != Rav1dPixelLayout::I444 { 1 } else { 0 };
    lemma_rows_in_area_bounds(f, old.len() as int, sby);
    lemma_area_rows(f.sb128, sby, f.h4 as int);
    assert(ys == first_area_row(f.sb128, sby));
    assert(ye == ys + sbrow_height(f.sb128, sby, f.h4 as int));
    assert forall|t: int, x: int, p: int, b: int, l: int|
        #![trigger pair_bit(new[x].filter_y[0][p][l], b, 16), f.col_start_sb@[t]]
        1 <= t < tiles_end(f) && x == (if f.sb128 == 1 { f.col_start_sb@[t] as int } else { f.col_start_sb@[t] as int / 2 }) && p == (if f.sb128 == 0
            && f.col_start_sb@[t] % 2 == 1 { 16int } else { 0int }) && ys <= b < ye && 0 <= l < 3 implies pair_bit(new[x].filter_y[0][p][l], b, 16)
        == (l == capped_level(
        y_edge_level(old[x].filter_y[0][p], b),
        f.tx_lpf_right_edge_y@[(t - 1) * ((f.bh + 31) / 32 * 32) + sby * s + (b - ys)],
    )) by {
        assert(tile_col_fixed(f, old, new, sby, t));
        let yi = lpf_y_idx(f, sby, t);
        assert(yi == (t - 1) * ((f.bh + 31) / 32 * 32) + sby * s);
        let sub = f.tx_lpf_right_edge_y@.subrange(yi, yi + ye - ys);
        assert(sub[b - ys] == f.tx_lpf_right_edge_y@[yi + (b - ys)]);
    }
    if f.layout != Rav1dPixelLayout::I400 {
        let hw: int = 16int / (ss_ver + 1);
        assert(hw == half_width(layout_ss_ver(f.layout)));
        assert(uvs == ys / (ss_ver + 1) && uve == (ye + ss_ver) / (ss_ver + 1));
        assert forall|t: int, x: int, p: int, b: int, l: int|
            #![trigger pair_bit(new[x].filter_uv[0][p][l], b, hw), f.col_start_sb@[t]]
            1 <= t < tiles_end(f) && x == (if f.sb128 == 1 { f.col_start_sb@[t] as int } else { f.col_start_sb@[t] as int / 2 }) && p == (if f.sb128
                == 0 && f.col_start_sb@[t] % 2 == 1 { 16int } else { 0int }) / (ss_hor + 1) && uvs <= b < uve && 0 <= l < 2 implies pair_bit(
            new[x].filter_uv[0][p][l],
            b,
            hw,
        ) == (l == capped_level(
            uv_edge_level(old[x].filter_uv[0][p], b, hw),
            f.tx_lpf_right_edge_uv@[(t - 1) * (((f.bh + 31) / 32 * 32) / (ss_ver + 1)) + sby * s / (ss_ver + 1) + (b - uvs)],
        )) by {
            assert(tile_col_fixed(f, old, new, sby, t));
            let ui = lpf_uv_idx(f, sby, t);
            assert(ui == (t - 1) * (((f.bh + 31) / 32 * 32) / (ss_ver + 1)) + sby * s / (ss_ver + 1));
            assert(p == shr_ss(tile_bx4(f.col_start_sb@[t] as int, f.sb128 as int), layout_ss_hor(f.layout)));
            let sub = f.tx_lpf_right_edge_uv@.subrange(ui, ui + uve - uvs);
            assert(sub[b - uvs] == f.tx_lpf_right_edge_uv@[ui + (b - uvs)]);
        }
    }
    if start_of_tile_row != 0 {
        assert forall|x: int, b: int, l: int|
            0 <= x < f.sb128w && 0 <= b < 32 && b < f.w4 - 32 * x && 0 <= l < 3 implies #[trigger] pair_bit(new[x].filter_y[1][ys][l], b, 16)
            == (l == capped_level(
            y_edge_level(old[x].filter_y[1][ys], b),
            f.a_tx_lpf_y@[f.sb128w * (start_of_tile_row - 1) + x][b],
        )) by {
            assert(tile_row_fixed(f, old, new, sby, start_of_tile_row, x));
            assert(tile_row_a(f, start_of_tile_row, x) == f.sb128w * (start_of_tile_row - 1) + x);
            assert(b < sb_w4(f.w4 as int, x));
        }
        if f.layout != Rav1dPixelLayout::I400 {
            let hw: int = 16int / (ss_hor + 1);
            assert(hw == half_width(layout_ss_hor(f.layout)));
            assert forall|x: int, b: int, l: int|
                0 <= x < f.sb128w && 0 <= b < 32int / (ss_hor + 1) && b < (f.w4 - 32 * x + ss_hor) / (ss_hor + 1) && 0 <= l < 2 implies #[trigger] pair_bit(
                new[x].filter_uv[1][uvs][l],
                b,
                hw,
            ) == (l == capped_level(
                uv_edge_level(old[x].filter_uv[1][uvs], b, hw),
                f.a_tx_lpf_uv@[f.sb128w * (start_of_tile_row - 1) + x][b],
            )) by {
                assert(tile_row_fixed(f, old, new, sby, start_of_tile_row, x));
                assert(tile_row_a(f, start_of_tile_row, x) == f.sb128w * (start_of_tile_row - 1) + x);
                assert(b < shr_ss(sb_w4(f.w4 as int, x) + ss_hor, ss_hor));
            }
        }
    }
}

/// Superblock row `sby` starts at its first row inside its mask area and
/// holds as many block rows as it has.
pub proof fn lemma_area_rows(sb128: u8, sby: int, h4: int)
    requires
        sb128 <= 1,
        0 <= sby,
    ensures
        sbrow_starty4(sb128 as int, sby) == first_area_row(sb128, sby),
        sbrow_endy4(sb128 as int, sby, h4) == first_area_row(sb128, sby) + sbrow_height(sb128, sby, h4),
{
    if sb128 == 1 {
        assert((sby * 32) % 32 == 0) by (nonlinear_arith);
    } else {
        assert((sby * 16) % 32 == (if sby % 2 == 1 { 16int } else { 0int })) by (nonlinear_arith)
            requires
                0 <= sby,
        ;
    }
}

/// The superblock rows of a frame `h4` block rows high cover it row by row:
/// superblock row `sby` (`32` block rows for 128-pixel superblocks, `16`
/// for 64-pixel ones) starts at row `(sby * sbsz) % 32` of its mask area and
/// holds the frame's block rows from `sby * sbsz` up to the next superblock
/// row's first or the frame's bottom, whichever comes first.
pub proof fn lemma_sbrow_rows_cover_frame(sb128: u8, h4: int)
    requires
        sb128 <= 1,
        0 <= h4,
    ensures
        forall|sby: int|
            0 <= sby && sby * (if sb128 == 1 { 32int } else { 16int }) <= h4 ==> {
                let s: int = if sb128 == 1 { 32 } else { 16 };
                &&& sbrow_starty4(sb128 as int, sby) == (sby * s) % 32
                &&& sby * s + (#[trigger] sbrow_endy4(sb128 as int, sby, h4) - sbrow_starty4(sb128 as int, sby)) == if (sby + 1) * s
                    <= h4 { (sby + 1) * s } else { h4 }
                &&& sbrow_endy4(sb128 as int, sby, h4) <= 32
            },
{
    assert forall|sby: int| 0 <= sby && sby * (if sb128 == 1 { 32int } else { 16int }) <= h4 implies {
        let s: int = if sb128 == 1 { 32 } else { 16 };
        &&& sbrow_starty4(sb128 as int, sby) == (sby * s) % 32
        &&& sby * s + (#[trigger] sbrow_endy4(sb128 as int, sby, h4) - sbrow_starty4(sb128 as int, sby)) == if (sby + 1) * s <= h4 {
            (sby + 1) * s
        } else {
            h4
        }
        &&& sbrow_endy4(sb128 as int, sby, h4) <= 32
    } by {
        lemma_area_rows(sb128, sby, h4);
        let s: int = if sb128 == 1 { 32 } else { 16 };
        assert((sby + 1) * s == sby * s + s) by (nonlinear_arith);
    }
}

/// The chroma rows of a superblock row inside its mask area are its luma
/// rows halved where the picture is vertically subsampled, the last one
/// rounded up.
pub proof fn lemma_sbrow_chroma_rows(f: LoopFilterFrame, sby: int)
    ensures
        ({
            let (ys, ye, uvs, uve) = sbrow_rows_in_area(f, sby);
            let ss_ver: int = if f.layout == Rav1dPixelLayout::I420 { 1 } else { 0 };
            uvs == ys / (ss_ver + 1) && uve == (ye + ss_ver) / (ss_ver + 1)
        }),
{
    let (ys, ye, uvs, uve) = sbrow_rows_in_area(f, sby);
    let ss_ver: int = if f.layout == Rav1dPixelLayout::I420 { 1 } else { 0 };
    assert(ss_ver == layout_ss_ver(f.layout));
    if ss_ver == 0 {
        assert(ys / 1 == ys && (ye + 0) / 1 == ye);
    }
}

} // verus!
