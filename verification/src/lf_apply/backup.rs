use vstd::prelude::*;
use super::shr_ss;
use super::Rav1dPixelLayout;

verus! {

/// The luma rows that the first stripe of a superblock row spans before
/// subsampling: `64`, or `128` for a CDEF backup of 128-pixel superblocks,
/// less the `8` rows by which the first stripe of the frame is shorter.
pub open spec fn first_stripe_rows(lr_backup: int, sb128: int, row: int) -> int {
    (if lr_backup == 0 && sb128 == 1 { 128int } else { 64int }) - (if row == 0 { 8int } else { 0int })
}

/// The height of the first stripe, in rows of the plane: the luma rows
/// halved where the plane is vertically subsampled.
pub open spec fn first_stripe_h(lr_backup: int, sb128: int, row: int, ss_ver: int) -> int {
    if ss_ver == 1 {
        first_stripe_rows(lr_backup, sb128, row) / 2
    } else {
        first_stripe_rows(lr_backup, sb128, row)
    }
}

/// The height of every later stripe, in rows of the plane: `64 >> ss_ver`.
pub open spec fn stripe_h(ss_ver: int) -> int {
    if ss_ver == 1 { 32 } else { 64 }
}

/// The row at the bottom edge of stripe `k`, counted from the top of the plane.
pub open spec fn stripe_edge(row: int, sh0: int, sh: int, k: int) -> int {
    row + sh0 + k * sh
}

/// How many stripes end at or above `row_h`.
pub open spec fn stripe_count(row: int, sh0: int, sh: int, row_h: int) -> int {
    if row + sh0 <= row_h { (row_h - row - sh0) / sh + 1 } else { 0 }
}

/// Stripe `k` of `stripes` is the one whose bottom edge is
/// `stripe_edge(row, sh0, sh, k)`, in a plane of height `h`.
pub open spec fn stripes_from(stripes: Seq<LpfStripe>, row: int, sh0: int, sh: int, h: int) -> bool {
    forall|k: int|
        0 <= k < stripes.len() ==> #[trigger] stripes[k].src_row == stripe_edge(row, sh0, sh, k) - 2
            && stripes[k].n_lines == (if stripe_edge(row, sh0, sh, k) + 1 == h { 3int } else { 4int })
}

/// The four lines saved at the bottom edge of one stripe: the first is plane
/// row `src_row` (two rows above the edge); `n_lines` of them come from the
/// picture, and where that is `3` (the edge lies right above the last row of
/// the plane) the fourth repeats the third.
#[derive(Clone, Copy, Debug)]
pub struct LpfStripe {
    pub src_row: i32,
    pub n_lines: i32,
}

/// What saving the pixel rows around the stripe edges of one superblock row
/// of one plane into a line buffer consists of.
#[derive(Debug)]
pub struct LpfBackupPlan {
    /// Copy first the four lines kept for the previous superblock row, found
    /// `top_distance` lines further on in the buffer, to the front of it.
    pub top_copy: bool,
    pub top_distance: usize,
    /// The buffer line at which the stripes' lines start.
    pub first_line: usize,
    /// Whether each stripe goes through the horizontal resize filter (loop
    /// restoration of a super-resolved frame) rather than a plain copy.
    pub resize: bool,
    /// Pixels per line of the top copy and of the resized lines.
    pub dst_w: usize,
    /// Pixels per line read from the picture: the width of a plain copy, and
    /// the source width handed to the resize filter.
    pub src_w: usize,
    /// The step and start position handed to the resize filter: those of the
    /// plane's horizontal subsampling.
    pub resize_step: i32,
    pub resize_start: i32,
    /// The stripes, from the top down, four buffer lines each.
    pub stripes: Vec<LpfStripe>,
}

/// The stripes of a superblock row are exactly those whose bottom edge lies
/// at or above `row_h`: their edges rise by the stripe height, the last one
/// is at or above `row_h` and the next one would be below it.
pub proof fn lemma_stripes_end_at_row_h(row: int, sh0: int, sh: int, row_h: int)
    requires
        sh0 > 0,
        sh > 0,
    ensures
        forall|k: int|
            0 <= k < stripe_count(row, sh0, sh, row_h) ==> #[trigger] stripe_edge(row, sh0, sh, k) <= row_h
                && stripe_edge(row, sh0, sh, k + 1) == stripe_edge(row, sh0, sh, k) + sh,
        stripe_edge(row, sh0, sh, stripe_count(row, sh0, sh, row_h)) > row_h,
{
    let n = stripe_count(row, sh0, sh, row_h);
    assert forall|k: int| 0 <= k < n implies #[trigger] stripe_edge(row, sh0, sh, k) <= row_h
        && stripe_edge(row, sh0, sh, k + 1) == stripe_edge(row, sh0, sh, k) + sh by {
        lemma_step_mul(k, sh);
        let q = (row_h - row - sh0) / sh;
        assert(k <= q);
        assert(k * sh <= q * sh <= row_h - row - sh0) by (nonlinear_arith)
            requires
                0 <= k <= q,
                sh > 0,
                q == (row_h - row - sh0) / sh,
                row_h - row - sh0 >= 0,
        ;
    }
    if row + sh0 <= row_h {
        let q = (row_h - row - sh0) / sh;
        assert(n * sh > row_h - row - sh0) by (nonlinear_arith)
            requires
                n == q + 1,
                sh > 0,
                q == (row_h - row - sh0) / sh,
        ;
    }
}

/// `k` steps of `h` and one more are `k + 1` steps.
pub(crate) proof fn lemma_step_mul(k: int, h: int)
    by (nonlinear_arith)
    ensures
        k * h + h == (k + 1) * h,
{
}

proof fn lemma_div_exact(x: int, d: int, q: int)
    by (nonlinear_arith)
    requires
        d > 0,
        q * d <= x < (q + 1) * d,
    ensures
        x / d == q,
{
}

/// Plans the backup of the pixel rows around the stripe edges of one
/// superblock row of one plane (rows `row..row_h`, frame height `h`) into a
/// line buffer, for loop restoration (`lr_backup != 0`) or for CDEF.
/// `single_thread` tells whether the buffer keeps the previous superblock
/// row's lines in front; `super_res` and `frame_w` (the coded and upscaled
/// widths) come from the frame header, `resize_step` and `resize_start` (for
/// luma and for subsampled chroma) from the frame's resize setup.
#[verifier::spinoff_prover]
pub fn backup_lpf(
    single_thread: bool,
    ss_ver: i32,
    sb128: u8,
    row: i32,
    row_h: i32,
    src_w: i32,
    h: i32,
    ss_hor: i32,
    lr_backup: i32,
    super_res: bool,
    frame_w: [i32; 2],
    resize_step: [i32; 2],
    resize_start: [i32; 2],
) -> (plan: LpfBackupPlan)
    requires
        0 <= ss_ver <= 1,
        0 <= ss_hor <= 1,
        sb128 <= 1,
        0 <= src_w,
        0 <= frame_w[1] < i32::MAX,
        row <= i32::MAX - 129,
        row_h <= i32::MAX - 65,
    ensures
        plan.top_copy == (single_thread && row != 0),
        plan.top_distance == 4usize << sb128,
        plan.first_line == if single_thread { 4usize } else { 0usize },
        plan.resize == (lr_backup != 0 && frame_w[0] != frame_w[1]),
        plan.dst_w == if super_res { ((frame_w[1] + ss_hor) / (if ss_hor == 1 { 2int } else { 1int })) as usize } else { src_w as usize },
        plan.src_w == src_w,
        plan.resize_step == resize_step[ss_hor as int],
        plan.resize_start == resize_start[ss_hor as int],
        plan.stripes@.len() == stripe_count(
            row as int,
            first_stripe_h(lr_backup as int, sb128 as int, row as int, ss_ver as int),
            stripe_h(ss_ver as int),
            row_h as int,
        ),
        stripes_from(
            plan.stripes@,
            row as int,
            first_stripe_h(lr_backup as int, sb128 as int, row as int, ss_ver as int),
            stripe_h(ss_ver as int),
            h as int,
        ),
{
    let cdef_backup: i32 = if lr_backup == 0 { 1 } else { 0 };
    let dst_w: usize = if super_res {
        ((frame_w[1] + ss_hor) as usize) >> (ss_hor as usize)
    } else {
        src_w as usize
    };
    assert(dst_w == if super_res { ((frame_w[1] + ss_hor) / (if ss_hor == 1 { 2int } else { 1int })) as usize } else { src_w as usize }) by {
        if super_res {
            let x = (frame_w[1] + ss_hor) as usize;
            if ss_hor == 1 {
                assert(x >> 1usize == x / 2) by (bit_vector);
            } else {
                assert(x >> 0usize == x) by (bit_vector);
            }
        }
    }
    let base: i32 = if cdef_backup == 1 && sb128 == 1 { 128 } else { 64 };
    let first_rows: i32 = base - if row == 0 { 8 } else { 0 };
    let mut stripe: i32 = if ss_ver == 1 { first_rows / 2 } else { first_rows };
    let ghost sh0: int = stripe as int;
    let later: i32 = if ss_ver == 1 { 32 } else { 64 };
    let ghost sh: int = later as int;
    assert(sh0 == first_stripe_h(lr_backup as int, sb128 as int, row as int, ss_ver as int));
    assert(sh == stripe_h(ss_ver as int));
    let top_distance: usize = 4usize << (sb128 as usize);
    let first_line: usize = if single_thread { 4 } else { 0 };
    let resize = lr_backup != 0 && frame_w[0] != frame_w[1];
    let mut stripes: Vec<LpfStripe> = Vec::new();
    let mut r: i32 = row;
    while r + stripe <= row_h
        invariant
            row <= i32::MAX - 129,
            row_h <= i32::MAX - 65,
            sh == later,
            later == 32 || later == 64,
            24 <= sh0 <= 128,
            stripe == if stripes@.len() == 0 { sh0 } else { sh },
            r + stripe == stripe_edge(row as int, sh0, sh, stripes@.len() as int),
            stripes@.len() == 0 || stripe_edge(row as int, sh0, sh, stripes@.len() - 1) <= row_h,
            r + stripe <= i32::MAX - 1,
            r >= row,
            stripes_from(stripes@, row as int, sh0, sh, h as int),
        decreases row_h - r,
    {
        let edge: i32 = r + stripe;
        let n_lines: i32 = 4 - if edge + 1 == h { 1i32 } else { 0i32 };
        let ghost old_stripes = stripes@;
        let ghost k = stripes@.len() as int;
        assert(edge == stripe_edge(row as int, sh0, sh, k));
        let new_stripe = LpfStripe { src_row: edge - 2, n_lines };
        stripes.push(new_stripe);
        assert(stripes@ == old_stripes.push(new_stripe));
        assert forall|j: int|
            0 <= j < stripes@.len() implies #[trigger] stripes@[j].src_row == stripe_edge(row as int, sh0, sh, j) - 2
                && stripes@[j].n_lines == (if stripe_edge(row as int, sh0, sh, j) + 1 == h { 3int } else { 4int }) by {
            if j < k {
                assert(stripes@[j] == old_stripes[j]);
            }
        }
        assert((k + 1) * sh == k * sh + sh) by (nonlinear_arith);
        r = edge;
        stripe = later;
    }
    let ghost k = stripes@.len() as int;
    assert(stripes@.len() == stripe_count(row as int, sh0, sh, row_h as int)) by {
        if k > 0 {
            assert((k - 1) * sh + sh == k * sh) by (nonlinear_arith);
            lemma_div_exact(row_h - row - sh0, sh, k - 1);
        }
    }
    let plan = LpfBackupPlan {
        top_copy: single_thread && row != 0,
        top_distance,
        first_line,
        resize,
        dst_w,
        src_w: src_w as usize,
        resize_step: resize_step[ss_hor as usize],
        resize_start: resize_start[ss_hor as usize],
        stripes,
    };
    plan
}

/// What one line written into a line buffer holds.
#[derive(Clone, Copy, PartialEq, Eq, Structural, Debug)]
pub enum LpfLineSource {
    /// The plane's row with this number, copied.
    Picture(i32),
    /// The plane's row with this number, through the horizontal resize filter.
    Resized(i32),
    /// The buffer's line that starts at this pixel offset, copied.
    Buffer(usize),
}

/// One line written into a line buffer: `w` pixels from pixel offset `dst`.
#[derive(Clone, Copy, PartialEq, Eq, Structural, Debug)]
pub struct LpfLineWrite {
    pub dst: usize,
    pub src: LpfLineSource,
    pub w: usize,
}

/// The pixel offset of line `line` of a backup that starts at pixel offset
/// `base`, for lines `stride` pixels apart (a negative stride runs upwards).
pub open spec fn buffer_line(base: int, stride: int, line: int) -> int {
    base + line * stride
}

/// The lines written by the copy of the previous superblock row's lines to
/// the front of the buffer.
pub open spec fn top_copy_writes(plan: LpfBackupPlan) -> int {
    if plan.top_copy { 4 } else { 0 }
}

/// How many lines from the backup's start a plan touches: those of the top
/// copy (its four target lines and the four source lines `top_distance`
/// further on) and four per stripe from `first_line` on.
pub open spec fn backup_lines_used(plan: LpfBackupPlan) -> int {
    let stripes = plan.first_line + 4 * plan.stripes@.len();
    if plan.top_copy && plan.top_distance + 4 > stripes { plan.top_distance + 4 } else { stripes }
}

/// The line that write `i` of the top copy goes to: the copy walks the four
/// lines in memory order, upwards in the picture for a negative stride.
pub open spec fn top_copy_line(i: int, stride: int) -> int {
    if stride < 0 { 3 - i } else { i }
}

/// What line `j` of a stripe holds: the stripe's rows from the picture,
/// resized or not, and where the stripe has only three, a copy of the line
/// above, at pixel offset `above`.
pub open spec fn stripe_line_source(resize: bool, st: LpfStripe, j: int, above: int) -> LpfLineSource {
    if j < st.n_lines {
        if resize { LpfLineSource::Resized((st.src_row + j) as i32) } else { LpfLineSource::Picture((st.src_row + j) as i32) }
    } else {
        LpfLineSource::Buffer(above as usize)
    }
}

/// Write `m` of the lines of `plan` for a backup at pixel offset `base` with
/// line stride `stride`: first the top copy, line `top_copy_line(m)` from
/// line `top_distance` further on; then four lines per stripe, line
/// `first_line + (m - top_copy_writes)` from the stripe's rows.
pub open spec fn backup_line_write(plan: LpfBackupPlan, base: int, stride: int, m: int, w: LpfLineWrite) -> bool {
    let t = top_copy_writes(plan);
    if m < t {
        let l = top_copy_line(m, stride);
        &&& w.dst == buffer_line(base, stride, l)
        &&& w.src == LpfLineSource::Buffer(buffer_line(base, stride, plan.top_distance + l) as usize)
        &&& w.w == plan.dst_w
    } else {
        let l = plan.first_line + (m - t);
        let st = plan.stripes@[(m - t) / 4];
        &&& w.dst == buffer_line(base, stride, l)
        &&& w.src == stripe_line_source(plan.resize, st, (m - t) % 4, buffer_line(base, stride, l - 1))
        &&& w.w == if plan.resize { plan.dst_w } else { plan.src_w }
    }
}

proof fn lemma_line_between(l: int, n: int, stride: int)
    by (nonlinear_arith)
    requires
        0 <= l <= n,
    ensures
        stride >= 0 ==> 0 <= l * stride <= n * stride,
        stride < 0 ==> n * stride <= l * stride <= 0,
        l * stride + stride == (l + 1) * stride,
{
}

proof fn lemma_abs_lines(n: int, s: int, abs: int)
    by (nonlinear_arith)
    requires
        abs == if s < 0 { -s } else { s },
    ensures
        n * abs == if s < 0 { -(n * s) } else { n * s },
        (n + 3) * s == n * s + 3 * s,
{
}

/// `off` moved by `n` lines of `stride` pixels, whose size is `abs`.
fn step_lines(off: usize, stride: isize, abs: usize, n: usize) -> (r: usize)
    requires
        abs == if stride < 0 { -stride } else { stride as int },
        0 <= off + n * stride <= usize::MAX,
    ensures
        r == off + n * stride,
{
    assert(n * abs == if stride < 0 { -(n * stride) } else { n * stride }) by (nonlinear_arith)
        requires
            abs == if stride < 0 { -stride } else { stride as int },
    ;
    if stride < 0 {
        off - n * abs
    } else {
        off + n * abs
    }
}

/// The lines that carrying out `plan` writes into a line buffer whose backup
/// starts at pixel offset `dst_offset`, with lines `px_stride` pixels apart:
/// the offsets are stepped along the lines as the buffer is walked, with the
/// size of the stride where a copy runs against a negative one.
#[verifier::spinoff_prover]
#[verifier::rlimit(40)]
pub fn backup_lpf_lines(plan: &LpfBackupPlan, dst_offset: usize, px_stride: isize) -> (writes: Vec<LpfLineWrite>)
    requires
        plan.top_distance <= 8,
        plan.first_line <= 4,
        forall|k: int|
            0 <= k < plan.stripes@.len() ==> (#[trigger] plan.stripes@[k].n_lines == 3 || plan.stripes@[k].n_lines == 4)
                && plan.stripes@[k].src_row <= i32::MAX - 3,
        backup_lines_used(*plan) > 0 ==> 0 <= buffer_line(dst_offset as int, px_stride as int, backup_lines_used(*plan) - 1)
            <= usize::MAX,
    ensures
        writes@.len() == top_copy_writes(*plan) + 4 * plan.stripes@.len(),
        forall|m: int| 0 <= m < writes@.len() ==> #[trigger] backup_line_write(*plan, dst_offset as int, px_stride as int, m, writes@[m]),
{
    let ghost base = dst_offset as int;
    let ghost s = px_stride as int;
    let ghost used = backup_lines_used(*plan);
    let abs: usize = if px_stride < 0 { ((-(px_stride + 1)) as usize) + 1 } else { px_stride as usize };
    assert forall|l: int| 0 <= l < used implies 0 <= #[trigger] buffer_line(base, s, l) <= usize::MAX by {
        lemma_line_between(l, used - 1, s);
    }
    let mut writes: Vec<LpfLineWrite> = Vec::new();
    let mut off: usize = dst_offset;
    if plan.top_copy {
        let top = plan.top_distance;
        proof {
            lemma_abs_lines(top as int, s, abs as int);
            lemma_abs_lines(3, s, abs as int);
            lemma_line_between(3, used - 1, s);
            lemma_line_between(top + 3, used - 1, s);
            assert(0 <= buffer_line(base, s, 3) <= usize::MAX);
            assert(0 <= buffer_line(base, s, top + 3) <= usize::MAX);
            assert(0 <= buffer_line(base, s, top as int) <= usize::MAX) by {
                lemma_line_between(top as int, used - 1, s);
            }
        }
        let top_size: usize = top * abs;
        let dst_idx: usize;
        let src_idx: usize;
        if px_stride < 0 {
            dst_idx = off - 3 * abs;
            src_idx = off - top_size - 3 * abs;
        } else {
            dst_idx = off;
            src_idx = off + top_size;
        }
        let mut i: usize = 0;
        while i < 4
            invariant
                plan.top_copy,
                top == plan.top_distance <= 8,
                i <= 4,
                writes@.len() == i,
                abs == if s < 0 { -s } else { s },
                s == px_stride,
                base == dst_offset,
                used == backup_lines_used(*plan),
                used >= top + 4,
                forall|l: int| 0 <= l < used ==> 0 <= #[trigger] buffer_line(base, s, l) <= usize::MAX,
                s < 0 ==> dst_idx == buffer_line(base, s, 3) && src_idx == buffer_line(base, s, top + 3),
                s >= 0 ==> dst_idx == base && src_idx == buffer_line(base, s, top as int),
                forall|m: int| 0 <= m < writes@.len() ==> #[trigger] backup_line_write(*plan, base, s, m, writes@[m]),
            decreases 4 - i,
        {
            let ghost l: int = if s < 0 { 3 - i } else { i as int };
            proof {
                lemma_abs_lines(i as int, s, abs as int);
                lemma_line_between(l, used - 1, s);
                lemma_line_between(top + l, used - 1, s);
                assert(0 <= buffer_line(base, s, l) <= usize::MAX);
                assert(0 <= buffer_line(base, s, top + l) <= usize::MAX);
                if s < 0 {
                    assert(buffer_line(base, s, 3) + i * abs == buffer_line(base, s, l)) by (nonlinear_arith)
                        requires
                            s < 0,
                            abs == -s,
                            l == 3 - i,
                    ;
                    assert(buffer_line(base, s, top + 3) + i * abs == buffer_line(base, s, top + l)) by (nonlinear_arith)
                        requires
                            s < 0,
                            abs == -s,
                            l == 3 - i,
                    ;
                } else {
                    assert(base + i * abs == buffer_line(base, s, l));
                    assert(buffer_line(base, s, top as int) + i * abs == buffer_line(base, s, top + l)) by (nonlinear_arith)
                        requires
                            s >= 0,
                            abs == s,
                            l == i,
                    ;
                }
            }
            let w = LpfLineWrite { dst: dst_idx + i * abs, src: LpfLineSource::Buffer(src_idx + i * abs), w: plan.dst_w };
            let ghost prev = writes@;
            writes.push(w);
            assert(backup_line_write(*plan, base, s, i as int, w));
            assert forall|m: int| 0 <= m < writes@.len() implies #[trigger] backup_line_write(*plan, base, s, m, writes@[m]) by {
                if m < prev.len() {
                    assert(writes@[m] == prev[m]);
                }
            }
            i = i + 1;
        }
    }
    let ghost t = top_copy_writes(*plan);
    let n = plan.stripes.len();
    if n > 0 {
        proof {
            lemma_line_between(plan.first_line as int, used - 1, s);
        }
        off = step_lines(off, px_stride, abs, plan.first_line);
    }
    let mut k: usize = 0;
    while k < n
        invariant
            k <= n == plan.stripes@.len(),
            plan.first_line <= 4,
            writes@.len() == t + 4 * k,
            t == top_copy_writes(*plan),
            abs == if s < 0 { -s } else { s },
            s == px_stride,
            base == dst_offset,
            used == backup_lines_used(*plan),
            used >= plan.first_line + 4 * n,
            forall|k: int|
                0 <= k < plan.stripes@.len() ==> (#[trigger] plan.stripes@[k].n_lines == 3 || plan.stripes@[k].n_lines == 4)
                    && plan.stripes@[k].src_row <= i32::MAX - 3,
            forall|l: int| 0 <= l < used ==> 0 <= #[trigger] buffer_line(base, s, l) <= usize::MAX,
            k < n ==> off == buffer_line(base, s, plan.first_line + 4 * k),
            forall|m: int| 0 <= m < writes@.len() ==> #[trigger] backup_line_write(*plan, base, s, m, writes@[m]),
        decreases n - k,
    {
        let st = plan.stripes[k];
        assert(plan.stripes@[k as int].n_lines == 3 || plan.stripes@[k as int].n_lines == 4);
        let w_px: usize = if plan.resize { plan.dst_w } else { plan.src_w };
        let mut j: usize = 0;
        while j < 4
            invariant
                k < n == plan.stripes@.len(),
                plan.first_line <= 4,
                j <= 4,
                st == plan.stripes@[k as int],
                st.n_lines == 3 || st.n_lines == 4,
                st.src_row <= i32::MAX - 3,
                w_px == if plan.resize { plan.dst_w } else { plan.src_w },
                writes@.len() == t + 4 * k + j,
                t == top_copy_writes(*plan),
                abs == if s < 0 { -s } else { s },
                s == px_stride,
                base == dst_offset,
                used == backup_lines_used(*plan),
                used >= plan.first_line + 4 * n,
                forall|l: int| 0 <= l < used ==> 0 <= #[trigger] buffer_line(base, s, l) <= usize::MAX,
                k + 1 < n || j < 4 ==> off == buffer_line(base, s, plan.first_line + 4 * k + j),
                forall|m: int| 0 <= m < writes@.len() ==> #[trigger] backup_line_write(*plan, base, s, m, writes@[m]),
            decreases 4 - j,
        {
            let ghost l = plan.first_line + 4 * k + j;
            proof {
                lemma_line_between(l, used - 1, s);
                if l >= 1 {
                    lemma_line_between(l - 1, used - 1, s);
                }
                crate::lf_apply::lemma_div4(k as int, j as int);
            }
            let src = if (j as i32) < st.n_lines {
                let row: i32 = st.src_row + j as i32;
                if plan.resize { LpfLineSource::Resized(row) } else { LpfLineSource::Picture(row) }
            } else {
                let above: usize = if px_stride < 0 { off + abs } else { off - abs };
                LpfLineSource::Buffer(above)
            };
            let ghost prev = writes@;
            writes.push(LpfLineWrite { dst: off, src, w: w_px });
            assert(backup_line_write(*plan, base, s, prev.len() as int, writes@[prev.len() as int]));
            assert forall|m: int| 0 <= m < writes@.len() implies #[trigger] backup_line_write(*plan, base, s, m, writes@[m]) by {
                if m < prev.len() {
                    assert(writes@[m] == prev[m]);
                }
            }
            if k + 1 < n || j < 3 {
                assert(0 <= buffer_line(base, s, l + 1) <= usize::MAX);
                off = step_lines(off, px_stride, abs, 1);
            }
            j = j + 1;
        }
        k = k + 1;
    }
    writes
}

/// The loop-restoration flag of the luma plane in `restore_planes`.
pub const LR_RESTORE_Y: i32 = 1;

/// The loop-restoration flag of the first chroma plane in `restore_planes`.
pub const LR_RESTORE_U: i32 = 2;

/// The loop-restoration flag of the second chroma plane in `restore_planes`.
pub const LR_RESTORE_V: i32 = 4;

/// The two line buffers that superblock-row edges are saved into.
#[derive(Clone, Copy, PartialEq, Eq, Structural, Debug)]
pub enum LineBuffer {
    /// Lines for loop restoration (and for CDEF where the frame is not resized).
    Restoration,
    /// Lines for CDEF of a resized frame decoded by several tile threads.
    Cdef,
}

/// One backup of a superblock row's stripe edges: of plane `plane` into
/// `buffer`, with the arguments that [`backup_lpf`] takes. The source
/// starts `src_rows_up` rows above the superblock row's first row. The
/// backup starts `dst_line` lines past where the plane's lines begin in the
/// buffer; its lines are spaced by the stride of the picture being filtered
/// where `picture_stride` holds (the CDEF buffer), by that of the
/// restoration buffer (the super-resolved picture's) otherwise.
#[derive(Clone, Copy, PartialEq, Eq, Structural, Debug)]
pub struct LpfBackupCall {
    pub plane: usize,
    pub buffer: LineBuffer,
    pub dst_line: i32,
    pub picture_stride: bool,
    pub src_rows_up: i32,
    pub ss_ver: i32,
    pub ss_hor: i32,
    pub row: i32,
    pub row_h: i32,
    pub w: i32,
    pub h: i32,
    pub lr_backup: i32,
}

/// The line stride that backup `call` writes with: the picture's where the
/// call says so (the CDEF buffer), that of the restoration buffer otherwise.
pub open spec fn call_stride(call: LpfBackupCall, buffer_stride: int, picture_stride: int) -> int {
    if call.picture_stride { picture_stride } else { buffer_stride }
}

/// Where backup `call` starts in its buffer, as a pixel offset, and the
/// stride of its lines: the plane's lines begin at pixel offset
/// `plane_start`, and the backup starts `dst_line` lines on, counted with the
/// stride it writes with (`buffer_stride`, or `picture_stride` where the call
/// writes with the picture's).
pub fn backup_start(call: &LpfBackupCall, plane_start: usize, buffer_stride: isize, picture_stride: isize) -> (r: (usize, isize))
    requires
        isize::MIN <= call.dst_line * call_stride(*call, buffer_stride as int, picture_stride as int) <= isize::MAX,
        0 <= plane_start + call.dst_line * call_stride(*call, buffer_stride as int, picture_stride as int) <= usize::MAX,
    ensures
        r.1 == call_stride(*call, buffer_stride as int, picture_stride as int),
        r.0 == plane_start + call.dst_line * r.1,
{
    let stride: isize = if call.picture_stride { picture_stride } else { buffer_stride };
    let off: isize = (call.dst_line as isize) * stride;
    let start: usize = if off < 0 { plane_start - ((-(off + 1)) as usize + 1) } else { plane_start + off as usize };
    (start, stride)
}

/// The backups of one plane: into the restoration buffer where the plane is
/// restored or the frame is not resized, and into the CDEF buffer where
/// several tile threads decode a resized frame.
pub open spec fn plane_backups(
    restored: bool,
    resize: bool,
    have_tt: bool,
    plane: usize,
    src_rows_up: i32,
    ss_ver: i32,
    ss_hor: i32,
    row: i32,
    row_h: i32,
    w: i32,
    h: i32,
    lr_line: i32,
    cdef_line: i32,
) -> Seq<LpfBackupCall> {
    (if restored || !resize {
        seq![
            LpfBackupCall {
                plane,
                buffer: LineBuffer::Restoration,
                dst_line: lr_line,
                picture_stride: false,
                src_rows_up,
                ss_ver,
                ss_hor,
                row,
                row_h,
                w,
                h,
                lr_backup: 1,
            },
        ]
    } else {
        seq![]
    }) + (if have_tt && resize {
        seq![
            LpfBackupCall {
                plane,
                buffer: LineBuffer::Cdef,
                dst_line: cdef_line,
                picture_stride: true,
                src_rows_up,
                ss_ver,
                ss_hor,
                row,
                row_h,
                w,
                h,
                lr_backup: 0,
            },
        ]
    } else {
        seq![]
    })
}

/// The lines of a buffer that one superblock row owns: four per stripe, with
/// two stripes in the restoration buffer for 128-pixel superblocks.
pub open spec fn sbrow_buffer_lines(buffer: LineBuffer, sb128: int) -> int {
    if buffer == LineBuffer::Restoration && sb128 == 1 { 8 } else { 4 }
}

/// The line, past where the plane's lines begin in `buffer`, at which the
/// backup of superblock row `sby` starts: under tile threading each
/// superblock row has lines of its own, in the CDEF buffer always; a single
/// thread reuses the restoration buffer's lines from the top.
pub open spec fn backup_first_line(buffer: LineBuffer, have_tt: bool, sby: int, sb128: int) -> int {
    if buffer == LineBuffer::Cdef || have_tt { sby * sbrow_buffer_lines(buffer, sb128) } else { 0 }
}

/// The rows of a superblock in a plane: `64` or `128` luma rows, halved
/// where the plane is vertically subsampled.
pub open spec fn sb_rows(sb128: int, ss_ver: int) -> int {
    (if sb128 == 1 { 128int } else { 64int }) / (if ss_ver == 1 { 2int } else { 1int })
}

/// The backups of the luma plane for superblock row `sby`.
pub open spec fn luma_backups(
    have_tt: bool,
    resize: bool,
    sby: int,
    cdef: u8,
    sb128: u8,
    restore_planes: i32,
    h: int,
    bw: int,
) -> Seq<LpfBackupCall> {
    let offset_y: int = if sby != 0 { 8 } else { 0 };
    let rows = sb_rows(sb128 as int, 0);
    if cdef != 0 || restore_planes & LR_RESTORE_Y != 0 {
        plane_backups(
            restore_planes & LR_RESTORE_Y != 0,
            resize,
            have_tt,
            0,
            offset_y as i32,
            0,
            0,
            (sby * rows - offset_y) as i32,
            if (sby + 1) * rows < h - 1 { ((sby + 1) * rows) as i32 } else { (h - 1) as i32 },
            (bw * 4) as i32,
            h as i32,
            backup_first_line(LineBuffer::Restoration, have_tt, sby, sb128 as int) as i32,
            backup_first_line(LineBuffer::Cdef, have_tt, sby, sb128 as int) as i32,
        )
    } else {
        seq![]
    }
}

/// The backups of the two chroma planes for superblock row `sby`.
pub open spec fn chroma_backups(
    have_tt: bool,
    resize: bool,
    sby: int,
    cdef: u8,
    sb128: u8,
    restore_planes: i32,
    h: int,
    bw: int,
    layout: Rav1dPixelLayout,
) -> Seq<LpfBackupCall> {
    let offset_y: int = if sby != 0 { 8 } else { 0 };
    let ss_ver: int = if layout == Rav1dPixelLayout::I420 { 1 } else { 0 };
    let ss_hor: int = if layout != Rav1dPixelLayout::I444 { 1 } else { 0 };
    let h_0: int = if ss_ver == 1 { (h + 1) / 2 } else { h };
    let w_0: int = if ss_hor == 1 { bw * 2 } else { bw * 4 };
    let offset_uv: int = if ss_ver == 1 { offset_y / 2 } else { offset_y };
    let rows = sb_rows(sb128 as int, ss_ver);
    let row_0: int = sby * rows - offset_uv;
    let row_h_0: int = if (sby + 1) * rows < h_0 - 1 { (sby + 1) * rows } else { h_0 - 1 };
    if (cdef != 0 || restore_planes & (LR_RESTORE_U | LR_RESTORE_V) != 0) && layout != Rav1dPixelLayout::I400 {
        (if cdef != 0 || restore_planes & LR_RESTORE_U != 0 {
            plane_backups(restore_planes & LR_RESTORE_U != 0, resize, have_tt, 1, offset_uv as i32, ss_ver as i32, ss_hor as i32, row_0 as i32, row_h_0 as i32, w_0 as i32, h_0 as i32, backup_first_line(LineBuffer::Restoration, have_tt, sby, sb128 as int) as i32, backup_first_line(LineBuffer::Cdef, have_tt, sby, sb128 as int) as i32)
        } else {
            seq![]
        }) + (if cdef != 0 || restore_planes & LR_RESTORE_V != 0 {
            plane_backups(restore_planes & LR_RESTORE_V != 0, resize, have_tt, 2, offset_uv as i32, ss_ver as i32, ss_hor as i32, row_0 as i32, row_h_0 as i32, w_0 as i32, h_0 as i32, backup_first_line(LineBuffer::Restoration, have_tt, sby, sb128 as int) as i32, backup_first_line(LineBuffer::Cdef, have_tt, sby, sb128 as int) as i32)
        } else {
            seq![]
        })
    } else {
        seq![]
    }
}

/// The backups of superblock row `sby` that saving the edges for CDEF and
/// loop restoration takes, plane by plane.
pub open spec fn copy_lpf_backups(
    have_tt: bool,
    frame_w: [i32; 2],
    sby: int,
    cdef: u8,
    sb128: u8,
    restore_planes: i32,
    h: int,
    bw: int,
    layout: Rav1dPixelLayout,
) -> Seq<LpfBackupCall> {
    let resize = frame_w[0] != frame_w[1];
    luma_backups(have_tt, resize, sby, cdef, sb128, restore_planes, h, bw)
        + chroma_backups(have_tt, resize, sby, cdef, sb128, restore_planes, h, bw, layout)
}

/// Where the backups of superblock row `sby` start in the restoration buffer
/// and in the CDEF buffer.
fn backup_first_lines(have_tt: bool, sby: i32, sb128: u8) -> (r: (i32, i32))
    requires
        0 <= sby,
        sb128 <= 1,
        (sby + 1) * sb_rows(sb128 as int, 0) <= i32::MAX,
    ensures
        r.0 == backup_first_line(LineBuffer::Restoration, have_tt, sby as int, sb128 as int),
        r.1 == backup_first_line(LineBuffer::Cdef, have_tt, sby as int, sb128 as int),
{
    let lr_line: i32 = if have_tt {
        if sb128 == 1 { sby * 8 } else { sby * 4 }
    } else {
        0
    };
    (lr_line, sby * 4)
}

fn push_plane_backups(
    calls: &mut Vec<LpfBackupCall>,
    restored: bool,
    resize: bool,
    have_tt: bool,
    plane: usize,
    src_rows_up: i32,
    ss_ver: i32,
    ss_hor: i32,
    row: i32,
    row_h: i32,
    w: i32,
    h: i32,
    lr_line: i32,
    cdef_line: i32,
)
    ensures
        final(calls)@ == old(calls)@ + plane_backups(restored, resize, have_tt, plane, src_rows_up, ss_ver, ss_hor, row, row_h, w, h, lr_line, cdef_line),
{
    if restored || !resize {
        calls.push(
            LpfBackupCall {
                plane,
                buffer: LineBuffer::Restoration,
                dst_line: lr_line,
                picture_stride: false,
                src_rows_up,
                ss_ver,
                ss_hor,
                row,
                row_h,
                w,
                h,
                lr_backup: 1,
            },
        );
    }
    if have_tt && resize {
        calls.push(
            LpfBackupCall {
                plane,
                buffer: LineBuffer::Cdef,
                dst_line: cdef_line,
                picture_stride: true,
                src_rows_up,
                ss_ver,
                ss_hor,
                row,
                row_h,
                w,
                h,
                lr_backup: 0,
            },
        );
    }
    assert(calls@ == old(calls)@ + plane_backups(restored, resize, have_tt, plane, src_rows_up, ss_ver, ss_hor, row, row_h, w, h, lr_line, cdef_line));
}

/// Superblock rows `sby` and `sby + 1` start within `i32`.
proof fn lemma_sb_row_bounds(sby: int, rows: int, luma_rows: int)
    by (nonlinear_arith)
    requires
        0 <= sby,
        (sby + 1) * luma_rows <= i32::MAX,
        0 < rows <= luma_rows,
    ensures
        0 <= sby * rows <= (sby + 1) * rows <= i32::MAX,
{
}

#[verifier::spinoff_prover]
fn push_luma_backups(
    calls: &mut Vec<LpfBackupCall>,
    have_tt: bool,
    resize: bool,
    sby: i32,
    cdef: u8,
    sb128: u8,
    restore_planes: i32,
    h: i32,
    bw: i32,
)
    requires
        0 <= sby,
        (sby + 1) * sb_rows(sb128 as int, 0) <= i32::MAX,
        sb128 <= 1,
        0 < h < i32::MAX,
        0 <= bw,
        bw * 4 <= i32::MAX,
    ensures
        final(calls)@ == old(calls)@ + luma_backups(have_tt, resize, sby as int, cdef, sb128, restore_planes, h as int, bw as int),
{
    if cdef != 0 || restore_planes & LR_RESTORE_Y != 0 {
        let offset_y: i32 = if sby != 0 { 8 } else { 0 };
        let rows: i32 = if sb128 == 1 { 128 } else { 64 };
        assert(rows == sb_rows(sb128 as int, 0));
        proof {
            lemma_sb_row_bounds(sby as int, rows as int, sb_rows(sb128 as int, 0));
        }
        let row_h: i32 = if (sby + 1) * rows < h - 1 { (sby + 1) * rows } else { h - 1 };
        let y_stripe: i32 = sby * rows - offset_y;
        let (lr_line, cdef_line) = backup_first_lines(have_tt, sby, sb128);
        push_plane_backups(calls, restore_planes & LR_RESTORE_Y != 0, resize, have_tt, 0, offset_y, 0, 0, y_stripe, row_h, bw * 4, h, lr_line, cdef_line);
    } else {
        assert(luma_backups(have_tt, resize, sby as int, cdef, sb128, restore_planes, h as int, bw as int) =~= seq![]);
        assert(calls@ == old(calls)@ + seq![]);
    }
}

#[verifier::spinoff_prover]
#[verifier::rlimit(40)]
fn push_chroma_backups(
    calls: &mut Vec<LpfBackupCall>,
    have_tt: bool,
    resize: bool,
    sby: i32,
    cdef: u8,
    sb128: u8,
    restore_planes: i32,
    h: i32,
    bw: i32,
    layout: Rav1dPixelLayout,
)
    requires
        0 <= sby,
        (sby + 1) * sb_rows(sb128 as int, 0) <= i32::MAX,
        sb128 <= 1,
        0 < h < i32::MAX,
        0 <= bw,
        bw * 4 <= i32::MAX,
    ensures
        final(calls)@ == old(calls)@ + chroma_backups(have_tt, resize, sby as int, cdef, sb128, restore_planes, h as int, bw as int, layout),
{
    if (cdef != 0 || restore_planes & (LR_RESTORE_U | LR_RESTORE_V) != 0) && layout != Rav1dPixelLayout::I400 {
        let offset_y: i32 = if sby != 0 { 8 } else { 0 };
        let ss_ver: i32 = if layout == Rav1dPixelLayout::I420 { 1 } else { 0 };
        let ss_hor: i32 = if layout != Rav1dPixelLayout::I444 { 1 } else { 0 };
        let h_0: i32 = if ss_ver == 1 { (h + 1) / 2 } else { h };
        let w_0: i32 = if ss_hor == 1 { bw * 2 } else { bw * 4 };
        let rows: i32 = if ss_ver == 1 { if sb128 == 1 { 64 } else { 32 } } else { if sb128 == 1 { 128 } else { 64 } };
        assert(rows == sb_rows(sb128 as int, ss_ver as int));
        proof {
            lemma_sb_row_bounds(sby as int, rows as int, sb_rows(sb128 as int, 0));
        }
        let row_h_0: i32 = if (sby + 1) * rows < h_0 - 1 { (sby + 1) * rows } else { h_0 - 1 };
        let offset_uv: i32 = if ss_ver == 1 { offset_y / 2 } else { offset_y };
        let y_stripe_0: i32 = sby * rows - offset_uv;
        let (lr_line, cdef_line) = backup_first_lines(have_tt, sby, sb128);
        let ghost start = calls@;
        if cdef != 0 || restore_planes & LR_RESTORE_U != 0 {
            push_plane_backups(calls, restore_planes & LR_RESTORE_U != 0, resize, have_tt, 1, offset_uv, ss_ver, ss_hor, y_stripe_0, row_h_0, w_0, h_0, lr_line, cdef_line);
        }
        let ghost mid = calls@;
        if cdef != 0 || restore_planes & LR_RESTORE_V != 0 {
            push_plane_backups(calls, restore_planes & LR_RESTORE_V != 0, resize, have_tt, 2, offset_uv, ss_ver, ss_hor, y_stripe_0, row_h_0, w_0, h_0, lr_line, cdef_line);
        }
        let ghost u = if cdef != 0 || restore_planes & LR_RESTORE_U != 0 {
            plane_backups(restore_planes & LR_RESTORE_U != 0, resize, have_tt, 1, offset_uv, ss_ver, ss_hor, y_stripe_0, row_h_0, w_0, h_0, lr_line, cdef_line)
        } else {
            seq![]
        };
        let ghost v = if cdef != 0 || restore_planes & LR_RESTORE_V != 0 {
            plane_backups(restore_planes & LR_RESTORE_V != 0, resize, have_tt, 2, offset_uv, ss_ver, ss_hor, y_stripe_0, row_h_0, w_0, h_0, lr_line, cdef_line)
        } else {
            seq![]
        };
        assert(mid =~= start + u);
        assert(calls@ =~= mid + v);
        assert(calls@ =~= start + (u + v));
    } else {
        assert(chroma_backups(have_tt, resize, sby as int, cdef, sb128, restore_planes, h as int, bw as int, layout) =~= seq![]);
        assert(calls@ =~= old(calls)@ + seq![]);
    }
}

/// Plans the backups that saving the stripe edges of superblock row `sby`
/// for CDEF and loop restoration takes: `have_tt` tells whether several tile
/// threads decode the frame, `frame_w` holds the coded and upscaled widths,
/// `cdef` and `sb128` come from the sequence header, `h` is the frame height
/// and `bw` its width in 4-pixel blocks, and `layout` is the chroma layout,
/// which the picture and its super-resolved version share.
#[verifier::spinoff_prover]
pub fn rav1d_copy_lpf(
    have_tt: bool,
    frame_w: [i32; 2],
    sby: i32,
    cdef: u8,
    sb128: u8,
    restore_planes: i32,
    h: i32,
    bw: i32,
    layout: Rav1dPixelLayout,
) -> (calls: Vec<LpfBackupCall>)
    requires
        0 <= sby,
        (sby + 1) * sb_rows(sb128 as int, 0) <= i32::MAX,
        sb128 <= 1,
        0 < h < i32::MAX,
        0 <= bw,
        bw * 4 <= i32::MAX,
    ensures
        calls@ == copy_lpf_backups(have_tt, frame_w, sby as int, cdef, sb128, restore_planes, h as int, bw as int, layout),
{
    let resize = frame_w[0] != frame_w[1];
    let mut calls: Vec<LpfBackupCall> = Vec::new();
    push_luma_backups(&mut calls, have_tt, resize, sby, cdef, sb128, restore_planes, h, bw);
    push_chroma_backups(&mut calls, have_tt, resize, sby, cdef, sb128, restore_planes, h, bw, layout);
    assert(calls@ =~= copy_lpf_backups(have_tt, frame_w, sby as int, cdef, sb128, restore_planes, h as int, bw as int, layout));
    calls
}

/// Every plane that loop restoration works on gets its stripe edges saved
/// into the restoration buffer, the chroma planes where the picture has them.
#[verifier::spinoff_prover]
#[verifier::rlimit(40)]
pub proof fn lemma_restored_planes_backed_up(
    have_tt: bool,
    frame_w: [i32; 2],
    sby: int,
    cdef: u8,
    sb128: u8,
    restore_planes: i32,
    h: int,
    bw: int,
    layout: Rav1dPixelLayout,
)
    ensures
        ({
            let calls = copy_lpf_backups(have_tt, frame_w, sby, cdef, sb128, restore_planes, h, bw, layout);
            &&& restore_planes & LR_RESTORE_Y != 0 ==> exists|i: int|
                0 <= i < calls.len() && #[trigger] calls[i].plane == 0 && calls[i].buffer == LineBuffer::Restoration
            &&& (restore_planes & LR_RESTORE_U != 0 && layout != Rav1dPixelLayout::I400) ==> exists|i: int|
                0 <= i < calls.len() && #[trigger] calls[i].plane == 1 && calls[i].buffer == LineBuffer::Restoration
            &&& (restore_planes & LR_RESTORE_V != 0 && layout != Rav1dPixelLayout::I400) ==> exists|i: int|
                0 <= i < calls.len() && #[trigger] calls[i].plane == 2 && calls[i].buffer == LineBuffer::Restoration
        }),
{
    let resize = frame_w[0] != frame_w[1];
    let calls = copy_lpf_backups(have_tt, frame_w, sby, cdef, sb128, restore_planes, h, bw, layout);
    let luma = luma_backups(have_tt, resize, sby, cdef, sb128, restore_planes, h, bw);
    let chroma = chroma_backups(have_tt, resize, sby, cdef, sb128, restore_planes, h, bw, layout);
    assert(calls == luma + chroma);
    assert(LR_RESTORE_U | LR_RESTORE_V == 6i32) by (bit_vector);
    assert(restore_planes & LR_RESTORE_U != 0 ==> restore_planes & 6i32 != 0) by (bit_vector);
    assert(restore_planes & LR_RESTORE_V != 0 ==> restore_planes & 6i32 != 0) by (bit_vector);
    if restore_planes & LR_RESTORE_Y != 0 {
        assert(calls[0].plane == 0 && calls[0].buffer == LineBuffer::Restoration);
    }
    if restore_planes & LR_RESTORE_U != 0 && layout != Rav1dPixelLayout::I400 {
        let i = luma.len() as int;
        assert(calls[i] == chroma[0]);
        assert(calls[i].plane == 1 && calls[i].buffer == LineBuffer::Restoration);
    }
    if restore_planes & LR_RESTORE_V != 0 && layout != Rav1dPixelLayout::I400 {
        let ss_ver: int = if layout == Rav1dPixelLayout::I420 { 1 } else { 0 };
        let u_len: int = if cdef != 0 || restore_planes & LR_RESTORE_U != 0 {
            (if restore_planes & LR_RESTORE_U != 0 || !resize { 1int } else { 0int }) + (if have_tt && resize { 1int } else { 0int })
        } else {
            0
        };
        let i = luma.len() + u_len;
        assert(calls[i] == chroma[u_len]);
        assert(calls[i].plane == 2 && calls[i].buffer == LineBuffer::Restoration);
    }
}

/// A backup of superblock row `sby` spans that superblock row in its plane:
/// it starts `src_rows_up` rows (`8` luma rows, none for the first row) above
/// the superblock row and ends at or above the next one.
pub open spec fn backup_in_sbrow(c: LpfBackupCall, sby: int, sb128: int) -> bool {
    let rows = sb_rows(sb128, c.ss_ver as int);
    &&& 0 <= c.ss_ver <= 1
    &&& c.src_rows_up == shr_ss(if sby != 0 { 8 } else { 0 }, c.ss_ver as int)
    &&& c.row == sby * rows - c.src_rows_up
    &&& c.row_h <= (sby + 1) * rows
    &&& 0 <= c.lr_backup <= 1
}

/// A backup of superblock row `sby` starts at that row's first line of its
/// buffer, uses the picture's stride exactly in the CDEF buffer, and goes to
/// the CDEF buffer only under tile threading, as a CDEF backup.
pub open spec fn backup_placed(c: LpfBackupCall, have_tt: bool, sby: int, sb128: int) -> bool {
    &&& c.dst_line == backup_first_line(c.buffer, have_tt, sby, sb128)
    &&& c.picture_stride == (c.buffer == LineBuffer::Cdef)
    &&& c.buffer == LineBuffer::Cdef ==> have_tt && c.lr_backup == 0
    &&& c.buffer == LineBuffer::Restoration ==> c.lr_backup == 1
}

proof fn lemma_plane_backups_in_sbrow(
    restored: bool,
    resize: bool,
    have_tt: bool,
    plane: usize,
    src_rows_up: i32,
    ss_ver: i32,
    ss_hor: i32,
    row: i32,
    row_h: i32,
    w: i32,
    h: i32,
    lr_line: i32,
    cdef_line: i32,
    sby: int,
    sb128: int,
)
    requires
        0 <= ss_ver <= 1,
        src_rows_up == shr_ss(if sby != 0 { 8 } else { 0 }, ss_ver as int),
        row == sby * sb_rows(sb128, ss_ver as int) - src_rows_up,
        row_h <= (sby + 1) * sb_rows(sb128, ss_ver as int),
        lr_line == backup_first_line(LineBuffer::Restoration, have_tt, sby, sb128),
        cdef_line == backup_first_line(LineBuffer::Cdef, have_tt, sby, sb128),
    ensures
        forall|i: int|
            0 <= i < plane_backups(restored, resize, have_tt, plane, src_rows_up, ss_ver, ss_hor, row, row_h, w, h, lr_line, cdef_line).len()
                ==> #[trigger] backup_in_sbrow(
                plane_backups(restored, resize, have_tt, plane, src_rows_up, ss_ver, ss_hor, row, row_h, w, h, lr_line, cdef_line)[i],
                sby,
                sb128,
            ) && backup_placed(
                plane_backups(restored, resize, have_tt, plane, src_rows_up, ss_ver, ss_hor, row, row_h, w, h, lr_line, cdef_line)[i],
                have_tt,
                sby,
                sb128,
            ),
{
}

/// The stripes of a backup.
pub open spec fn backup_stripes(c: LpfBackupCall, sb128: int) -> int {
    stripe_count(
        c.row as int,
        first_stripe_h(c.lr_backup as int, sb128, c.row as int, c.ss_ver as int),
        stripe_h(c.ss_ver as int),
        c.row_h as int,
    )
}

/// A backup that spans one superblock row holds at most two stripes, and at
/// most one unless it goes to the restoration buffer for 128-pixel
/// superblocks: its stripes fill no more than the lines the row owns.
#[verifier::spinoff_prover]
proof fn lemma_two_stripes(c: LpfBackupCall, have_tt: bool, sby: int, sb128: int)
    requires
        backup_in_sbrow(c, sby, sb128),
        backup_placed(c, have_tt, sby, sb128),
        0 <= sby,
        0 <= sb128 <= 1,
    ensures
        backup_stripes(c, sb128) <= 2,
        4 * backup_stripes(c, sb128) <= sbrow_buffer_lines(c.buffer, sb128),
{
    let sh0 = first_stripe_h(c.lr_backup as int, sb128, c.row as int, c.ss_ver as int);
    let sh = stripe_h(c.ss_ver as int);
    let r = sb_rows(sb128, c.ss_ver as int);
    let m: int = sbrow_buffer_lines(c.buffer, sb128) / 4;
    assert(r == 32 || r == 64 || r == 128);
    assert(sby != 0 ==> c.row != 0) by (nonlinear_arith)
        requires
            sby >= 0,
            r >= 32,
            c.src_rows_up <= 8,
            c.row == sby * r - c.src_rows_up,
    ;
    assert(sby == 0 ==> c.row == 0);
    assert(m == 1 || m == 2);
    assert(sh0 + m * sh > r + c.src_rows_up);
    assert(c.row + sh0 + m * sh > c.row_h) by (nonlinear_arith)
        requires
            c.row == sby * r - c.src_rows_up,
            c.row_h <= (sby + 1) * r,
            sh0 + m * sh > r + c.src_rows_up,
    ;
    if c.row + sh0 <= c.row_h {
        let q = (c.row_h - c.row - sh0) / sh;
        assert(q <= m - 1) by (nonlinear_arith)
            requires
                sh > 0,
                0 <= c.row_h - c.row - sh0 < m * sh,
                q == (c.row_h - c.row - sh0) / sh,
        ;
    }
}

/// Every backup that saving the edges of superblock row `sby` takes spans
/// that superblock row.
#[verifier::spinoff_prover]
#[verifier::rlimit(60)]
proof fn lemma_copy_lpf_backups_in_sbrow(
    have_tt: bool,
    frame_w: [i32; 2],
    sby: int,
    cdef: u8,
    sb128: u8,
    restore_planes: i32,
    h: int,
    bw: int,
    layout: Rav1dPixelLayout,
)
    requires
        0 <= sby,
        (sby + 1) * sb_rows(sb128 as int, 0) <= i32::MAX,
        sb128 <= 1,
        0 < h < i32::MAX,
        0 <= bw,
        bw * 4 <= i32::MAX,
    ensures
        forall|j: int|
            0 <= j < copy_lpf_backups(have_tt, frame_w, sby, cdef, sb128, restore_planes, h, bw, layout).len() ==> #[trigger] backup_in_sbrow(
                copy_lpf_backups(have_tt, frame_w, sby, cdef, sb128, restore_planes, h, bw, layout)[j],
                sby,
                sb128 as int,
            ) && backup_placed(
                copy_lpf_backups(have_tt, frame_w, sby, cdef, sb128, restore_planes, h, bw, layout)[j],
                have_tt,
                sby,
                sb128 as int,
            ),
{
    let resize = frame_w[0] != frame_w[1];
    let luma = luma_backups(have_tt, resize, sby, cdef, sb128, restore_planes, h, bw);
    let chroma = chroma_backups(have_tt, resize, sby, cdef, sb128, restore_planes, h, bw, layout);
    let calls = copy_lpf_backups(have_tt, frame_w, sby, cdef, sb128, restore_planes, h, bw, layout);
    assert(calls == luma + chroma);
    let offset_y: int = if sby != 0 { 8 } else { 0 };
    lemma_sb_row_bounds(sby, sb_rows(sb128 as int, 0), sb_rows(sb128 as int, 0));
    lemma_sb_row_bounds(sby, sb_rows(sb128 as int, 1), sb_rows(sb128 as int, 0));
    assert(0 <= sby * 8 <= (sby + 1) * sb_rows(sb128 as int, 0) || sb128 == 0) by (nonlinear_arith)
        requires
            0 <= sby,
            sb128 == 1 ==> sb_rows(sb128 as int, 0) == 128,
    ;
    assert(0 <= sby * 4 <= (sby + 1) * sb_rows(sb128 as int, 0)) by (nonlinear_arith)
        requires
            0 <= sby,
            sb_rows(sb128 as int, 0) >= 64,
    ;
    if cdef != 0 || restore_planes & LR_RESTORE_Y != 0 {
        let rows = sb_rows(sb128 as int, 0);
        lemma_plane_backups_in_sbrow(
            restore_planes & LR_RESTORE_Y != 0,
            resize,
            have_tt,
            0,
            offset_y as i32,
            0,
            0,
            (sby * rows - offset_y) as i32,
            if (sby + 1) * rows < h - 1 { ((sby + 1) * rows) as i32 } else { (h - 1) as i32 },
            (bw * 4) as i32,
            h as i32,
            backup_first_line(LineBuffer::Restoration, have_tt, sby, sb128 as int) as i32,
            backup_first_line(LineBuffer::Cdef, have_tt, sby, sb128 as int) as i32,
            sby,
            sb128 as int,
        );
    }
    let ss_ver: int = if layout == Rav1dPixelLayout::I420 { 1 } else { 0 };
    let ss_hor: int = if layout != Rav1dPixelLayout::I444 { 1 } else { 0 };
    let h_0: int = if ss_ver == 1 { (h + 1) / 2 } else { h };
    let w_0: int = if ss_hor == 1 { bw * 2 } else { bw * 4 };
    let offset_uv: int = if ss_ver == 1 { offset_y / 2 } else { offset_y };
    let rows = sb_rows(sb128 as int, ss_ver);
    let row_0: int = sby * rows - offset_uv;
    let row_h_0: int = if (sby + 1) * rows < h_0 - 1 { (sby + 1) * rows } else { h_0 - 1 };
    if (cdef != 0 || restore_planes & (LR_RESTORE_U | LR_RESTORE_V) != 0) && layout != Rav1dPixelLayout::I400 {
        lemma_plane_backups_in_sbrow(restore_planes & LR_RESTORE_U != 0, resize, have_tt, 1, offset_uv as i32, ss_ver as i32, ss_hor as i32, row_0 as i32, row_h_0 as i32, w_0 as i32, h_0 as i32, backup_first_line(LineBuffer::Restoration, have_tt, sby, sb128 as int) as i32, backup_first_line(LineBuffer::Cdef, have_tt, sby, sb128 as int) as i32, sby, sb128 as int);
        lemma_plane_backups_in_sbrow(restore_planes & LR_RESTORE_V != 0, resize, have_tt, 2, offset_uv as i32, ss_ver as i32, ss_hor as i32, row_0 as i32, row_h_0 as i32, w_0 as i32, h_0 as i32, backup_first_line(LineBuffer::Restoration, have_tt, sby, sb128 as int) as i32, backup_first_line(LineBuffer::Cdef, have_tt, sby, sb128 as int) as i32, sby, sb128 as int);
    }
    assert forall|j: int| 0 <= j < calls.len() implies #[trigger] backup_in_sbrow(calls[j], sby, sb128 as int) && backup_placed(
        calls[j],
        have_tt,
        sby,
        sb128 as int,
    ) by {
        if j < luma.len() {
            assert(calls[j] == luma[j]);
        } else {
            assert(calls[j] == chroma[j - luma.len()]);
        }
    }
}

/// Every backup of a superblock row fits the line buffer, which holds twelve
/// lines: at most two stripes of four lines each, after the four lines kept
/// for the previous superblock row.
pub proof fn lemma_backups_fit_line_buffer(
    have_tt: bool,
    frame_w: [i32; 2],
    sby: int,
    cdef: u8,
    sb128: u8,
    restore_planes: i32,
    h: int,
    bw: int,
    layout: Rav1dPixelLayout,
    i: int,
)
    requires
        0 <= sby,
        (sby + 1) * sb_rows(sb128 as int, 0) <= i32::MAX,
        sb128 <= 1,
        0 < h < i32::MAX,
        0 <= bw,
        bw * 4 <= i32::MAX,
        0 <= i < copy_lpf_backups(have_tt, frame_w, sby, cdef, sb128, restore_planes, h, bw, layout).len(),
    ensures
        ({
            let c = copy_lpf_backups(have_tt, frame_w, sby, cdef, sb128, restore_planes, h, bw, layout)[i];
            let n = stripe_count(
                c.row as int,
                first_stripe_h(c.lr_backup as int, sb128 as int, c.row as int, c.ss_ver as int),
                stripe_h(c.ss_ver as int),
                c.row_h as int,
            );
            &&& n <= 2
            &&& 4 + 4 * n <= 12
        }),
{
    lemma_copy_lpf_backups_in_sbrow(have_tt, frame_w, sby, cdef, sb128, restore_planes, h, bw, layout);
    let c = copy_lpf_backups(have_tt, frame_w, sby, cdef, sb128, restore_planes, h, bw, layout)[i];
    assert(backup_in_sbrow(c, sby, sb128 as int));
    lemma_two_stripes(c, have_tt, sby, sb128 as int);
}

/// Under tile threading each superblock row writes only lines of its own:
/// its backups into a buffer start at the row's first line there and stay
/// below the next row's.
pub proof fn lemma_tile_thread_lines(
    frame_w: [i32; 2],
    sby: int,
    cdef: u8,
    sb128: u8,
    restore_planes: i32,
    h: int,
    bw: int,
    layout: Rav1dPixelLayout,
    i: int,
)
    requires
        0 <= sby,
        (sby + 1) * sb_rows(sb128 as int, 0) <= i32::MAX,
        sb128 <= 1,
        0 < h < i32::MAX,
        0 <= bw,
        bw * 4 <= i32::MAX,
        0 <= i < copy_lpf_backups(true, frame_w, sby, cdef, sb128, restore_planes, h, bw, layout).len(),
    ensures
        ({
            let c = copy_lpf_backups(true, frame_w, sby, cdef, sb128, restore_planes, h, bw, layout)[i];
            let lines = sbrow_buffer_lines(c.buffer, sb128 as int);
            &&& c.dst_line == sby * lines
            &&& c.dst_line + 4 * backup_stripes(c, sb128 as int) <= (sby + 1) * lines
        }),
{
    lemma_copy_lpf_backups_in_sbrow(true, frame_w, sby, cdef, sb128, restore_planes, h, bw, layout);
    let c = copy_lpf_backups(true, frame_w, sby, cdef, sb128, restore_planes, h, bw, layout)[i];
    assert(backup_in_sbrow(c, sby, sb128 as int));
    lemma_two_stripes(c, true, sby, sb128 as int);
    let lines = sbrow_buffer_lines(c.buffer, sb128 as int);
    assert(sby * lines + lines == (sby + 1) * lines) by (nonlinear_arith);
}

/// Under tile threading two different superblock rows never write the same
/// line of a plane's part of a buffer.
pub proof fn lemma_tile_thread_rows_disjoint(
    frame_w: [i32; 2],
    sby1: int,
    sby2: int,
    cdef: u8,
    sb128: u8,
    restore_planes: i32,
    h: int,
    bw: int,
    layout: Rav1dPixelLayout,
    i: int,
    j: int,
)
    requires
        0 <= sby1,
        0 <= sby2,
        sby1 != sby2,
        (sby1 + 1) * sb_rows(sb128 as int, 0) <= i32::MAX,
        (sby2 + 1) * sb_rows(sb128 as int, 0) <= i32::MAX,
        sb128 <= 1,
        0 < h < i32::MAX,
        0 <= bw,
        bw * 4 <= i32::MAX,
        0 <= i < copy_lpf_backups(true, frame_w, sby1, cdef, sb128, restore_planes, h, bw, layout).len(),
        0 <= j < copy_lpf_backups(true, frame_w, sby2, cdef, sb128, restore_planes, h, bw, layout).len(),
        copy_lpf_backups(true, frame_w, sby1, cdef, sb128, restore_planes, h, bw, layout)[i].plane
            == copy_lpf_backups(true, frame_w, sby2, cdef, sb128, restore_planes, h, bw, layout)[j].plane,
        copy_lpf_backups(true, frame_w, sby1, cdef, sb128, restore_planes, h, bw, layout)[i].buffer
            == copy_lpf_backups(true, frame_w, sby2, cdef, sb128, restore_planes, h, bw, layout)[j].buffer,
    ensures
        ({
            let c1 = copy_lpf_backups(true, frame_w, sby1, cdef, sb128, restore_planes, h, bw, layout)[i];
            let c2 = copy_lpf_backups(true, frame_w, sby2, cdef, sb128, restore_planes, h, bw, layout)[j];
            c1.dst_line + 4 * backup_stripes(c1, sb128 as int) <= c2.dst_line || c2.dst_line + 4 * backup_stripes(c2, sb128 as int)
                <= c1.dst_line
        }),
{
    lemma_tile_thread_lines(frame_w, sby1, cdef, sb128, restore_planes, h, bw, layout, i);
    lemma_tile_thread_lines(frame_w, sby2, cdef, sb128, restore_planes, h, bw, layout, j);
    let c1 = copy_lpf_backups(true, frame_w, sby1, cdef, sb128, restore_planes, h, bw, layout)[i];
    let lines = sbrow_buffer_lines(c1.buffer, sb128 as int);
    if sby1 < sby2 {
        assert((sby1 + 1) * lines <= sby2 * lines) by (nonlinear_arith)
            requires
                sby1 + 1 <= sby2,
                lines > 0,
        ;
    } else {
        assert((sby2 + 1) * lines <= sby1 * lines) by (nonlinear_arith)
            requires
                sby2 + 1 <= sby1,
                lines > 0,
        ;
    }
}

/// Where one tile thread decodes the frame, or the frame is not resized,
/// nothing is saved into the CDEF buffer.
pub proof fn lemma_cdef_buffer_only_for_resized_threads(
    have_tt: bool,
    frame_w: [i32; 2],
    sby: int,
    cdef: u8,
    sb128: u8,
    restore_planes: i32,
    h: int,
    bw: int,
    layout: Rav1dPixelLayout,
)
    requires
        !have_tt || frame_w[0] == frame_w[1],
    ensures
        ({
            let calls = copy_lpf_backups(have_tt, frame_w, sby, cdef, sb128, restore_planes, h, bw, layout);
            forall|i: int| 0 <= i < calls.len() ==> #[trigger] calls[i].buffer == LineBuffer::Restoration
        }),
{
}

/// Backup `c` of superblock row `sby` saves rows of its own plane: for a
/// chroma plane the rows and columns of the layout's subsampling, the
/// plane's full width (`4 * bw` pixels, halved where the plane is
/// horizontally subsampled) and height (`h`, halved rounding up where it is
/// vertically subsampled), and the superblock row's own rows of that plane
/// (`64` or `128` luma rows per superblock row) from `8` luma rows above
/// its top but for the first one, down to its bottom or the plane's last
/// row; a backup into the restoration buffer is one for loop restoration.
pub open spec fn backup_geometry(c: LpfBackupCall, sby: int, sb128: int, h: int, bw: int, layout: Rav1dPixelLayout) -> bool {
    let chroma = c.plane != 0;
    let ss_ver: int = if chroma && layout == Rav1dPixelLayout::I420 { 1 } else { 0 };
    let ss_hor: int = if chroma && layout != Rav1dPixelLayout::I444 { 1 } else { 0 };
    let plane_h: int = if ss_ver == 1 { (h + 1) / 2 } else { h };
    let sb_h: int = if sb128 == 1 { 128int / (ss_ver + 1) } else { 64int / (ss_ver + 1) };
    let up: int = if sby != 0 { 8int / (ss_ver + 1) } else { 0int };
    &&& c.plane <= 2
    &&& chroma ==> layout != Rav1dPixelLayout::I400
    &&& c.ss_ver == ss_ver
    &&& c.ss_hor == ss_hor
    &&& c.w == 4int * bw / (ss_hor + 1)
    &&& c.h == plane_h
    &&& c.src_rows_up == up
    &&& c.row == sby * sb_h - up
    &&& c.row_h == if (sby + 1) * sb_h < plane_h - 1 { (sby + 1) * sb_h } else { plane_h - 1 }
    &&& c.lr_backup == if c.buffer == LineBuffer::Restoration { 1int } else { 0int }
}

proof fn lemma_plane_backups_fields(
    restored: bool,
    resize: bool,
    have_tt: bool,
    plane: usize,
    src_rows_up: i32,
    ss_ver: i32,
    ss_hor: i32,
    row: i32,
    row_h: i32,
    w: i32,
    h: i32,
    lr_line: i32,
    cdef_line: i32,
)
    ensures
        forall|i: int|
            0 <= i < plane_backups(restored, resize, have_tt, plane, src_rows_up, ss_ver, ss_hor, row, row_h, w, h, lr_line, cdef_line).len()
                ==> {
                let c = #[trigger] plane_backups(restored, resize, have_tt, plane, src_rows_up, ss_ver, ss_hor, row, row_h, w, h, lr_line, cdef_line)[i];
                &&& c.plane == plane
                &&& c.src_rows_up == src_rows_up
                &&& c.ss_ver == ss_ver
                &&& c.ss_hor == ss_hor
                &&& c.row == row
                &&& c.row_h == row_h
                &&& c.w == w
                &&& c.h == h
                &&& c.lr_backup == if c.buffer == LineBuffer::Restoration { 1int } else { 0int }
            },
{
}

proof fn lemma_geometry_of_fields(c: LpfBackupCall, sby: int, sb128: int, h: int, bw: int, layout: Rav1dPixelLayout)
    requires
        c.plane <= 2,
        c.plane != 0 ==> layout != Rav1dPixelLayout::I400,
        c.ss_ver == (if c.plane != 0 && layout == Rav1dPixelLayout::I420 { 1int } else { 0int }),
        c.ss_hor == (if c.plane != 0 && layout != Rav1dPixelLayout::I444 { 1int } else { 0int }),
        c.w == (if c.ss_hor == 1 { bw * 2 } else { bw * 4 }),
        c.h == (if c.ss_ver == 1 { (h + 1) / 2 } else { h }),
        c.src_rows_up == (if c.ss_ver == 1 { (if sby != 0 { 8int } else { 0int }) / 2 } else { if sby != 0 { 8int } else { 0int } }),
        c.row == sby * sb_rows(sb128, c.ss_ver as int) - c.src_rows_up,
        c.row_h == (if (sby + 1) * sb_rows(sb128, c.ss_ver as int) < c.h - 1 { (sby + 1) * sb_rows(sb128, c.ss_ver as int) } else { c.h - 1 }),
        c.lr_backup == (if c.buffer == LineBuffer::Restoration { 1int } else { 0int }),
    ensures
        backup_geometry(c, sby, sb128, h, bw, layout),
{
    let ss_ver = c.ss_ver as int;
    assert(sb_rows(sb128, ss_ver) == (if sb128 == 1 { 128int / (ss_ver + 1) } else { 64int / (ss_ver + 1) }));
    assert(4int * bw / (c.ss_hor + 1) == c.w);
}

/// Every backup that saving the stripe edges of superblock row `sby` takes
/// covers its plane's full width and height and the superblock row's own
/// rows of that plane (see [`backup_geometry`]).
#[verifier::spinoff_prover]
#[verifier::rlimit(40)]
pub proof fn lemma_backup_geometry(
    have_tt: bool,
    frame_w: [i32; 2],
    sby: int,
    cdef: u8,
    sb128: u8,
    restore_planes: i32,
    h: int,
    bw: int,
    layout: Rav1dPixelLayout,
)
    requires
        0 <= sby,
        (sby + 1) * sb_rows(sb128 as int, 0) <= i32::MAX,
        sb128 <= 1,
        0 < h < i32::MAX,
        0 <= bw,
        bw * 4 <= i32::MAX,
    ensures
        forall|j: int|
            0 <= j < copy_lpf_backups(have_tt, frame_w, sby, cdef, sb128, restore_planes, h, bw, layout).len() ==> #[trigger] backup_geometry(
                copy_lpf_backups(have_tt, frame_w, sby, cdef, sb128, restore_planes, h, bw, layout)[j],
                sby,
                sb128 as int,
                h,
                bw,
                layout,
            ),
{
    let resize = frame_w[0] != frame_w[1];
    let luma = luma_backups(have_tt, resize, sby, cdef, sb128, restore_planes, h, bw);
    let chroma = chroma_backups(have_tt, resize, sby, cdef, sb128, restore_planes, h, bw, layout);
    let calls = copy_lpf_backups(have_tt, frame_w, sby, cdef, sb128, restore_planes, h, bw, layout);
    assert(calls == luma + chroma);
    let offset_y: int = if sby != 0 { 8 } else { 0 };
    lemma_sb_row_bounds(sby, sb_rows(sb128 as int, 0), sb_rows(sb128 as int, 0));
    lemma_sb_row_bounds(sby, sb_rows(sb128 as int, 1), sb_rows(sb128 as int, 0));
    let lr_line = backup_first_line(LineBuffer::Restoration, have_tt, sby, sb128 as int) as i32;
    let cdef_line = backup_first_line(LineBuffer::Cdef, have_tt, sby, sb128 as int) as i32;
    let rows = sb_rows(sb128 as int, 0);
    let row_h: int = if (sby + 1) * rows < h - 1 { (sby + 1) * rows } else { h - 1 };
    lemma_plane_backups_fields(
        restore_planes & LR_RESTORE_Y != 0,
        resize,
        have_tt,
        0,
        offset_y as i32,
        0,
        0,
        (sby * rows - offset_y) as i32,
        row_h as i32,
        (bw * 4) as i32,
        h as i32,
        lr_line,
        cdef_line,
    );
    let ss_ver: int = if layout == Rav1dPixelLayout::I420 { 1 } else { 0 };
    let ss_hor: int = if layout != Rav1dPixelLayout::I444 { 1 } else { 0 };
    let h_0: int = if ss_ver == 1 { (h + 1) / 2 } else { h };
    let w_0: int = if ss_hor == 1 { bw * 2 } else { bw * 4 };
    let offset_uv: int = if ss_ver == 1 { offset_y / 2 } else { offset_y };
    let rows_uv = sb_rows(sb128 as int, ss_ver);
    let row_0: int = sby * rows_uv - offset_uv;
    let row_h_0: int = if (sby + 1) * rows_uv < h_0 - 1 { (sby + 1) * rows_uv } else { h_0 - 1 };
    lemma_plane_backups_fields(restore_planes & LR_RESTORE_U != 0, resize, have_tt, 1, offset_uv as i32, ss_ver as i32, ss_hor as i32, row_0 as i32, row_h_0 as i32, w_0 as i32, h_0 as i32, lr_line, cdef_line);
    lemma_plane_backups_fields(restore_planes & LR_RESTORE_V != 0, resize, have_tt, 2, offset_uv as i32, ss_ver as i32, ss_hor as i32, row_0 as i32, row_h_0 as i32, w_0 as i32, h_0 as i32, lr_line, cdef_line);
    assert forall|j: int| 0 <= j < calls.len() implies #[trigger] backup_geometry(calls[j], sby, sb128 as int, h, bw, layout) by {
        if j < luma.len() {
            assert(calls[j] == luma[j]);
            assert(cdef != 0 || restore_planes & LR_RESTORE_Y != 0);
            let c = calls[j];
            assert(c.plane == 0);
            assert(c.ss_ver == 0 && c.ss_hor == 0);
            assert(c.w == 4 * bw);
            assert(c.h == h);
            assert(c.src_rows_up == offset_y);
            assert(c.row == sby * rows - offset_y);
            assert(c.row_h == row_h);
            lemma_geometry_of_fields(c, sby, sb128 as int, h, bw, layout);
        } else {
            let u = if cdef != 0 || restore_planes & LR_RESTORE_U != 0 {
                plane_backups(restore_planes & LR_RESTORE_U != 0, resize, have_tt, 1, offset_uv as i32, ss_ver as i32, ss_hor as i32, row_0 as i32, row_h_0 as i32, w_0 as i32, h_0 as i32, lr_line, cdef_line)
            } else {
                seq![]
            };
            let v = if cdef != 0 || restore_planes & LR_RESTORE_V != 0 {
                plane_backups(restore_planes & LR_RESTORE_V != 0, resize, have_tt, 2, offset_uv as i32, ss_ver as i32, ss_hor as i32, row_0 as i32, row_h_0 as i32, w_0 as i32, h_0 as i32, lr_line, cdef_line)
            } else {
                seq![]
            };
            assert((cdef != 0 || restore_planes & (LR_RESTORE_U | LR_RESTORE_V) != 0) && layout != Rav1dPixelLayout::I400);
            assert(chroma == u + v);
            let k = j - luma.len();
            assert(calls[j] == chroma[k]);
            if k < u.len() {
                assert(chroma[k] == u[k]);
            } else {
                assert(chroma[k] == v[k - u.len()]);
            }
            let c = calls[j];
            assert(c.plane == 1 || c.plane == 2);
            assert(c.ss_ver == ss_ver && c.ss_hor == ss_hor);
            assert(c.w == w_0);
            assert(c.h == h_0);
            assert(c.src_rows_up == offset_uv);
            assert(c.row == row_0);
            assert(c.row_h == row_h_0);
            lemma_geometry_of_fields(c, sby, sb128 as int, h, bw, layout);
        }
    }
}

} // verus!
