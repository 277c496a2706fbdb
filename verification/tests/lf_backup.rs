use rav1d::lf_apply::backup::backup_lpf_lines;
use rav1d::lf_apply::backup::LpfLineSource;
use rav1d::lf_apply::backup::backup_start;
use rav1d::lf_apply::backup_lpf;
use rav1d::lf_apply::rav1d_copy_lpf;
use rav1d::lf_apply::LineBuffer;
use rav1d::lf_apply::LpfBackupCall;
use rav1d::lf_apply::LpfBackupPlan;
use rav1d::lf_apply::LpfStripe;
use rav1d::lf_apply::Rav1dPixelLayout;
use rav1d::lf_apply::LR_RESTORE_U;
use rav1d::lf_apply::LR_RESTORE_V;
use rav1d::lf_apply::LR_RESTORE_Y;

fn stripes(plan: &rav1d::lf_apply::LpfBackupPlan) -> Vec<(i32, i32)> {
    plan.stripes.iter().map(|s| (s.src_row, s.n_lines)).collect()
}

#[test]
fn first_superblock_row_of_the_frame() {
    // 64-pixel superblocks, loop restoration, luma: the first stripe is 56 rows.
    let plan = backup_lpf(false, 0, 0, 0, 127, 100, 400, 0, 1, false, [100, 100], [1 << 14, 1 << 13], [7, 3]);
    assert!(!plan.top_copy);
    assert_eq!(plan.first_line, 0);
    assert!(!plan.resize);
    assert_eq!(plan.dst_w, 100);
    assert_eq!(plan.src_w, 100);
    assert_eq!(stripes(&plan), vec![(54, 4), (118, 4)]);
}

#[test]
fn later_superblock_row_single_thread() {
    let plan = backup_lpf(true, 0, 1, 120, 248, 64, 400, 0, 1, false, [64, 64], [1 << 14, 1 << 13], [7, 3]);
    assert!(plan.top_copy);
    assert_eq!(plan.top_distance, 8);
    assert_eq!(plan.first_line, 4);
    assert_eq!(stripes(&plan), vec![(182, 4), (246, 4)]);
}

#[test]
fn cdef_backup_of_128_pixel_superblocks() {
    // lr_backup == 0 doubles the first stripe for 128-pixel superblocks;
    // the later ones stay 64 rows high.
    let plan = backup_lpf(false, 0, 1, 0, 255, 64, 400, 0, 0, false, [64, 64], [1 << 14, 1 << 13], [7, 3]);
    assert_eq!(stripes(&plan), vec![(118, 4), (182, 4), (246, 4)]);
    assert_eq!(plan.top_distance, 8);
}

#[test]
fn subsampled_plane_and_last_row() {
    // 4:2:0 chroma: stripes of 28 and then 32 rows; the edge right above the
    // last row repeats a line.
    let plan = backup_lpf(false, 1, 0, 0, 100, 50, 61, 1, 1, false, [100, 100], [1 << 14, 1 << 13], [7, 3]);
    assert_eq!(stripes(&plan), vec![(26, 4), (58, 3), (90, 4)]);
}

#[test]
fn no_stripe_ends_in_range() {
    let plan = backup_lpf(false, 0, 0, 64, 100, 50, 400, 0, 1, false, [50, 50], [1 << 14, 1 << 13], [7, 3]);
    assert_eq!(plan.stripes.len(), 0);
}

#[test]
fn super_resolution_widths() {
    let plan = backup_lpf(false, 0, 0, 0, 63, 50, 400, 1, 1, true, [50, 99], [1 << 14, 1 << 13], [7, 3]);
    // Subsampled chroma is resized with the chroma step and start.
    assert_eq!((plan.resize_step, plan.resize_start), (1 << 13, 3));
    assert_eq!(plan.src_w, 50);
    assert!(plan.resize);
    assert_eq!(plan.dst_w, 50);
    assert_eq!(plan.src_w, 50);
    let plan = backup_lpf(false, 0, 0, 0, 63, 50, 400, 0, 0, true, [50, 99], [1 << 14, 1 << 13], [7, 3]);
    assert!(!plan.resize);
    assert_eq!(plan.dst_w, 99);
    assert_eq!((plan.resize_step, plan.resize_start), (1 << 14, 7));
}

fn call(plane: usize, buffer: LineBuffer, up: i32, ss_ver: i32, ss_hor: i32, row: i32, row_h: i32, w: i32, h: i32, lr: i32) -> LpfBackupCall {
    let dst_line = 0;
    LpfBackupCall { plane, buffer, dst_line, picture_stride: buffer == LineBuffer::Cdef, src_rows_up: up, ss_ver, ss_hor, row, row_h, w, h, lr_backup: lr }
}

#[test]
fn copy_lpf_first_row_all_planes() {
    let calls = rav1d_copy_lpf(false, [160, 160], 0, 1, 0, 0, 100, 40, Rav1dPixelLayout::I420);
    assert_eq!(
        calls,
        vec![
            call(0, LineBuffer::Restoration, 0, 0, 0, 0, 64, 160, 100, 1),
            call(1, LineBuffer::Restoration, 0, 1, 1, 0, 32, 80, 50, 1),
            call(2, LineBuffer::Restoration, 0, 1, 1, 0, 32, 80, 50, 1),
        ]
    );
}

#[test]
fn copy_lpf_later_row_clamps_to_frame() {
    let calls = rav1d_copy_lpf(false, [160, 160], 1, 0, 1, LR_RESTORE_Y, 200, 40, Rav1dPixelLayout::I444);
    assert_eq!(calls, vec![call(0, LineBuffer::Restoration, 8, 0, 0, 120, 199, 160, 200, 1)]);
}

#[test]
fn copy_lpf_resized_with_threads() {
    let calls = rav1d_copy_lpf(true, [100, 160], 0, 1, 0, LR_RESTORE_U, 100, 40, Rav1dPixelLayout::I422);
    assert_eq!(
        calls,
        vec![
            call(0, LineBuffer::Cdef, 0, 0, 0, 0, 64, 160, 100, 0),
            call(1, LineBuffer::Restoration, 0, 0, 1, 0, 64, 80, 100, 1),
            call(1, LineBuffer::Cdef, 0, 0, 1, 0, 64, 80, 100, 0),
            call(2, LineBuffer::Cdef, 0, 0, 1, 0, 64, 80, 100, 0),
        ]
    );
}

#[test]
fn copy_lpf_nothing_to_save() {
    assert_eq!(rav1d_copy_lpf(false, [100, 100], 3, 0, 0, 0, 1000, 40, Rav1dPixelLayout::I420), vec![]);
    let calls = rav1d_copy_lpf(false, [100, 100], 0, 0, 0, LR_RESTORE_U | LR_RESTORE_V, 1000, 40, Rav1dPixelLayout::I400);
    assert_eq!(calls, vec![]);
}

#[test]
fn every_backup_fits_the_twelve_line_buffer() {
    let layouts = [Rav1dPixelLayout::I400, Rav1dPixelLayout::I420, Rav1dPixelLayout::I422, Rav1dPixelLayout::I444];
    for sb128 in 0..2u8 {
        for layout in layouts {
            for sby in 0..6 {
                for have_tt in [false, true] {
                    for frame_w in [[100, 100], [80, 100]] {
                        let calls = rav1d_copy_lpf(have_tt, frame_w, sby, 1, sb128, LR_RESTORE_Y | LR_RESTORE_U | LR_RESTORE_V, 700, 40, layout);
                        for c in calls {
                            let plan = backup_lpf(!have_tt, c.ss_ver, sb128, c.row, c.row_h, c.w, c.h, c.ss_hor, c.lr_backup, false, frame_w, [1 << 14, 1 << 13], [7, 3]);
                            assert!(plan.stripes.len() <= 2);
                            assert!(plan.first_line + 4 * plan.stripes.len() <= 12);
                        }
                    }
                }
            }
        }
    }
}

#[test]
fn copy_lpf_tile_threads_own_lines() {
    let calls = rav1d_copy_lpf(true, [100, 160], 2, 1, 1, LR_RESTORE_Y, 1000, 40, Rav1dPixelLayout::I400);
    assert_eq!(calls.len(), 2);
    assert_eq!(calls[0].buffer, LineBuffer::Restoration);
    assert_eq!(calls[0].dst_line, 16);
    assert!(!calls[0].picture_stride);
    assert_eq!(calls[1].buffer, LineBuffer::Cdef);
    assert_eq!(calls[1].dst_line, 8);
    assert!(calls[1].picture_stride);
    let single = rav1d_copy_lpf(false, [100, 100], 2, 1, 1, LR_RESTORE_Y, 1000, 40, Rav1dPixelLayout::I400);
    assert_eq!(single[0].dst_line, 0);
    // Rows 0..6 under tile threading write disjoint lines of each buffer.
    let mut used: Vec<(LineBuffer, i32)> = Vec::new();
    for sby in 0..6 {
        for c in rav1d_copy_lpf(true, [100, 160], sby, 1, 1, LR_RESTORE_Y, 1000, 40, Rav1dPixelLayout::I400) {
            let plan = backup_lpf(false, c.ss_ver, 1, c.row, c.row_h, c.w, c.h, c.ss_hor, c.lr_backup, false, [100, 160], [1 << 14, 1 << 13], [7, 3]);
            for l in 0..(4 * plan.stripes.len() as i32) {
                let line = (c.buffer, c.dst_line + l);
                assert!(!used.contains(&line));
                used.push(line);
            }
        }
    }
}

fn plain_plan() -> LpfBackupPlan {
    LpfBackupPlan {
        top_copy: true,
        top_distance: 4,
        first_line: 4,
        resize: false,
        dst_w: 12,
        src_w: 10,
        resize_step: 1 << 14,
        resize_start: 0,
        stripes: vec![LpfStripe { src_row: 62, n_lines: 3 }],
    }
}

#[test]
fn backup_lines_with_positive_stride() {
    let w = backup_lpf_lines(&plain_plan(), 1000, 100);
    assert_eq!(w.len(), 8);
    for i in 0..4 {
        assert_eq!(w[i].dst, 1000 + 100 * i);
        assert_eq!(w[i].src, LpfLineSource::Buffer(1400 + 100 * i));
        assert_eq!(w[i].w, 12);
    }
    assert_eq!(w[4].dst, 1400);
    assert_eq!(w[4].src, LpfLineSource::Picture(62));
    assert_eq!(w[5].src, LpfLineSource::Picture(63));
    assert_eq!(w[6].src, LpfLineSource::Picture(64));
    // The last row of the plane is repeated from the line above.
    assert_eq!(w[7].dst, 1700);
    assert_eq!(w[7].src, LpfLineSource::Buffer(1600));
    assert_eq!(w[7].w, 10);
}

#[test]
fn backup_lines_with_negative_stride() {
    let w = backup_lpf_lines(&plain_plan(), 1100, -100);
    assert_eq!(w.len(), 8);
    // The top copy walks memory upwards: line 3 first, from line 7.
    assert_eq!(w[0].dst, 800);
    assert_eq!(w[0].src, LpfLineSource::Buffer(400));
    assert_eq!(w[3].dst, 1100);
    assert_eq!(w[3].src, LpfLineSource::Buffer(700));
    assert_eq!(w[4].dst, 700);
    assert_eq!(w[4].src, LpfLineSource::Picture(62));
    assert_eq!(w[6].dst, 500);
    // The repeated line comes from the line above, which lies a stride
    // further on in memory.
    assert_eq!(w[7].dst, 400);
    assert_eq!(w[7].src, LpfLineSource::Buffer(500));
}

#[test]
fn backup_lines_resized_without_top_copy() {
    let plan = LpfBackupPlan {
        top_copy: false,
        top_distance: 8,
        first_line: 0,
        resize: true,
        dst_w: 20,
        src_w: 10,
        resize_step: 1 << 14,
        resize_start: 0,
        stripes: vec![LpfStripe { src_row: 30, n_lines: 4 }, LpfStripe { src_row: 94, n_lines: 4 }],
    };
    let w = backup_lpf_lines(&plan, 0, 64);
    assert_eq!(w.len(), 8);
    assert_eq!(w[5].dst, 5 * 64);
    assert_eq!(w[5].src, LpfLineSource::Resized(95));
    assert_eq!(w[5].w, 20);
}

#[test]
fn backup_start_offsets_by_lines() {
    // Tile threads, not resized: superblock row 2 of 64-pixel superblocks
    // writes from line 8 of the plane's part of the restoration buffer.
    let calls = rav1d_copy_lpf(true, [100, 100], 2, 1, 0, LR_RESTORE_Y, 400, 25, Rav1dPixelLayout::I420);
    let luma = calls[0];
    assert_eq!(luma.buffer, LineBuffer::Restoration);
    assert_eq!(luma.dst_line, 8);
    assert_eq!(backup_start(&luma, 5000, 200, 300), (6600, 200));
    assert_eq!(backup_start(&luma, 5000, -200, 300), (3400, -200));
    // Resized: the CDEF backup counts its lines with the picture's stride.
    let calls = rav1d_copy_lpf(true, [100, 120], 2, 1, 0, 0, 400, 25, Rav1dPixelLayout::I400);
    let cdef = calls[0];
    assert_eq!(cdef.buffer, LineBuffer::Cdef);
    assert_eq!(cdef.dst_line, 8);
    assert!(cdef.picture_stride);
    assert_eq!(backup_start(&cdef, 100, 200, 64), (612, 64));
}
