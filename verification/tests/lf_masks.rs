use rav1d::lf_apply::filter_plane_cols_uv;
use rav1d::lf_apply::filter_plane_cols_y;
use rav1d::lf_apply::filter_plane_rows_uv;
use rav1d::lf_apply::filter_plane_rows_y;
use rav1d::lf_apply::edge_plan::edge_levels;
use rav1d::lf_apply::fix_uv_edge;
use rav1d::lf_apply::fix_y_edge;
use rav1d::lf_apply::unaligned_lvl_slice;

fn bit(m: [u16; 2], b: u32, hw: u32) -> bool {
    m[(b / hw) as usize] & (1u16 << (b % hw)) != 0
}

#[test]
fn unaligned_slices_straddle_groups() {
    let lvl = [[1u8, 2, 3, 4], [5, 6, 7, 8], [9, 10, 11, 12]];
    assert_eq!(unaligned_lvl_slice(&lvl, 0), &lvl[..]);
    assert_eq!(unaligned_lvl_slice(&lvl, 1), &[[2u8, 3, 4, 5], [6, 7, 8, 9]][..]);
    assert_eq!(unaligned_lvl_slice(&lvl, 2), &[[3u8, 4, 5, 6], [7, 8, 9, 10]][..]);
    assert_eq!(unaligned_lvl_slice(&lvl, 3), &[[4u8, 5, 6, 7], [8, 9, 10, 11]][..]);
    assert_eq!(unaligned_lvl_slice(&lvl, 4), &lvl[1..]);
    assert_eq!(unaligned_lvl_slice(&lvl, 11).len(), 0);
    assert_eq!(unaligned_lvl_slice(&lvl, 12).len(), 0);
}

#[test]
fn luma_edge_bit_moves_to_allowed_level() {
    // Bit 3 stands at levels 1 and 2 (level 3), bit 20 at level 2, bit 5 at level 0.
    let mut m = [[0u16; 2]; 3];
    m[1][0] |= 1 << 3;
    m[2][0] |= 1 << 3;
    m[2][1] |= 1 << 4;
    m[0][0] |= 1 << 5;
    let lpf = [1u8, 2, 2, 0, 2, 2, 2, 2, 2, 2, 2, 2, 2, 2, 2, 2, 2, 2, 2, 2, 2, 2];
    let r = fix_y_edge(m, 0, 22, &lpf);
    // bit 3: min(3, lpf[3] = 0) = 0
    assert!(bit(r[0], 3, 16) && !bit(r[1], 3, 16) && !bit(r[2], 3, 16));
    // bit 20: min(2, 2) = 2
    assert!(!bit(r[0], 20, 16) && !bit(r[1], 20, 16) && bit(r[2], 20, 16));
    // bit 5: min(0, 2) = 0, unchanged
    assert!(bit(r[0], 5, 16) && !bit(r[1], 5, 16) && !bit(r[2], 5, 16));
    // bit 0 had no level: it now stands at level 0
    assert!(bit(r[0], 0, 16));
    // every fixed bit stands at exactly one level
    for b in 0..22 {
        let n = (0..3).filter(|&l| bit(r[l], b, 16)).count();
        assert_eq!(n, 1);
    }
    // bits outside the range are untouched
    assert_eq!(r[0][1] >> 6, m[0][1] >> 6);
    assert_eq!(r[2][1] >> 6, m[2][1] >> 6);
    // fixing again changes nothing
    assert_eq!(fix_y_edge(r, 0, 22, &lpf), r);
}

#[test]
fn luma_edge_range_is_respected() {
    let m = [[0u16; 2]; 3];
    let lpf = [2u8; 4];
    let r = fix_y_edge(m, 16, 20, &lpf);
    assert_eq!(r[0], [0, 0b1111]);
    assert_eq!(r[1], [0, 0]);
    assert_eq!(r[2], [0, 0]);
}

#[test]
fn chroma_edge_bits_with_half_width_eight() {
    let mut m = [[0u16; 2]; 2];
    m[1][1] |= 1 << 2; // bit 10 at level 1
    m[1][0] |= 1 << 1; // bit 1 at level 1
    let lpf = [1u8, 0, 1, 1, 1, 1, 1, 1, 1, 1, 1, 1];
    let r = fix_uv_edge(m, 0, 12, &lpf, 1);
    assert!(!bit(r[1], 1, 8) && bit(r[0], 1, 8));
    assert!(bit(r[1], 10, 8) && !bit(r[0], 10, 8));
    assert!(bit(r[0], 4, 8));
    assert_eq!(r[0][1] >> 4, 0);
}

#[test]
fn column_edges_luma() {
    let mut mask = [[[0u16; 2]; 3]; 32];
    mask[0][0] = [0x0001, 0x8000];
    mask[1][1] = [0x00ff, 0x0100];
    mask[2][2] = [0xf000, 0x000f];
    let lvl = vec![[0u8; 4]; 3];
    let e = filter_plane_cols_y(false, &lvl, &mask, 3, 0, 32);
    assert_eq!(e.len(), 2);
    assert_eq!(e[0].pos, 1);
    assert_eq!(e[0].mask, [0, 0x0100_00ff, 0]);
    assert_eq!(e[1].pos, 2);
    assert_eq!(e[1].mask, [0, 0, 0x000f_f000]);
    assert_eq!((e[1].lvl, e[1].lvl_byte), (2, 0));
    let e = filter_plane_cols_y(true, &lvl, &mask, 2, 0, 16);
    assert_eq!(e.len(), 2);
    assert_eq!(e[0].pos, 0);
    assert_eq!(e[0].mask, [0x0001, 0, 0]);
    let e = filter_plane_cols_y(true, &lvl, &mask, 1, 16, 32);
    assert_eq!(e[0].mask, [0x8000, 0, 0]);
    assert_eq!(filter_plane_cols_y(false, &lvl, &mask, 0, 0, 32).len(), 0);
}

#[test]
fn row_edges_luma() {
    let mut mask = [[[0u16; 2]; 3]; 32];
    mask[0][1] = [1, 1];
    mask[17][2] = [2, 3];
    let lvl = vec![[0u8; 4]; 40];
    let e = filter_plane_rows_y(false, &lvl, 10, &mask, 0, 4);
    assert_eq!(e.len(), 3);
    assert_eq!(e[0].pos, 1);
    assert_eq!((e[0].lvl, e[0].lvl_byte), (10, 1));
    assert_eq!((e[2].lvl, e[2].lvl_byte), (30, 1));
    let e = filter_plane_rows_y(true, &lvl, 10, &mask, 0, 4);
    assert_eq!(e.len(), 4);
    assert_eq!(e[0].mask, [0, 0x0001_0001, 0]);
    let e = filter_plane_rows_y(false, &lvl, 10, &mask, 16, 20);
    assert_eq!(e.len(), 4);
    assert_eq!(e[1].pos, 1);
    assert_eq!(e[1].mask, [0, 0, 0x0003_0002]);
}

#[test]
fn column_and_row_edges_chroma() {
    let mut cmask = [[[0u16; 2]; 2]; 32];
    cmask[1][0] = [0x00ff, 0x0003];
    let lvl = vec![[0u8; 4]; 8];
    let e = filter_plane_cols_uv(false, &lvl, &cmask, 2, 0, 16, 1);
    assert_eq!(e.len(), 1);
    assert_eq!(e[0].mask, [0x03ff, 0, 0]);
    let e = filter_plane_cols_uv(true, &lvl, &cmask, 2, 0, 8, 1);
    assert_eq!(e[1].mask, [0x00ff, 0, 0]);
    let e = filter_plane_cols_uv(true, &lvl, &cmask, 2, 8, 16, 1);
    assert_eq!(e[1].mask, [0x0003, 0, 0]);
    let e = filter_plane_cols_uv(true, &lvl, &cmask, 2, 0, 32, 0);
    assert_eq!(e[1].mask, [0x0003_00ff, 0, 0]);
    let e = filter_plane_rows_uv(true, &lvl, 4, &cmask, 0, 2, 1);
    assert_eq!(e.len(), 2);
    assert_eq!(e[1].mask, [0x03ff, 0, 0]);
    let e = filter_plane_rows_uv(false, &lvl, 4, &cmask, 0, 2, 0);
    assert_eq!(e.len(), 1);
    assert_eq!(e[0].pos, 1);
    assert_eq!(e[0].mask, [0x0003_00ff, 0, 0]);
    assert_eq!((e[0].lvl, e[0].lvl_byte), (4, 2));
}

#[test]
fn edge_levels_start_at_the_edge_byte() {
    let lvl = [[1u8, 2, 3, 4], [5, 6, 7, 8], [9, 10, 11, 12]];
    let mask = [[[0u16; 2]; 2]; 32];
    // Column 1 of a chroma superblock two blocks wide reads from the third
    // byte of entry 1 (first plane) and from its fourth byte (second plane).
    let e = filter_plane_cols_uv(false, &lvl, &mask, 2, 0, 16, 1);
    assert_eq!(e.len(), 1);
    assert_eq!(edge_levels(&lvl, &e[0], 0), &[[7u8, 8, 9, 10]][..]);
    assert_eq!(edge_levels(&lvl, &e[0], 1), &[[8u8, 9, 10, 11]][..]);
    // Row 1 of a luma superblock with one entry per row reads from the
    // second byte of entry 1.
    let ymask = [[[0u16; 2]; 3]; 32];
    let e = filter_plane_rows_y(false, &lvl, 1, &ymask, 0, 2);
    assert_eq!(e.len(), 1);
    assert_eq!(edge_levels(&lvl, &e[0], 0), &[[6u8, 7, 8, 9]][..]);
}

#[test]
fn unaligned_slice_shifts_by_whole_entries() {
    let lvl = [[1u8, 2, 3, 4], [5, 6, 7, 8], [9, 10, 11, 12]];
    for k in 0..3 {
        for d in 0..4 {
            assert_eq!(unaligned_lvl_slice(&lvl, 4 * k + d), unaligned_lvl_slice(&lvl[k..], d));
        }
    }
}

#[test]
fn chroma_fix_keeps_bits_above_a_narrow_half() {
    // Halves of 8 bits: the bits above them are no edges and stay as they are.
    let m = [[0xab01u16, 0xcd00], [0x1202, 0x3480]];
    let r = fix_uv_edge(m, 0, 16, &[0u8; 16], 1);
    for l in 0..2 {
        for h in 0..2 {
            assert_eq!(r[l][h] >> 8, m[l][h] >> 8);
        }
    }
    // Every edge bit moves to level 0.
    assert_eq!(r[0][0] & 0xff, 0xff);
    assert_eq!(r[1][0] & 0xff, 0);
    assert_eq!(r[0][1] & 0xff, 0xff);
    assert_eq!(r[1][1] & 0xff, 0);
}
