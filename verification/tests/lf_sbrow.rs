use rav1d::lf_apply::rav1d_loopfilter_sbrow_cols;
use rav1d::lf_apply::rav1d_loopfilter_sbrow_rows;
use rav1d::lf_apply::Av1Filter;
use rav1d::lf_apply::LoopFilterFrame;
use rav1d::lf_apply::Rav1dPixelLayout;
use rav1d::lf_apply::edge_plan::edge_levels;

fn empty_filter() -> Av1Filter {
    Av1Filter { filter_y: [[[[0u16; 2]; 3]; 32]; 2], filter_uv: [[[[0u16; 2]; 2]; 32]; 2] }
}

fn frame() -> LoopFilterFrame {
    let mut lpf_y = vec![2u8; 64];
    lpf_y[3] = 1;
    let mut lpf_uv = vec![1u8; 32];
    lpf_uv[2] = 0;
    LoopFilterFrame {
        sb128: 0,
        layout: Rav1dPixelLayout::I420,
        bw: 40,
        bh: 40,
        w4: 40,
        h4: 40,
        sb128w: 2,
        b4_stride: 40,
        level_u: 1,
        level_v: 0,
        level: (0..1600u32).map(|i| [(i % 251) as u8, 1, 2, 3]).collect(),
        col_start_sb: vec![0, 1, 3],
        tx_lpf_right_edge_y: lpf_y,
        tx_lpf_right_edge_uv: lpf_uv,
        a_tx_lpf_y: vec![[1u8; 32]; 4],
        a_tx_lpf_uv: vec![[0u8; 32]; 4],
    }
}

#[test]
fn tile_column_boundary_is_fixed() {
    let f = frame();
    let mut lflvl = vec![empty_filter(); 2];
    // Luma column 16 of area 0 is the tile column boundary: bit 3 at level 3,
    // bit 5 at level 2.
    lflvl[0].filter_y[0][16][1][0] = 1 << 3;
    lflvl[0].filter_y[0][16][2][0] = (1 << 3) | (1 << 5);
    // Column 4 is no boundary and keeps its masks.
    lflvl[0].filter_y[0][4][2][0] = 0xffff;
    // Chroma column 8 of area 0: bit 2 at level 1, allowed level 0.
    lflvl[0].filter_uv[0][8][1][0] = 1 << 2;
    let plan = rav1d_loopfilter_sbrow_cols(&f, &mut lflvl, 0, 0);
    let m = lflvl[0].filter_y[0][16];
    assert_eq!(m[0][0], 0xffff & !(1 << 5) & !(1 << 3));
    assert_eq!(m[1][0], 1 << 3);
    assert_eq!(m[2][0], 1 << 5);
    assert_eq!(m[0][1], 0);
    assert_eq!(lflvl[0].filter_y[0][4][2][0], 0xffff);
    assert_eq!(lflvl[0].filter_y[0][4][0][0], 0);
    let c = lflvl[0].filter_uv[0][8];
    assert_eq!(c[1][0], 0);
    assert_eq!(c[0][0], 0x00ff);
    // The plan reads the fixed masks.
    assert_eq!(plan.luma.len(), 2);
    assert_eq!(plan.luma[0].px, 0);
    assert_eq!(plan.luma[0].lvl, 0);
    assert_eq!(plan.luma[0].w, 32);
    assert_eq!(plan.luma[0].edges.len(), 31);
    assert_eq!(plan.luma[0].edges[15].pos, 16);
    assert_eq!(plan.luma[0].edges[15].mask, [m[0][0] as u32, m[1][0] as u32, m[2][0] as u32]);
    assert_eq!(plan.luma[1].px, 128);
    assert_eq!(plan.luma[1].lvl, 32);
    assert_eq!(plan.luma[1].w, 8);
    assert_eq!(plan.luma[1].edges.len(), 8);
    assert_eq!(plan.chroma.len(), 2);
    assert_eq!(plan.chroma[0].w, 16);
    assert_eq!(plan.chroma[1].w, 4);
    assert_eq!(plan.chroma[1].px, 64);
    assert_eq!(plan.chroma[1].lvl, 16);
    assert_eq!(plan.chroma[0].edges[7].pos, 8);
    assert_eq!(plan.chroma[0].edges[7].mask, [0x00ff, 0, 0]);
}

#[test]
fn tile_row_boundary_is_fixed() {
    let f = frame();
    let mut lflvl = vec![empty_filter(); 2];
    lflvl[1].filter_y[1][0][2][0] = 0x00f0;
    let plan = rav1d_loopfilter_sbrow_cols(&f, &mut lflvl, 0, 1);
    // Area 1 has 8 block columns; the level above allows 1, so bits 4..7
    // move down from level 2 and bits 0..3 stand at level 0.
    assert_eq!(lflvl[1].filter_y[1][0][1][0], 0x00f0);
    assert_eq!(lflvl[1].filter_y[1][0][2][0], 0);
    assert_eq!(lflvl[1].filter_y[1][0][0][0], 0x000f);
    // Area 0 has 32 block columns, all at level 0.
    assert_eq!(lflvl[0].filter_y[1][0][0], [0xffff, 0xffff]);
    assert_eq!(lflvl[0].filter_y[1][0][1], [0, 0]);
    // Chroma: 4 columns in area 1, all at level 0.
    assert_eq!(lflvl[1].filter_uv[1][0][0][0], 0x000f);
    assert_eq!(plan.luma.len(), 2);
}

#[test]
fn no_chroma_plan_without_chroma_levels() {
    let mut f = frame();
    f.level_u = 0;
    let mut lflvl = vec![empty_filter(); 2];
    let plan = rav1d_loopfilter_sbrow_cols(&f, &mut lflvl, 0, 0);
    assert_eq!(plan.chroma.len(), 0);
    let plan = rav1d_loopfilter_sbrow_rows(&f, &lflvl, 0);
    assert_eq!(plan.chroma.len(), 0);
}

#[test]
fn row_plan_of_second_superblock_row() {
    let f = frame();
    let mut lflvl = vec![empty_filter(); 2];
    lflvl[1].filter_y[1][17][0] = [0x0001, 0x0002];
    let plan = rav1d_loopfilter_sbrow_rows(&f, &lflvl, 1);
    // Odd rows of 64-pixel superblocks use the lower half of the mask area.
    assert_eq!(plan.luma.len(), 2);
    assert_eq!(plan.luma[1].lvl, 40 * 16 + 32);
    assert_eq!(plan.luma[1].edges.len(), 16);
    assert_eq!(plan.luma[1].edges[1].pos, 1);
    assert_eq!(plan.luma[1].edges[1].mask, [0x0002_0001, 0, 0]);
    assert_eq!(plan.chroma.len(), 2);
    assert_eq!(plan.chroma[1].lvl, 40 * 8 + 16);
    assert_eq!(plan.chroma[0].edges.len(), 8);
}

#[test]
fn row_plan_skips_frame_top() {
    let f = frame();
    let lflvl = vec![empty_filter(); 2];
    let plan = rav1d_loopfilter_sbrow_rows(&f, &lflvl, 0);
    assert_eq!(plan.luma[0].edges.len(), 15);
    assert_eq!(plan.luma[0].edges[0].pos, 1);
    assert_eq!(plan.chroma[0].edges.len(), 7);
}

#[test]
fn row_plan_reads_levels_row_by_row() {
    let f = frame();
    let lflvl = vec![empty_filter(); 2];
    let plan = rav1d_loopfilter_sbrow_rows(&f, &lflvl, 1);
    // Row 3 of luma superblock 1 reads entry 40 * 16 + 32 + 3 * 40, from its
    // second byte.
    let sb = &plan.luma[1];
    let e = &sb.edges[3];
    assert_eq!((e.pos, e.lvl, e.lvl_byte), (3, 120, 1));
    let levels = edge_levels(&f.level[sb.lvl..], e, 0);
    assert_eq!(levels[0], [1, 2, 3, ((40 * 16 + 32 + 120 + 1) % 251) as u8]);
    // Chroma superblock 1 starts at entry 40 * 8 + 16 and reads the third and
    // fourth bytes.
    let sb = &plan.chroma[1];
    let e = &sb.edges[2];
    assert_eq!((e.lvl, e.lvl_byte), (80, 2));
    let levels = edge_levels(&f.level[sb.lvl..], e, 1);
    assert_eq!(levels[0][0], 3);
}

#[test]
fn second_boundary_fix_changes_nothing() {
    let f = frame();
    let mut lflvl = vec![empty_filter(); 2];
    lflvl[0].filter_y[0][16][2][0] = 0x0f0f;
    lflvl[0].filter_y[0][16][1][1] = 0x00f0;
    lflvl[0].filter_uv[0][8][1][0] = 0x0033;
    lflvl[1].filter_y[1][0][2][0] = 0x00ff;
    rav1d_loopfilter_sbrow_cols(&f, &mut lflvl, 0, 1);
    let first: Vec<Av1Filter> = lflvl.clone();
    rav1d_loopfilter_sbrow_cols(&f, &mut lflvl, 0, 1);
    for i in 0..2 {
        assert_eq!(lflvl[i].filter_y, first[i].filter_y);
        assert_eq!(lflvl[i].filter_uv, first[i].filter_uv);
    }
}

#[test]
fn boundary_fix_never_raises_a_level() {
    let f = frame();
    let mut lflvl = vec![empty_filter(); 2];
    // Bits of the boundary column at levels 2, 1 and 0 (each at one level).
    lflvl[0].filter_y[0][16][2][0] = 0x000f;
    lflvl[0].filter_y[0][16][1][0] = 0x00f0;
    lflvl[0].filter_y[0][16][0][0] = 0x0f00;
    let before = lflvl[0].filter_y[0][16];
    rav1d_loopfilter_sbrow_cols(&f, &mut lflvl, 0, 0);
    let after = lflvl[0].filter_y[0][16];
    let level = |m: [[u16; 2]; 3], b: usize| -> usize {
        let h = b / 16;
        let bit = 1u16 << (b % 16);
        2 * ((m[2][h] & bit != 0) as usize) + ((m[1][h] & bit != 0) as usize)
    };
    for b in 0..16 {
        let bit = 1u16 << b;
        let count = (0..3).filter(|&l| after[l][0] & bit != 0).count();
        // Every bit of the boundary's rows stands at exactly one level ...
        assert_eq!(count, 1);
        // ... no higher than before.
        assert!(level(after, b) <= level(before, b));
    }
}
