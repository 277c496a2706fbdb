use vstd::prelude::*;

verus! {

/// Whether bit `b` is set in a mask stored as two halves of `hw` bits each
/// (`m[0]` holds the low half).
pub open spec fn pair_bit(m: [u16; 2], b: int, hw: int) -> bool {
    m[b / hw] & (1u16 << ((b % hw) as u16)) != 0
}

/// The filter level that bit `b` of a luma edge mask stands at: the sum of
/// `2` where level `2` has the bit and `1` where level `1` has it.
pub open spec fn y_edge_level(m: [[u16; 2]; 3], b: int) -> int {
    (if pair_bit(m[2], b, 16) { 2int } else { 0int }) + (if pair_bit(m[1], b, 16) { 1int } else { 0int })
}

/// The width in bits of each half of a chroma edge mask: `16 >> ss`, where
/// `ss` is `1` for a subsampled direction and `0` otherwise.
pub open spec fn half_width(ss: int) -> int {
    if ss == 0 { 16 } else { 8 }
}

/// The filter level that bit `b` of a chroma edge mask stands at: `1` where
/// level `1` has the bit.
pub open spec fn uv_edge_level(m: [[u16; 2]; 2], b: int, hw: int) -> int {
    if pair_bit(m[1], b, hw) { 1int } else { 0int }
}

/// The smaller of an edge's level and the level that the transform on its
/// other side allows.
pub open spec fn capped_level(level: int, lpf: u8) -> int {
    if level < lpf { level } else { lpf as int }
}

/// `r` is the luma edge mask `m` with the bits `start..end` moved to their
/// allowed levels (`lpf[b - start]` for bit `b`) and the other bits unchanged.
pub open spec fn y_edge_fixed(m: [[u16; 2]; 3], r: [[u16; 2]; 3], start: int, end: int, lpf: Seq<u8>) -> bool {
    forall|l: int, b: int|
        0 <= l < 3 && 0 <= b < 32 ==> #[trigger] pair_bit(r[l], b, 16) == if start <= b < end {
            l == capped_level(y_edge_level(m, b), lpf[b - start])
        } else {
            pair_bit(m[l], b, 16)
        }
}

/// The bits of a mask half at and above bit `hw`, shifted down.
pub open spec fn high_bits(x: u16, hw: int) -> u16 {
    x >> (hw as u16)
}

/// Whether bit `j` of `x` is set.
pub open spec fn bit16(x: u16, j: u16) -> bool {
    x & (1u16 << j) != 0
}

/// `r` is the chroma edge mask `m`, with halves of `hw` bits, with the bits
/// `start..end` moved to their allowed levels and the other bits unchanged,
/// those above the half width of a narrower half included.
pub open spec fn uv_edge_fixed(
    m: [[u16; 2]; 2],
    r: [[u16; 2]; 2],
    start: int,
    end: int,
    lpf: Seq<u8>,
    hw: int,
) -> bool {
    &&& forall|l: int, b: int|
        0 <= l < 2 && 0 <= b < 2 * hw ==> #[trigger] pair_bit(r[l], b, hw) == if start <= b < end {
            l == capped_level(uv_edge_level(m, b, hw), lpf[b - start])
        } else {
            pair_bit(m[l], b, hw)
        }
    &&& hw < 16 ==> forall|l: int, h: int|
        0 <= l < 2 && 0 <= h < 2 ==> #[trigger] high_bits(r[l][h], hw) == high_bits(m[l][h], hw)
}

/// Clearing or setting a bit below bit `s` leaves the bits from `s` on.
proof fn lemma_low_bit_keeps_high(x: u16, k: u16, s: u16)
    by (bit_vector)
    requires
        k < s,
        s < 16,
    ensures
        (x & !(1u16 << k)) >> s == x >> s,
        ((x & !(1u16 << k)) | (1u16 << k)) >> s == x >> s,
{
}

/// A half whose low eight bits and high bits agree with another's is equal
/// to it.
proof fn lemma_u16_eq_low(x: u16, y: u16)
    by (bit_vector)
    requires
        x >> 8u16 == y >> 8u16,
        bit16(x, 0u16) == bit16(y, 0u16),
        bit16(x, 1u16) == bit16(y, 1u16),
        bit16(x, 2u16) == bit16(y, 2u16),
        bit16(x, 3u16) == bit16(y, 3u16),
        bit16(x, 4u16) == bit16(y, 4u16),
        bit16(x, 5u16) == bit16(y, 5u16),
        bit16(x, 6u16) == bit16(y, 6u16),
        bit16(x, 7u16) == bit16(y, 7u16),
    ensures
        x == y,
{
}

/// Halves whose bits `8..16` agree have the same high bits.
proof fn lemma_u16_high(x: u16, y: u16)
    by (bit_vector)
    requires
        bit16(x, 8u16) == bit16(y, 8u16),
        bit16(x, 9u16) == bit16(y, 9u16),
        bit16(x, 10u16) == bit16(y, 10u16),
        bit16(x, 11u16) == bit16(y, 11u16),
        bit16(x, 12u16) == bit16(y, 12u16),
        bit16(x, 13u16) == bit16(y, 13u16),
        bit16(x, 14u16) == bit16(y, 14u16),
        bit16(x, 15u16) == bit16(y, 15u16),
    ensures
        x >> 8u16 == y >> 8u16,
{
}

/// Two masks of two halves of `hw` bits are equal word for word where every
/// bit of their halves agrees, and, for halves narrower than a word, the bits
/// above them too.
pub proof fn lemma_words_from_bits(x: [u16; 2], y: [u16; 2], hw: int, h: int)
    requires
        hw == 8 || hw == 16,
        0 <= h < 2,
        forall|b: int| 0 <= b < 2 * hw ==> #[trigger] pair_bit(x, b, hw) == pair_bit(y, b, hw),
        hw == 8 ==> high_bits(x[h], hw) == high_bits(y[h], hw),
    ensures
        x[h] == y[h],
{
    assert forall|j: u16| j < hw implies #[trigger] bit16(x[h], j) == bit16(y[h], j) by {
        let b = h * hw + j;
        vstd::arithmetic::div_mod::lemma_fundamental_div_mod_converse(b, hw, h, j as int);
        assert(0 <= b < 2 * hw) by (nonlinear_arith)
            requires
                b == h * hw + j,
                0 <= h < 2,
                0 <= j < hw,
        ;
        assert(pair_bit(x, b, hw) == pair_bit(y, b, hw));
    }
    if hw == 16 {
        lemma_u16_high(x[h], y[h]);
    }
    lemma_u16_eq_low(x[h], y[h]);
}

proof fn lemma_clear_bit(x: u16, k: u16, j: u16)
    by (bit_vector)
    requires
        k < 16,
        j < 16,
    ensures
        ((x & !(1u16 << k)) & (1u16 << j) != 0) == (j != k && (x & (1u16 << j)) != 0),
{
}

proof fn lemma_set_bit(x: u16, k: u16, j: u16)
    by (bit_vector)
    requires
        k < 16,
        j < 16,
    ensures
        ((x | (1u16 << k)) & (1u16 << j) != 0) == (j == k || (x & (1u16 << j)) != 0),
{
}

/// Where a bit of a two-half mask lies: `1 << y` falls in the high half
/// exactly when `y` reaches the half width `hw`, and there it is bit `y - hw`;
/// in the low half it is bit `y`.
proof fn lemma_split_bit(y: u32, hw: u32)
    by (bit_vector)
    requires
        hw == 8 || hw == 16,
        y < 2 * hw,
    ensures
        ((1u32 << y) >= (1u32 << hw)) == (y >= hw),
        y >= hw ==> ((1u32 << y) >> hw) as u16 == 1u16 << ((y - hw) as u16),
        y < hw ==> ((1u32 << y) >> 0u32) as u16 == 1u16 << (y as u16),
{
}

/// Moves bit `y` of a luma edge mask to the level it is allowed to stand at
/// (the smaller of its own level and `lpf`), clearing it at the other levels.
#[verifier::spinoff_prover]
fn fix_y_edge_bit(m: [[u16; 2]; 3], y: u32, lpf: u8) -> (r: [[u16; 2]; 3])
    requires
        y < 32,
        capped_level(y_edge_level(m, y as int), lpf) < 3,
    ensures
        forall|l: int, b: int|
            0 <= l < 3 && 0 <= b < 32 ==> #[trigger] pair_bit(r[l], b, 16) == if b == y {
                l == capped_level(y_edge_level(m, y as int), lpf)
            } else {
                pair_bit(m[l], b, 16)
            },
{
    let mask: u32 = 1u32 << y;
    proof {
        lemma_split_bit(y, 16);
        assert(1u32 << 16u32 == 0x10000u32) by (bit_vector);
    }
    let sidx: usize = if mask >= 0x10000 { 1 } else { 0 };
    let smask: u16 = if sidx == 1 { (mask >> 16u32) as u16 } else { (mask >> 0u32) as u16 };
    let ghost k: u16 = (y % 16) as u16;
    assert(sidx == y / 16 && smask == 1u16 << k);
    let idx: usize = 2 * (if m[2][sidx] & smask != 0 { 1usize } else { 0usize }) + (if m[1][sidx]
        & smask != 0 { 1usize } else { 0usize });
    assert(idx == y_edge_level(m, y as int));
    let lvl: usize = if idx < lpf as usize { idx } else { lpf as usize };
    let mut r = m;
    r[2][sidx] = r[2][sidx] & !smask;
    r[1][sidx] = r[1][sidx] & !smask;
    r[0][sidx] = r[0][sidx] & !smask;
    r[lvl][sidx] = r[lvl][sidx] | smask;
    assert forall|l: int, b: int| 0 <= l < 3 && 0 <= b < 32 implies #[trigger] pair_bit(r[l], b, 16)
        == if b == y {
        l == capped_level(y_edge_level(m, y as int), lpf)
    } else {
        pair_bit(m[l], b, 16)
    } by {
        let h = b / 16;
        let j = (b % 16) as u16;
        if h == sidx {
            lemma_clear_bit(m[l][h], k, j);
            lemma_set_bit(m[l][h] & !smask, k, j);
            if b == y {
                assert(j == k);
            } else {
                assert(j != k);
            }
        } else {
            assert(b != y);
            assert(r[l][h] == m[l][h]);
        }
    }
    r
}

/// Moves bit `y` of a chroma edge mask, whose halves are `half_width(ss as int)` bits
/// wide, to the level it is allowed to stand at (the smaller of its own level
/// and `lpf`), clearing it at the other level.
#[verifier::spinoff_prover]
fn fix_uv_edge_bit(m: [[u16; 2]; 2], y: u32, lpf: u8, ss: i32) -> (r: [[u16; 2]; 2])
    requires
        0 <= ss <= 1,
        y < 2 * (half_width(ss as int)),
        capped_level(uv_edge_level(m, y as int, half_width(ss as int)), lpf) < 2,
    ensures
        forall|l: int, b: int|
            0 <= l < 2 && 0 <= b < 2 * (half_width(ss as int)) ==> #[trigger] pair_bit(r[l], b, half_width(ss as int)) == if b
                == y {
                l == capped_level(uv_edge_level(m, y as int, half_width(ss as int)), lpf)
            } else {
                pair_bit(m[l], b, half_width(ss as int))
            },
        half_width(ss as int) < 16 ==> forall|l: int, h: int|
            0 <= l < 2 && 0 <= h < 2 ==> #[trigger] high_bits(r[l][h], half_width(ss as int)) == high_bits(m[l][h], half_width(ss as int)),
{
    let hw: u32 = 16u32 >> (ss as u32);
    assert(hw == half_width(ss as int)) by {
        if ss == 0 {
            assert(16u32 >> 0u32 == 16) by (bit_vector);
        } else {
            assert(16u32 >> 1u32 == 8) by (bit_vector);
        }
    }
    let uv_mask: u32 = 1u32 << y;
    let vmax: u32 = 1u32 << hw;
    proof {
        lemma_split_bit(y, hw);
    }
    let sidx: usize = if uv_mask >= vmax { 1 } else { 0 };
    let smask: u16 = if sidx == 1 { (uv_mask >> hw) as u16 } else { (uv_mask >> 0u32) as u16 };
    let ghost k: u16 = (y % hw) as u16;
    assert(sidx == y / hw && smask == 1u16 << k) by {
        if hw == 16 {
            if y >= 16 {
                assert(y / 16 == 1 && y % 16 == y - 16);
            } else {
                assert(y / 16 == 0 && y % 16 == y);
            }
        } else {
            if y >= 8 {
                assert(y / 8 == 1 && y % 8 == y - 8);
            } else {
                assert(y / 8 == 0 && y % 8 == y);
            }
        }
    }
    let idx: usize = if m[1][sidx] & smask != 0 { 1 } else { 0 };
    assert(idx == uv_edge_level(m, y as int, hw as int));
    let lvl: usize = if idx < lpf as usize { idx } else { lpf as usize };
    let mut r = m;
    r[1][sidx] = r[1][sidx] & !smask;
    r[0][sidx] = r[0][sidx] & !smask;
    r[lvl][sidx] = r[lvl][sidx] | smask;
    assert forall|l: int, b: int| 0 <= l < 2 && 0 <= b < 2 * (hw as int) implies #[trigger] pair_bit(
        r[l],
        b,
        hw as int,
    ) == if b == y {
        l == capped_level(uv_edge_level(m, y as int, hw as int), lpf)
    } else {
        pair_bit(m[l], b, hw as int)
    } by {
        let h = b / (hw as int);
        let j = (b % (hw as int)) as u16;
        assert(b == h * hw + j && y == sidx * hw + k && 0 <= j < hw && 0 <= k < hw) by {
            if hw == 16 {
            } else {
            }
        }
        if h == sidx {
            lemma_clear_bit(m[l][h], k, j);
            lemma_set_bit(m[l][h] & !smask, k, j);
            if b == y {
                assert(j == k);
            } else {
                assert(j != k);
            }
        } else {
            assert(b != y);
            assert(r[l][h] == m[l][h]);
        }
    }
    assert forall|l: int, h: int| hw < 16 && 0 <= l < 2 && 0 <= h < 2 implies #[trigger] high_bits(r[l][h], hw as int)
        == high_bits(m[l][h], hw as int) by {
        if h == sidx {
            lemma_low_bit_keeps_high(m[l][h], k, hw as u16);
        } else {
            assert(r[l][h] == m[l][h]);
        }
    }
    r
}

/// Fixes the filter levels of the luma edge bits `start..end` at a tile
/// boundary: bit `b` moves to the smaller of its own level and `lpf[b - start]`,
/// the level that the transform across the boundary allows, and is cleared at
/// the other levels. The other bits stay as they are.
#[verifier::spinoff_prover]
pub fn fix_y_edge(m: [[u16; 2]; 3], start: u32, end: u32, lpf: &[u8]) -> (r: [[u16; 2]; 3])
    requires
        start <= end <= 32,
        end - start <= lpf@.len(),
        forall|b: int|
            start <= b < end ==> capped_level(y_edge_level(m, b), #[trigger] lpf@[b - start]) < 3,
    ensures
        y_edge_fixed(m, r, start as int, end as int, lpf@),
{
    let mut r = m;
    let mut y: u32 = start;
    while y < end
        invariant
            start <= y <= end <= 32,
            end - start <= lpf@.len(),
            forall|b: int|
                start <= b < end ==> capped_level(y_edge_level(m, b), #[trigger] lpf@[b - start]) < 3,
            forall|l: int, b: int|
                0 <= l < 3 && 0 <= b < 32 ==> #[trigger] pair_bit(r[l], b, 16) == if start <= b < y {
                    l == capped_level(y_edge_level(m, b), lpf@[b - start])
                } else {
                    pair_bit(m[l], b, 16)
                },
        decreases end - y,
    {
        let lpf_y = lpf[(y - start) as usize];
        assert(pair_bit(r[1], y as int, 16) == pair_bit(m[1], y as int, 16));
        assert(pair_bit(r[2], y as int, 16) == pair_bit(m[2], y as int, 16));
        assert(y_edge_level(r, y as int) == y_edge_level(m, y as int));
        assert(capped_level(y_edge_level(m, y as int), lpf@[y - start]) < 3);
        let ghost prev = r;
        r = fix_y_edge_bit(r, y, lpf_y);
        assert forall|l: int, b: int| 0 <= l < 3 && 0 <= b < 32 implies #[trigger] pair_bit(
            r[l],
            b,
            16,
        ) == if start <= b < y + 1 {
            l == capped_level(y_edge_level(m, b), lpf@[b - start])
        } else {
            pair_bit(m[l], b, 16)
        } by {
            assert(pair_bit(prev[l], b, 16) == if start <= b < y {
                l == capped_level(y_edge_level(m, b), lpf@[b - start])
            } else {
                pair_bit(m[l], b, 16)
            });
        }
        y = y + 1;
    }
    r
}

/// Fixes the filter levels of the chroma edge bits `start..end` at a tile
/// boundary, for masks whose halves are `16 >> ss` bits wide: bit `b` moves to
/// the smaller of its own level and `lpf[b - start]`, and is cleared at the
/// other level. The other bits stay as they are.
#[verifier::spinoff_prover]
pub fn fix_uv_edge(m: [[u16; 2]; 2], start: u32, end: u32, lpf: &[u8], ss: i32) -> (r: [[u16; 2]; 2])
    requires
        0 <= ss <= 1,
        start <= end <= 2 * half_width(ss as int),
        end - start <= lpf@.len(),
        forall|b: int|
            start <= b < end ==> capped_level(
                uv_edge_level(m, b, half_width(ss as int)),
                #[trigger] lpf@[b - start],
            ) < 2,
    ensures
        uv_edge_fixed(m, r, start as int, end as int, lpf@, half_width(ss as int)),
{
    let ghost hw = half_width(ss as int);
    let mut r = m;
    let mut y: u32 = start;
    while y < end
        invariant
            0 <= ss <= 1,
            hw == half_width(ss as int),
            start <= y <= end <= 2 * hw,
            end - start <= lpf@.len(),
            forall|b: int|
                start <= b < end ==> capped_level(uv_edge_level(m, b, hw), #[trigger] lpf@[b - start])
                    < 2,
            forall|l: int, b: int|
                0 <= l < 2 && 0 <= b < 2 * hw ==> #[trigger] pair_bit(r[l], b, hw) == if start <= b
                    < y {
                    l == capped_level(uv_edge_level(m, b, hw), lpf@[b - start])
                } else {
                    pair_bit(m[l], b, hw)
                },
            hw < 16 ==> forall|l: int, h: int|
                0 <= l < 2 && 0 <= h < 2 ==> #[trigger] high_bits(r[l][h], hw) == high_bits(m[l][h], hw),
        decreases end - y,
    {
        let lpf_y = lpf[(y - start) as usize];
        assert(pair_bit(r[1], y as int, hw) == pair_bit(m[1], y as int, hw));
        assert(uv_edge_level(r, y as int, hw) == uv_edge_level(m, y as int, hw));
        assert(capped_level(uv_edge_level(m, y as int, hw), lpf@[y - start]) < 2);
        let ghost prev = r;
        r = fix_uv_edge_bit(r, y, lpf_y, ss);
        assert forall|l: int, b: int| 0 <= l < 2 && 0 <= b < 2 * hw implies #[trigger] pair_bit(
            r[l],
            b,
            hw,
        ) == if start <= b < y + 1 {
            l == capped_level(uv_edge_level(m, b, hw), lpf@[b - start])
        } else {
            pair_bit(m[l], b, hw)
        } by {
            assert(pair_bit(prev[l], b, hw) == if start <= b < y {
                l == capped_level(uv_edge_level(m, b, hw), lpf@[b - start])
            } else {
                pair_bit(m[l], b, hw)
            });
        }
        assert forall|l: int, h: int| hw < 16 && 0 <= l < 2 && 0 <= h < 2 implies #[trigger] high_bits(r[l][h], hw)
            == high_bits(m[l][h], hw) by {
            assert(high_bits(prev[l][h], hw) == high_bits(m[l][h], hw));
        }
        y = y + 1;
    }
    r
}

/// After a boundary fix, every luma edge bit in the fixed range is set at
/// exactly one level, the level it was allowed.
pub proof fn lemma_fixed_y_edge_one_level(
    m: [[u16; 2]; 3],
    r: [[u16; 2]; 3],
    start: int,
    end: int,
    lpf: Seq<u8>,
    b: int,
)
    requires
        y_edge_fixed(m, r, start, end, lpf),
        0 <= start <= b < end <= 32,
        capped_level(y_edge_level(m, b), lpf[b - start]) < 3,
    ensures
        pair_bit(r[capped_level(y_edge_level(m, b), lpf[b - start])], b, 16),
        forall|l: int|
            0 <= l < 3 && l != capped_level(y_edge_level(m, b), lpf[b - start]) ==> !#[trigger] pair_bit(
                r[l],
                b,
                16,
            ),
        y_edge_level(r, b) == capped_level(y_edge_level(m, b), lpf[b - start]),
{
    assert(pair_bit(r[0], b, 16) == (0 == capped_level(y_edge_level(m, b), lpf[b - start])));
    assert(pair_bit(r[1], b, 16) == (1 == capped_level(y_edge_level(m, b), lpf[b - start])));
    assert(pair_bit(r[2], b, 16) == (2 == capped_level(y_edge_level(m, b), lpf[b - start])));
}

/// Fixing a luma edge a second time with the same allowed levels changes
/// nothing.
pub proof fn lemma_fix_y_edge_idempotent(
    m: [[u16; 2]; 3],
    r: [[u16; 2]; 3],
    r2: [[u16; 2]; 3],
    start: int,
    end: int,
    lpf: Seq<u8>,
)
    requires
        0 <= start <= end <= 32,
        forall|b: int| start <= b < end ==> capped_level(y_edge_level(m, b), #[trigger] lpf[b - start]) < 3,
        y_edge_fixed(m, r, start, end, lpf),
        y_edge_fixed(r, r2, start, end, lpf),
    ensures
        forall|l: int, b: int| 0 <= l < 3 && 0 <= b < 32 ==> #[trigger] pair_bit(r2[l], b, 16) == pair_bit(r[l], b, 16),
        forall|l: int, h: int| 0 <= l < 3 && 0 <= h < 2 ==> #[trigger] r2[l][h] == r[l][h],
{
    assert forall|l: int, b: int| 0 <= l < 3 && 0 <= b < 32 implies #[trigger] pair_bit(r2[l], b, 16)
        == pair_bit(r[l], b, 16) by {
        if start <= b < end {
            assert(capped_level(y_edge_level(m, b), lpf[b - start]) < 3);
            lemma_fixed_y_edge_one_level(m, r, start, end, lpf, b);
            assert(pair_bit(r2[l], b, 16) == (l == capped_level(y_edge_level(r, b), lpf[b - start])));
        }
    }
    assert forall|l: int, h: int| 0 <= l < 3 && 0 <= h < 2 implies #[trigger] r2[l][h] == r[l][h] by {
        lemma_words_from_bits(r2[l], r[l], 16, h);
    }
}

/// After a boundary fix, every chroma edge bit in the fixed range is set at
/// exactly one level, the level it was allowed.
pub proof fn lemma_fixed_uv_edge_one_level(
    m: [[u16; 2]; 2],
    r: [[u16; 2]; 2],
    start: int,
    end: int,
    lpf: Seq<u8>,
    hw: int,
    b: int,
)
    requires
        uv_edge_fixed(m, r, start, end, lpf, hw),
        0 <= start <= b < end <= 2 * hw,
        capped_level(uv_edge_level(m, b, hw), lpf[b - start]) < 2,
    ensures
        pair_bit(r[capped_level(uv_edge_level(m, b, hw), lpf[b - start])], b, hw),
        forall|l: int|
            0 <= l < 2 && l != capped_level(uv_edge_level(m, b, hw), lpf[b - start]) ==> !#[trigger] pair_bit(r[l], b, hw),
        uv_edge_level(r, b, hw) == capped_level(uv_edge_level(m, b, hw), lpf[b - start]),
{
    assert(pair_bit(r[0], b, hw) == (0 == capped_level(uv_edge_level(m, b, hw), lpf[b - start])));
    assert(pair_bit(r[1], b, hw) == (1 == capped_level(uv_edge_level(m, b, hw), lpf[b - start])));
}

/// Fixing a chroma edge a second time with the same allowed levels changes
/// nothing.
pub proof fn lemma_fix_uv_edge_idempotent(
    m: [[u16; 2]; 2],
    r: [[u16; 2]; 2],
    r2: [[u16; 2]; 2],
    start: int,
    end: int,
    lpf: Seq<u8>,
    hw: int,
)
    requires
        hw == 8 || hw == 16,
        0 <= start <= end <= 2 * hw,
        forall|b: int| start <= b < end ==> capped_level(uv_edge_level(m, b, hw), #[trigger] lpf[b - start]) < 2,
        uv_edge_fixed(m, r, start, end, lpf, hw),
        uv_edge_fixed(r, r2, start, end, lpf, hw),
    ensures
        forall|l: int, b: int| 0 <= l < 2 && 0 <= b < 2 * hw ==> #[trigger] pair_bit(r2[l], b, hw) == pair_bit(r[l], b, hw),
        forall|l: int, h: int| 0 <= l < 2 && 0 <= h < 2 ==> #[trigger] r2[l][h] == r[l][h],
{
    assert forall|l: int, b: int| 0 <= l < 2 && 0 <= b < 2 * hw implies #[trigger] pair_bit(r2[l], b, hw)
        == pair_bit(r[l], b, hw) by {
        if start <= b < end {
            assert(capped_level(uv_edge_level(m, b, hw), lpf[b - start]) < 2);
            lemma_fixed_uv_edge_one_level(m, r, start, end, lpf, hw, b);
            assert(pair_bit(r2[l], b, hw) == (l == capped_level(uv_edge_level(r, b, hw), lpf[b - start])));
        }
    }
    assert forall|l: int, h: int| 0 <= l < 2 && 0 <= h < 2 implies #[trigger] r2[l][h] == r[l][h] by {
        lemma_words_from_bits(r2[l], r[l], hw, h);
    }
}

/// Bit `b` of a luma edge mask is set at no more than one level.
pub open spec fn y_at_most_one(m: [[u16; 2]; 3], b: int) -> bool {
    &&& !(pair_bit(m[0], b, 16) && pair_bit(m[1], b, 16))
    &&& !(pair_bit(m[0], b, 16) && pair_bit(m[2], b, 16))
    &&& !(pair_bit(m[1], b, 16) && pair_bit(m[2], b, 16))
}

/// Bit `b` of a luma edge mask is set at exactly one level.
pub open spec fn y_in_one(m: [[u16; 2]; 3], b: int) -> bool {
    y_at_most_one(m, b) && (pair_bit(m[0], b, 16) || pair_bit(m[1], b, 16) || pair_bit(m[2], b, 16))
}

/// No bit of a luma edge mask is set at two levels.
pub open spec fn y_bits_apart(m: [[u16; 2]; 3]) -> bool {
    forall|b: int| 0 <= b < 32 ==> #[trigger] y_at_most_one(m, b)
}

/// Bit `b` of a chroma edge mask with halves of `hw` bits is set at no more
/// than one level.
pub open spec fn uv_at_most_one(m: [[u16; 2]; 2], b: int, hw: int) -> bool {
    !(pair_bit(m[0], b, hw) && pair_bit(m[1], b, hw))
}

/// Bit `b` of a chroma edge mask is set at exactly one level.
pub open spec fn uv_in_one(m: [[u16; 2]; 2], b: int, hw: int) -> bool {
    uv_at_most_one(m, b, hw) && (pair_bit(m[0], b, hw) || pair_bit(m[1], b, hw))
}

/// No bit of a chroma edge mask with halves of `hw` bits is set at two levels.
pub open spec fn uv_bits_apart(m: [[u16; 2]; 2], hw: int) -> bool {
    forall|b: int| 0 <= b < 2 * hw ==> #[trigger] uv_at_most_one(m, b, hw)
}

/// A boundary fix of a luma edge mask whose bits are each set at no more
/// than one level keeps them so, never raises a bit's level, and leaves every
/// bit of the fixed range set at exactly one level (level `0` for a bit that
/// was set at none).
pub proof fn lemma_y_edge_fix_never_raises(m: [[u16; 2]; 3], r: [[u16; 2]; 3], start: int, end: int, lpf: Seq<u8>)
    requires
        0 <= start <= end <= 32,
        forall|b: int| start <= b < end ==> capped_level(y_edge_level(m, b), #[trigger] lpf[b - start]) < 3,
        y_edge_fixed(m, r, start, end, lpf),
        y_bits_apart(m),
    ensures
        y_bits_apart(r),
        forall|b: int| 0 <= b < 32 ==> #[trigger] y_edge_level(r, b) <= y_edge_level(m, b),
        forall|b: int| start <= b < end ==> #[trigger] y_in_one(r, b),
{
    assert forall|b: int| 0 <= b < 32 implies #[trigger] y_at_most_one(r, b) && y_edge_level(r, b) <= y_edge_level(m, b)
        && (start <= b < end ==> y_in_one(r, b)) by {
        assert(pair_bit(r[0], b, 16) == if start <= b < end { 0 == capped_level(y_edge_level(m, b), lpf[b - start]) } else { pair_bit(m[0], b, 16) });
        assert(pair_bit(r[1], b, 16) == if start <= b < end { 1 == capped_level(y_edge_level(m, b), lpf[b - start]) } else { pair_bit(m[1], b, 16) });
        assert(pair_bit(r[2], b, 16) == if start <= b < end { 2 == capped_level(y_edge_level(m, b), lpf[b - start]) } else { pair_bit(m[2], b, 16) });
        assert(y_at_most_one(m, b));
    }
    assert forall|b: int| 0 <= b < 32 implies #[trigger] y_edge_level(r, b) <= y_edge_level(m, b) by {
        assert(y_at_most_one(r, b));
    }
    assert forall|b: int| start <= b < end implies #[trigger] y_in_one(r, b) by {
        assert(y_at_most_one(r, b));
    }
}

/// A boundary fix of a chroma edge mask whose bits are each set at no more
/// than one level keeps them so, never raises a bit's level, and leaves every
/// bit of the fixed range set at exactly one level.
pub proof fn lemma_uv_edge_fix_never_raises(
    m: [[u16; 2]; 2],
    r: [[u16; 2]; 2],
    start: int,
    end: int,
    lpf: Seq<u8>,
    hw: int,
)
    requires
        0 <= start <= end <= 2 * hw,
        forall|b: int| start <= b < end ==> capped_level(uv_edge_level(m, b, hw), #[trigger] lpf[b - start]) < 2,
        uv_edge_fixed(m, r, start, end, lpf, hw),
        uv_bits_apart(m, hw),
    ensures
        uv_bits_apart(r, hw),
        forall|b: int| 0 <= b < 2 * hw ==> #[trigger] uv_edge_level(r, b, hw) <= uv_edge_level(m, b, hw),
        forall|b: int| start <= b < end ==> #[trigger] uv_in_one(r, b, hw),
{
    assert forall|b: int| 0 <= b < 2 * hw implies #[trigger] uv_at_most_one(r, b, hw) && uv_edge_level(r, b, hw) <= uv_edge_level(
        m,
        b,
        hw,
    ) && (start <= b < end ==> uv_in_one(r, b, hw)) by {
        assert(pair_bit(r[0], b, hw) == if start <= b < end { 0 == capped_level(uv_edge_level(m, b, hw), lpf[b - start]) } else { pair_bit(m[0], b, hw) });
        assert(pair_bit(r[1], b, hw) == if start <= b < end { 1 == capped_level(uv_edge_level(m, b, hw), lpf[b - start]) } else { pair_bit(m[1], b, hw) });
        assert(uv_at_most_one(m, b, hw));
    }
    assert forall|b: int| 0 <= b < 2 * hw implies #[trigger] uv_edge_level(r, b, hw) <= uv_edge_level(m, b, hw) by {
        assert(uv_at_most_one(r, b, hw));
    }
    assert forall|b: int| start <= b < end implies #[trigger] uv_in_one(r, b, hw) by {
        assert(uv_at_most_one(r, b, hw));
    }
}

} // verus!
