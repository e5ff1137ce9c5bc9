use fastdoku::band;
use fastdoku::band::fixpoint::complex_entry;
use fastdoku::band::tables::build_shrink;
use fastdoku::baseline::tables::build_intersections;
use fastdoku::clue_scan::clue_masks;
use fastdoku::jcz::tables::{build_col_single, build_neigh_ok};
use fastdoku::minirow::{
    build_closed, build_closed_cells, build_expand, build_forced, build_perms, shrink_band,
    BAND_ALL,
};

/// Brute-force truth for every 512-entry table against the definition "a full
/// solution restricted to one band and digit is a permutation matrix over
/// minirows".
#[test]
fn closure_tables_are_exact() {
    let perms = build_perms();
    let closed_cells = build_closed_cells();
    let forced_table = build_forced();
    for s in 0..512u16 {
        let fits: Vec<u16> = perms.iter().copied().filter(|&p| p & s == p).collect();
        let union = fits.iter().fold(0, |a, &p| a | p);
        let inter = fits.iter().fold(0x1ff, |a, &p| a & p);
        let mut want_cells = 0u32;
        for i in 0..9 {
            if union & (1 << i) != 0 {
                want_cells |= 0b111 << (9 * (i / 3) + 3 * (i % 3));
            }
        }
        assert_eq!(closed_cells[s as usize], want_cells, "CLOSED_CELLS[{s:o}]");
        let forced = if fits.is_empty() { 0 } else { inter };
        assert_eq!(forced_table[s as usize], forced, "FORCED[{s:o}]");
        // Soundness: forced minirows appear in every fitting permutation.
        for &p in &fits {
            assert_eq!(forced & p, forced);
        }
    }
}

#[test]
fn expand_and_column_tables() {
    let expand = build_expand();
    let col_single = build_col_single();
    let neigh_ok = build_neigh_ok();
    for m in 0..512usize {
        let mut want = 0u32;
        for i in 0..9 {
            if m & (1 << i) != 0 {
                want |= 0b111 << (9 * (i / 3) + 3 * (i % 3));
            }
        }
        assert_eq!(expand[m], want);

        let mut single = 0u16;
        let mut ok = BAND_ALL;
        for b in 0..3 {
            let cb = (m >> (3 * b)) & 7;
            if cb.count_ones() == 1 {
                single |= 0o111 << b;
                ok &= !(0o001_001_001 << (3 * b as u32 + (cb as u32).trailing_zeros()));
            }
        }
        assert_eq!(col_single[m], single);
        assert_eq!(neigh_ok[m], ok);
    }
}

#[test]
fn marks_exactly_the_non_zero_cells() {
    // Random patterns exercise every chunk boundary.
    let mut rng = 0x243f_6a88_85a3_08d3u64;
    for _ in 0..2000 {
        let mut grid = [0u8; 81];
        let (mut want_lo, mut want_hi) = (0u64, 0u32);
        for (cell, slot) in grid.iter_mut().enumerate() {
            rng ^= rng << 13;
            rng ^= rng >> 7;
            rng ^= rng << 17;
            if rng & 3 == 0 {
                *slot = (rng >> 40) as u8 | 1;
                if cell < 64 {
                    want_lo |= 1 << cell;
                } else {
                    want_hi |= 1 << (cell - 64);
                }
            }
        }
        assert_eq!(clue_masks(&grid), (want_lo, want_hi));
    }
}

#[test]
fn support_tables_agree() {
    assert!(band::check_support_tables());
    let closed = build_closed();
    for s in 0..512u16 {
        assert_eq!(complex_entry(s), closed[s as usize]);
    }
    // One permutation is its own closure; two lines without a third have none.
    assert_eq!(complex_entry(0b100_010_001), 0b100_010_001);
    assert_eq!(complex_entry(0b000_111_111), 0);
}

#[test]
fn permutations_of_minirows() {
    let mut perms = build_perms();
    perms.sort();
    assert_eq!(
        perms,
        [0b001_010_100, 0b001_100_010, 0b010_001_100, 0b010_100_001, 0b100_001_010, 0b100_010_001]
    );
}

#[test]
fn shrinking_cells_to_minirows() {
    let shrink = build_shrink();
    assert_eq!(shrink[0b000_000_001], 0b001);
    assert_eq!(shrink[0b100_000_010], 0b101);
    assert_eq!(shrink[0b111_111_111], 0b111);
    assert_eq!(shrink_band(BAND_ALL), 0x1ff);
    assert_eq!(shrink_band(1 << 13), 1 << 4);
}

#[test]
fn intersections_split_line_and_box() {
    let t = build_intersections();
    for k in 0..54 {
        let mut cells: Vec<u8> = t.cells[k].to_vec();
        cells.extend_from_slice(&t.line_rest[k]);
        assert_eq!(cells.len(), 9);
        let by_row = cells.iter().all(|c| c / 9 == cells[0] / 9);
        let by_col = cells.iter().all(|c| c % 9 == cells[0] % 9);
        assert!(by_row || by_col);
        let boxed = |c: &u8| (c / 27) * 3 + (c % 9) / 3;
        assert!(t.cells[k].iter().chain(&t.box_rest[k]).all(|c| boxed(c) == boxed(&cells[0])));
    }
}

#[test]
fn elimination_leaves_unions_of_permutations() {
    let closed = build_closed();
    for s in 0..512u16 {
        let c = complex_entry(s);
        assert_eq!(complex_entry(c), c);
        assert_eq!(closed[c as usize], c);
        assert_eq!(c & !s, 0);
    }
}
