use fastdoku::band::state::{BState, Queue};
use fastdoku::band::tables::Tables;
use fastdoku::baseline;
use fastdoku::jcz::propagate::State;
use fastdoku::jcz::{run, Outcome};
use fastdoku::route::{count_after, solve_after};
use fastdoku::simd;
use fastdoku::triad::boxes::{box_fixpoint, TState};
use fastdoku::triad::init::init_and_propagate;
use fastdoku::triad::search::{choose_band_and_value, NONE};
use fastdoku::tvec::C16;
use fastdoku::{
    baseline_count_solutions, baseline_solve_grid, count_solutions, is_valid_solution,
    jcz_count_solutions, parse_line, triad_count_solutions,
};

const EASY: &str =
    "53..7....6..195....98....6.8...6...34..8.3..17...2...6.6....28....419..5....8..79";
const EASY_SOLVED: &str =
    "534678912672195348198342567859761423426853791713924856961537284287419635345286179";
const HARD: &str =
    "8..........36......7..9.2...5...7.......457.....1...3...1....68..85...1..9....4..";
/// Two rows exchange two digits, so that four cells stay open.
const FOUR_OPEN: &str =
    "53467891267219534819834256785976.42.42685.79.713924856961537284287419635345286179";

fn outcome(
    p: &[u8; 81],
    limit: u64,
    max_unsolved: u32,
    budget: u32,
) -> Option<(u64, Option<[u8; 81]>)> {
    match run(p, limit, max_unsolved, budget) {
        Outcome::Done(n, s) => Some((n, s)),
        Outcome::Deferred => None,
    }
}

#[test]
fn clues_become_boards() {
    let mut clues = [0u8; 81];
    clues[0] = 1;
    let s = match State::init_from_clues(&clues) {
        Ok(s) => s,
        Err(_) => panic!("one clue contradicts nothing"),
    };
    for i in 0..27 {
        let want = match i {
            0 => 0x7E3F001,
            1..=8 => 0x7FFFFFE,
            9 | 18 => 0x7FBFDFE,
            _ => 0x7FFFFFF,
        };
        assert_eq!(s.poss[i], want, "board {}", i);
    }
    assert_eq!(s.unsolved, [0x7FFFFFE, 0x7FFFFFF, 0x7FFFFFF]);
    assert_eq!(s.dirty, 0x7FFFFFF);
    assert_eq!(s.pairs, [0; 3]);
}

#[test]
fn clashing_clues_give_no_boards() {
    let mut clues = [0u8; 81];
    clues[0] = 1;
    clues[8] = 1;
    assert!(State::init_from_clues(&clues).is_err());
}

#[test]
fn a_stack_is_reduced_and_its_single_queued() {
    let t = Tables::new();
    let mut s = BState::new();
    let mut q = Queue::new();
    s.bands[0] = 0x7FBFDFE;
    s.bands[9] = 0x7FBFFFE;
    s.bands[18] = 0x7FBFDFE;
    let before = s;
    assert_eq!(s.band_inference(&mut q, 1, false, &t), Some(true));
    for i in 0..27 {
        let want = if i == 9 { 0x7E3F3F8 } else { before.bands[i] };
        assert_eq!(s.bands[i], want, "word {}", i);
    }
    assert_eq!(s.unsolved, before.unsolved);
    assert_eq!(s.n_unsolved, before.n_unsolved);
    assert_eq!(q.len, 1);
    assert_eq!(q.buf[0], 41);
}

#[test]
fn only_the_named_digits_are_visited() {
    let t = Tables::new();
    let mut s = BState::new();
    let mut q = Queue::new();
    s.bands[0] = 0x7FBFDFE;
    s.bands[9] = 0x7FBFFFE;
    s.bands[18] = 0x7FBFDFE;
    let before = s;
    assert_eq!(s.band_inference(&mut q, 0x1FE, false, &t), Some(false));
    assert_eq!(s.bands, before.bands);
    assert_eq!(q.len, 0);
    // A digit without a place in a stack.
    let mut s = BState::new();
    for b in 0..3 {
        s.bands[9 * b + 4] = 0x7FFFFFF & !0x1C0E07;
    }
    let before = s;
    assert_eq!(s.band_inference(&mut q, 1 << 4, false, &t), None);
    assert_eq!(s.bands, before.bands);
}

#[test]
fn cardinality_of_minirows() {
    let t = simd::tables::Tables::new();
    // Every digit can go everywhere.
    let mut s = simd::state::State::new();
    let before = s;
    assert!(s.band_inference(&t));
    assert_eq!(s.b, before.b);
    // Two digits are left for the first minirow.
    let mut s = simd::state::State::new();
    for d in 2..9 {
        s.b[d][0] &= !0x7;
        s.b[d][3] &= !0x40201;
    }
    let before = s;
    assert!(!s.band_inference(&t));
    assert_eq!(s.b, before.b);
}

#[test]
fn three_digits_take_a_minirow() {
    let t = simd::tables::Tables::new();
    let mut s = simd::state::State::new();
    for d in 3..9 {
        s.b[d][0] &= !0x7;
        s.b[d][3] &= !0x40201;
    }
    let before = s;
    assert!(s.band_inference(&t));
    for d in 0..9 {
        let mut want = before.b[d];
        if d < 3 {
            // Off the rest of the first row and of the first box.
            want[0] = 0x7E3F007;
            want[3] = 0x7E7F3F9;
            want[4] &= !0x40201;
            want[5] &= !0x40201;
        }
        assert_eq!(s.b[d], want, "digit {}", d);
    }
}

#[test]
fn the_threshold_counts_open_cells() {
    let p = parse_line(FOUR_OPEN).unwrap();
    assert_eq!(outcome(&p, 2, 3, 16), None);
    let (n, s) = outcome(&p, 2, 4, 16).unwrap();
    assert_eq!(n, 2);
    assert!(is_valid_solution(&s.unwrap(), &p));
    assert_eq!(outcome(&p, 2, 4, 0), None);
    // One guess settles the rectangle, as it leaves each branch solved.
    assert_eq!(outcome(&p, 2, 4, 1).map(|r| r.0), Some(2));
}

#[test]
fn the_threshold_comes_before_the_limit() {
    let empty = [0u8; 81];
    assert_eq!(outcome(&empty, 0, 50, 16), None);
    // The first way down takes guesses, though nothing is counted.
    assert_eq!(outcome(&empty, 0, 81, 1), None);
    assert_eq!(outcome(&empty, 0, 81, u32::MAX), Some((0, None)));
    let p = parse_line(FOUR_OPEN).unwrap();
    assert_eq!(outcome(&p, 0, 3, 16), None);
    assert_eq!(outcome(&p, 0, 4, 16), Some((0, None)));
    let easy = parse_line(EASY).unwrap();
    assert_eq!(jcz_count_solutions(&easy, 0), 0);
}

#[test]
fn a_larger_allowance_changes_no_answer() {
    for line in [EASY, HARD, FOUR_OPEN] {
        let p = parse_line(line).unwrap();
        let full = outcome(&p, 2, 81, u32::MAX);
        assert!(full.is_some());
        for max_unsolved in [0u32, 4, 30, 50, 60, 81] {
            for budget in [0u32, 1, 2, 4, 16, 64, 1000] {
                let r = outcome(&p, 2, max_unsolved, budget);
                if r.is_some() {
                    assert_eq!(r, full);
                    assert_eq!(outcome(&p, 2, max_unsolved + 1, budget + 1), full);
                }
            }
        }
    }
}

#[test]
fn what_propagation_solves_is_not_deferred() {
    let p = parse_line(EASY).unwrap();
    assert_eq!(outcome(&p, 1, 0, 0), Some((1, parse_line(EASY_SOLVED))));
    let solved = parse_line(EASY_SOLVED).unwrap();
    assert_eq!(outcome(&solved, 1, 0, 0), Some((1, Some(solved))));
}

#[test]
fn a_deferred_puzzle_goes_to_the_other_engine() {
    let p = parse_line(EASY).unwrap();
    let s = parse_line(EASY_SOLVED);
    assert_eq!(solve_after(Outcome::Deferred, &p), s);
    assert_eq!(count_after(Outcome::Deferred, &p, 2), 1);
    // What the first engine found stands.
    assert_eq!(solve_after(Outcome::Done(0, None), &p), None);
    assert_eq!(solve_after(Outcome::Done(1, Some([7; 81])), &p), Some([7; 81]));
    assert_eq!(count_after(Outcome::Done(5, None), &p, 9), 5);
}

/// Puzzles with some dozens of solutions and fewer.
fn puzzles() -> Vec<[u8; 81]> {
    let mut out = vec![
        parse_line(EASY).unwrap(),
        parse_line(FOUR_OPEN).unwrap(),
    ];
    let mut p = out[0];
    for c in [0, 1, 4, 9, 12] {
        p[c] = 0;
        out.push(p);
    }
    p[2] = 3;
    p[3] = 3;
    out.push(p);
    out
}

#[test]
fn renamed_digits_keep_the_count() {
    let to = [4u8, 9, 1, 7, 2, 5, 3, 8, 6];
    for p in puzzles() {
        let mut r = p;
        for c in r.iter_mut() {
            if *c != 0 {
                *c = to[*c as usize - 1];
            }
        }
        let n = baseline_count_solutions(&p, 500);
        assert_eq!(baseline_count_solutions(&r, 500), n);
        assert_eq!(count_solutions(&r, 500), n);
        assert_eq!(jcz_count_solutions(&r, 500), n);
        assert_eq!(triad_count_solutions(&r, 500), n);
    }
}

#[test]
fn transposing_keeps_the_count() {
    for p in puzzles() {
        let mut r = [0u8; 81];
        for c in 0..81 {
            r[c] = p[9 * (c % 9) + c / 9];
        }
        let n = baseline_count_solutions(&p, 500);
        assert_eq!(baseline_count_solutions(&r, 500), n);
        assert_eq!(count_solutions(&r, 500), n);
        assert_eq!(jcz_count_solutions(&r, 500), n);
        assert_eq!(triad_count_solutions(&r, 500), n);
    }
}

#[test]
fn the_baseline_tries_lower_digits_first() {
    // Both ways to fill the four cells are solutions; cell 32 gets the 1.
    let p = parse_line(FOUR_OPEN).unwrap();
    assert_eq!(baseline_solve_grid(&p), parse_line(EASY_SOLVED));
    let g = baseline_solve_grid(&[0; 81]).unwrap();
    assert_eq!(g[..9], [1, 2, 3, 4, 5, 6, 7, 8, 9]);
}

/// Leaves the first `n` digits as candidates of a cell.
fn leave(s: &mut BState, c: usize, n: usize) {
    for d in n..9 {
        s.bands[9 * (c / 27) + d] &= !(1 << (c % 27));
    }
}

#[test]
fn the_first_pair_is_picked() {
    let mut s = BState::new();
    leave(&mut s, 30, 3);
    assert_eq!(s.pick(), (1, 3, [0, 1, 2, 0, 0, 0, 0, 0, 0], 3));
    // A cell with fewer candidates than three goes before it only as a pair.
    leave(&mut s, 10, 4);
    let (b, i, _, n) = s.pick();
    assert_eq!((b, i, n), (1, 3, 3));
    leave(&mut s, 70, 2);
    let (b, i, _, n) = s.pick();
    assert_eq!((b, i, n), (2, 16, 2));
    leave(&mut s, 60, 2);
    let (b, i, _, n) = s.pick();
    assert_eq!((b, i, n), (2, 6, 2));
    // Without pairs and triples: the first with the fewest.
    let mut s = BState::new();
    leave(&mut s, 50, 5);
    leave(&mut s, 33, 5);
    leave(&mut s, 20, 7);
    let (b, i, _, n) = s.pick();
    assert_eq!((b, i, n), (1, 6, 5));
}

#[test]
fn the_first_pair_is_picked_lane_by_lane() {
    let t = simd::tables::Tables::new();
    let picked = |cells: &[(usize, usize)]| {
        let mut s = simd::state::State::new();
        for &(c, n) in cells {
            for d in n..9 {
                s.b[d][c / 27] &= !(1 << (c % 27));
            }
        }
        let (c, _, n) = s.pick(&t);
        (c, n)
    };
    assert_eq!(picked(&[]), (0, 9));
    assert_eq!(picked(&[(30, 3), (31, 3), (10, 4)]), (30, 3));
    assert_eq!(picked(&[(30, 3), (70, 2)]), (70, 2));
    assert_eq!(picked(&[(60, 2), (70, 2), (5, 3)]), (60, 2));
    assert_eq!(picked(&[(50, 5), (33, 5), (20, 7)]), (33, 5));
}

#[test]
fn the_last_lane_of_a_box_is_free() {
    for corner in [0u16, 0x1FF] {
        let mut s = TState::new();
        let mut lanes = [0x1FFu16; 16];
        lanes[0] = 0x10;
        lanes[15] = corner;
        assert!(box_fixpoint(&mut s, 0, C16 { lanes }));
        assert_eq!(s.boxen[0].lanes[0], 0x10);
        for i in [1, 2, 3, 4, 8, 12] {
            assert_eq!(s.boxen[0].lanes[i] & 0x10, 0, "lane {}", i);
        }
    }
}

#[test]
fn the_baseline_commits_the_cell_it_is_given() {
    let t = baseline::tables::Tables::new();
    let mut s = baseline::state::State::new();
    let mut q = baseline::state::Queue::new();
    s.cand[40] = 0x20;
    s.cand[0] = 0x10;
    s.cand[8] = 0x30;
    s.cand[72] = 0x11;
    s.dirty = 0;
    s.int_dirty = 0;
    q.push(40);
    let before = s;
    assert!(s.assign(0, &mut q, &t));
    assert!(!s.is_unsolved(0));
    assert!(s.is_unsolved(40));
    assert_eq!(s.n_unsolved, 80);
    for x in 0..81 {
        let peer = x != 0 && (x / 9 == 0 || x % 9 == 0 || (x / 27 == 0 && x % 9 < 3));
        let want = if peer { before.cand[x] & !0x10 } else { before.cand[x] };
        assert_eq!(s.cand[x], want, "cell {}", x);
    }
    for u in 0..27 {
        let want = if [0, 9, 18].contains(&u) { 0x10 } else { 0 };
        assert_eq!(s.unit_solved[u], want, "unit {}", u);
    }
    // A peer lies in every row and column, and in five boxes.
    assert_eq!(s.dirty, 0x3_FFFF | 0x4F << 18);
    assert_eq!(q.len, 3);
    assert_eq!(q.buf[..3], [40, 8, 72]);
    // A peer with nothing else.
    let mut s = before;
    s.cand[8] = 0x10;
    q.clear();
    assert!(!s.assign(0, &mut q, &t));
}

#[test]
fn naked_singles_are_queued_in_order() {
    let mut s = BState::new();
    let mut q = Queue::new();
    let only = |s: &mut BState, c: usize, d: usize| {
        for e in (0..9).filter(|&e| e != d) {
            s.bands[9 * (c / 27) + e] &= !(1 << (c % 27));
        }
    };
    only(&mut s, 50, 3);
    only(&mut s, 30, 8);
    only(&mut s, 5, 1);
    assert!(s.scan_naked(1, &mut q));
    assert_eq!(q.len, 2);
    assert_eq!(q.buf[..2], [(8 * 3 + 1) * 32 + 3, (3 * 3 + 1) * 32 + 23]);
    for e in 0..9 {
        s.bands[18 + e] &= !1;
    }
    assert!(!s.scan_naked(2, &mut q));
    assert_eq!(q.len, 2);
}

#[test]
fn singles_are_queued_lane_by_lane_in_order() {
    let t = simd::tables::Tables::new();
    let mut s = simd::state::State::new();
    let mut q = simd::state::Queue::new();
    for (c, d) in [(50usize, 3usize), (30, 8), (5, 1)] {
        for e in (0..9).filter(|&e| e != d) {
            s.b[e][c / 27] &= !(1 << (c % 27));
            s.b[e][3 + c % 9 / 3] &= !(1 << (9 * (c % 3) + c / 9));
        }
    }
    assert!(s.scan_naked(&mut q));
    assert_eq!(q.len, 3);
    assert_eq!(q.buf[..3], [128 + 5, 8 * 128 + 30, 3 * 128 + 50]);
    // Digit 0 has one place left in row 0 and one in row 2.
    let mut s = simd::state::State::new();
    let mut q = simd::state::Queue::new();
    for c in (0..27).filter(|&c| c / 9 != 1 && c != 4 && c != 20) {
        s.b[0][0] &= !(1 << c);
        s.b[0][3 + c % 9 / 3] &= !(1 << (9 * (c % 3) + c / 9));
    }
    assert!(s.scan_unit(0, 0, &mut q, &t));
    assert_eq!(q.len, 2);
    assert_eq!(q.buf[..2], [4, 20]);
    // Row 1 keeps the last box, so the columns of the others changed.
    assert_eq!(s.b[0][0], 1 << 4 | 1 << 20 | 0x7 << 15);
    assert_eq!(s.dirty, 1 << 3 | 1 << 4);
}

#[test]
fn an_assignment_marks_what_it_concerns() {
    let t = Tables::new();
    let mut s = BState::new();
    s.dirty_bd = 0;
    s.dirty_cells = 0;
    s.tdirty = 0;
    // Digits 2 and 5 at cell 0, and digit 2 nowhere else in column 0 of the
    // last band.
    for e in (0..9).filter(|&e| e != 2 && e != 5) {
        s.bands[e] &= !1;
    }
    s.bands[20] &= !0x40201;
    assert!(s.assign(2, 0, 0, &t));
    assert_eq!(s.dirty_bd, 1 << 6 | 1 << 7 | 1 << 15);
    assert_eq!(s.dirty_cells, 0b011);
    assert_eq!(s.tdirty, 1 << 2 | 1 << 5);

    let t = simd::tables::Tables::new();
    let mut s = simd::state::State::new();
    for e in (0..9).filter(|&e| e != 2 && e != 5) {
        s.b[e][0] &= !1;
        s.b[e][3] &= !1;
    }
    assert!(s.assign(2, 0, &t));
    assert_eq!(s.dirty, 0x3F << 12 | 1 << 30 | 1 << 33);
}

#[test]
fn nothing_to_branch_on() {
    let p = parse_line(EASY_SOLVED).unwrap();
    let mut s = TState::new();
    assert!(init_and_propagate(&mut s, &p));
    let (band, mask, pair) = choose_band_and_value(&s);
    assert_eq!(band, NONE);
    assert_eq!(mask.lanes, [0; 8]);
    assert!(!pair);
    let mut s = TState::new();
    assert!(init_and_propagate(&mut s, &[0; 81]));
    let (band, mask, pair) = choose_band_and_value(&s);
    assert_eq!(band, 0);
    assert_eq!(mask.lanes, [1, 1, 1, 1, 1, 1, 0, 0]);
    assert!(!pair);
}
