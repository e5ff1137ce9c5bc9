use fastdoku::jcz::{run, Outcome};
use fastdoku::laws::{batches_agree, engines_agree, same_results};
use fastdoku::route::{
    auto_solve_grid, checksum, classify, count_verdicts, merge_results, solve_batch, solve_with,
    Engine, Verdict,
};
use fastdoku::{
    band, baseline_count_solutions, baseline_solve_grid, count_solutions, generate_puzzle,
    grid_to_line, is_valid_solution, jcz_count_solutions, jcz_solve_grid, parse_line,
    random_solved_grid, simd, solve_grid, triad_count_solutions, triad_solve_grid, Rng, ALL,
    HAS_TRIAD, HYBRID_GUESS_BUDGET, HYBRID_MAX_UNSOLVED,
};

const EASY: &str =
    "53..7....6..195....98....6.8...6...34..8.3..17...2...6.6....28....419..5....8..79";
const EASY_SOLVED: &str =
    "534678912672195348198342567859761423426853791713924856961537284287419635345286179";
/// Needs guesses.
const HARD: &str =
    "8..........36......7..9.2...5...7.......457.....1...3...1....68..85...1..9....4..";
const HARD_SOLVED: &str =
    "812753649943682175675491283154237896369845721287169534521974368438526917796318452";

#[test]
fn empty_grid_has_many_solutions() {
    let empty = [0u8; 81];
    assert_eq!(count_solutions(&empty, 2), 2);
}

#[test]
fn solves_easy() {
    let p = parse_line(
        "53..7....6..195....98....6.8...6...34..8.3..17...2...6.6....28....419..5....8..79",
    )
    .unwrap();
    let sol = solve_grid(&p).unwrap();
    assert!(is_valid_solution(&sol, &p));
}

#[test]
fn detects_contradiction() {
    // Two 5s in the first row.
    let mut p = [0u8; 81];
    p[0] = 5;
    p[1] = 5;
    assert_eq!(count_solutions(&p, 2), 0);
    assert!(solve_grid(&p).is_none());
}

/// The engines work independently of each other; on every puzzle they must
/// agree on the solution count, and any solution any of them returns must be a
/// valid completion of the clues.
fn cross_check(p: &[u8; 81]) {
    let c_base = baseline_count_solutions(p, 2);
    assert_eq!(
        c_base,
        jcz_count_solutions(p, 2),
        "jcz count differs on {}",
        grid_to_line(p)
    );
    assert_eq!(
        c_base,
        triad_count_solutions(p, 2),
        "triad count differs on {}",
        grid_to_line(p)
    );
    if c_base >= 1 {
        let check = |name: &str, sol: Option<[u8; 81]>| {
            let s = sol.unwrap_or_else(|| panic!("{name} found no solution"));
            assert!(is_valid_solution(&s, p), "{name} returned an invalid grid");
        };
        check("triad", triad_solve_grid(p));
        check("baseline", baseline_solve_grid(p));
        check("jcz", jcz_solve_grid(p));
    } else {
        assert!(solve_grid(p).is_none());
        assert!(jcz_solve_grid(p).is_none());
    }
}

#[test]
fn engines_agree_on_random_puzzles() {
    let mut rng = Rng(0x5DEECE66D_u64 ^ 0x1234_5678);
    for iter in 0..400u64 {
        let sol = random_solved_grid(&mut rng);
        let mut p = sol;
        let removals = 25 + (rng.next() % 50) as usize;
        for _ in 0..removals {
            p[(rng.next() % 81) as usize] = 0;
        }
        if iter % 3 == 2 {
            let c = (rng.next() % 81) as usize;
            if p[c] != 0 {
                p[c] = (rng.next() % 9) as u8 + 1;
            }
        }
        cross_check(&p);
    }
}

#[test]
fn engines_agree_on_minimal_puzzles() {
    let mut rng = Rng(0xDEADBEEFCAFEBABE);
    for _ in 0..25 {
        let p = generate_puzzle(&mut rng);
        cross_check(&p);
        assert_eq!(count_solutions(&p, 2), 1);
    }
}

#[test]
fn default_engine_matches_baseline_on_random_puzzles() {
    let mut rng = Rng(0x1234ABCD9876EF01);
    for iter in 0..300u64 {
        let sol = random_solved_grid(&mut rng);
        let mut p = sol;
        let removals = 30 + (rng.next() % 40) as usize;
        for _ in 0..removals {
            p[(rng.next() % 81) as usize] = 0;
        }
        if iter % 3 == 2 {
            // corrupt one clue to exercise contradiction paths
            let c = (rng.next() % 81) as usize;
            if p[c] != 0 {
                p[c] = (rng.next() % 9) as u8 + 1;
            }
        }
        let cb = baseline_count_solutions(&p, 2);
        let cn = count_solutions(&p, 2);
        assert_eq!(cb, cn, "solution count mismatch on {}", grid_to_line(&p));
        if cn >= 1 {
            let sn = solve_grid(&p).expect("default engine found no solution");
            assert!(is_valid_solution(&sn, &p));
            if cn == 1 {
                let sb = baseline_solve_grid(&p).unwrap();
                assert_eq!(sb, sn);
            }
        } else {
            assert!(solve_grid(&p).is_none());
        }
    }
}

#[test]
fn generator_produces_unique_puzzles() {
    let mut rng = Rng(0x9E3779B97F4A7C15);
    for _ in 0..5 {
        let p = generate_puzzle(&mut rng);
        assert_eq!(count_solutions(&p, 2), 1);
        let sol = solve_grid(&p).unwrap();
        assert!(is_valid_solution(&sol, &p));
    }
}

#[test]
fn every_engine_finds_the_known_solutions() {
    for (puzzle, solved) in [(EASY, EASY_SOLVED), (HARD, HARD_SOLVED)] {
        let p = parse_line(puzzle).unwrap();
        let want = parse_line(solved).unwrap();
        assert_eq!(solve_grid(&p), Some(want));
        assert_eq!(triad_solve_grid(&p), Some(want));
        assert_eq!(jcz_solve_grid(&p), Some(want));
        assert_eq!(baseline_solve_grid(&p), Some(want));
        assert_eq!(band::solve_grid(&p), Some(want));
        assert_eq!(simd::solve_grid(&p), Some(want));
        assert_eq!(band::count_solutions(&p, 2), 1);
        assert_eq!(simd::count_solutions(&p, 2), 1);
    }
}

#[test]
fn counts_stop_at_the_limit() {
    let empty = [0u8; 81];
    for limit in [0, 1, 7, 50] {
        assert_eq!(count_solutions(&empty, limit), limit);
        assert_eq!(jcz_count_solutions(&empty, limit), limit);
        assert_eq!(baseline_count_solutions(&empty, limit), limit);
        assert_eq!(band::count_solutions(&empty, limit), limit);
        assert_eq!(simd::count_solutions(&empty, limit), limit);
    }
}

#[test]
fn counts_below_the_limit_are_exact() {
    // Two rows swapped over two columns: blanking such a rectangle leaves
    // exactly two solutions.
    let mut p = parse_line(
        "123456789456789123789123456214365897365897214897214365531642978642978531978531642",
    )
    .unwrap();
    assert_eq!(count_solutions(&p, 10), 1);
    for c in [0, 1, 27, 28] {
        p[c] = 0;
    }
    assert_eq!(count_solutions(&p, 10), 2);
    assert_eq!(jcz_count_solutions(&p, 10), 2);
    assert_eq!(baseline_count_solutions(&p, 10), 2);
    assert_eq!(band::count_solutions(&p, 10), 2);
    assert_eq!(simd::count_solutions(&p, 10), 2);
}

#[test]
fn conflicts_leave_nothing() {
    // The same digit twice in a row, a column, a box.
    for (a, b) in [(0, 8), (4, 76), (30, 50)] {
        let mut p = [0u8; 81];
        p[a] = 7;
        p[b] = 7;
        assert_eq!(jcz_count_solutions(&p, 1), 0);
        assert_eq!(triad_count_solutions(&p, 1), 0);
        assert_eq!(baseline_count_solutions(&p, 1), 0);
        assert_eq!(band::count_solutions(&p, 1), 0);
        assert_eq!(simd::count_solutions(&p, 1), 0);
        assert!(band::solve_grid(&p).is_none());
        assert!(simd::solve_grid(&p).is_none());
    }
}

#[test]
fn a_clue_above_nine_has_no_solution() {
    let mut p = [0u8; 81];
    p[40] = 10;
    assert!(baseline_solve_grid(&p).is_none());
    assert_eq!(baseline_count_solutions(&p, 5), 0);
}

#[test]
fn agreement_holds() {
    for line in [EASY, EASY_SOLVED, HARD] {
        let p = parse_line(line).unwrap();
        assert!(engines_agree(&p, 2));
    }
    assert!(engines_agree(&[0; 81], 20));
    let mut p = [0u8; 81];
    p[0] = 5;
    p[1] = 5;
    assert!(engines_agree(&p, 2));
}

#[test]
fn deferral() {
    let easy = parse_line(EASY).unwrap();
    match run(&easy, 1, HYBRID_MAX_UNSOLVED, HYBRID_GUESS_BUDGET) {
        Outcome::Done(n, sol) => {
            assert_eq!(n, 1);
            assert_eq!(sol, parse_line(EASY_SOLVED));
        }
        Outcome::Deferred => panic!("propagation alone solves this puzzle"),
    }
    // Nothing to propagate: far from solved at the first guess point.
    let empty = [0u8; 81];
    assert!(matches!(
        run(&empty, 1, HYBRID_MAX_UNSOLVED, HYBRID_GUESS_BUDGET),
        Outcome::Deferred
    ));
    // No guess allowed.
    assert!(matches!(run(&empty, 1, 81, 0), Outcome::Deferred));
    // A contradiction is never deferred.
    let mut p = [0u8; 81];
    p[0] = 5;
    p[1] = 5;
    assert!(matches!(run(&p, 1, 0, 0), Outcome::Done(0, None)));
}

#[test]
fn constants() {
    assert!(HAS_TRIAD);
    assert_eq!(ALL, 0x1ff);
    assert_eq!(HYBRID_MAX_UNSOLVED, 50);
    assert_eq!(HYBRID_GUESS_BUDGET, 16);
}

const ENGINES: [Engine; 6] = [
    Engine::Auto,
    Engine::Jcz,
    Engine::Triad,
    Engine::Band,
    Engine::Simd,
    Engine::Baseline,
];

/// Two rows swapped over two columns, the four cells blanked.
fn two_ways() -> ([u8; 81], [u8; 81]) {
    let g = parse_line(
        "123456789456789123789123456214365897365897214897214365531642978642978531978531642",
    )
    .unwrap();
    let mut p = g;
    for c in [0, 1, 27, 28] {
        p[c] = 0;
    }
    (p, g)
}

#[test]
fn each_name_means_its_own_engine() {
    // Puzzles with many solutions, so that engines may differ in the first.
    let mut sparse = [0u8; 81];
    sparse[40] = 5;
    sparse[0] = 9;
    for p in [[0u8; 81], sparse, two_ways().0] {
        assert_eq!(solve_with(Engine::Auto, &p), auto_solve_grid(&p));
        assert_eq!(solve_with(Engine::Jcz, &p), jcz_solve_grid(&p));
        assert_eq!(solve_with(Engine::Triad, &p), triad_solve_grid(&p));
        assert_eq!(solve_with(Engine::Band, &p), band::solve_grid(&p));
        assert_eq!(solve_with(Engine::Simd, &p), simd::solve_grid(&p));
        assert_eq!(solve_with(Engine::Baseline, &p), baseline_solve_grid(&p));
        for engine in ENGINES {
            assert!(is_valid_solution(&solve_with(engine, &p).unwrap(), &p));
        }
    }
}

#[test]
fn a_deferred_puzzle_gets_the_answer_of_the_triad_engine() {
    let mut sparse = [0u8; 81];
    sparse[13] = 2;
    for p in [[0u8; 81], sparse, parse_line(HARD).unwrap()] {
        assert!(matches!(
            run(&p, 1, HYBRID_MAX_UNSOLVED, HYBRID_GUESS_BUDGET),
            Outcome::Deferred
        ));
        assert_eq!(auto_solve_grid(&p), triad_solve_grid(&p));
    }
}

#[test]
fn lower_digits_come_first() {
    let (p, g) = two_ways();
    assert_eq!(band::solve_grid(&p), Some(g));
    assert_eq!(simd::solve_grid(&p), Some(g));
    assert_eq!(baseline_solve_grid(&p), Some(g));
    // Row by row, as long as nothing forces another order.
    let b = band::solve_grid(&[0; 81]).unwrap();
    let s = simd::solve_grid(&[0; 81]).unwrap();
    assert_eq!(b[..9], [1, 2, 3, 4, 5, 6, 7, 8, 9]);
    assert_eq!(s[..9], [1, 2, 3, 4, 5, 6, 7, 8, 9]);
}

#[test]
fn a_batch_adds_up() {
    let easy = parse_line(EASY).unwrap();
    let solved = parse_line(EASY_SOLVED).unwrap();
    let hard = parse_line(HARD).unwrap();
    let hard_solved = parse_line(HARD_SOLVED).unwrap();
    let mut none = [0u8; 81];
    none[0] = 5;
    none[1] = 5;
    for engine in ENGINES {
        assert_eq!(solve_batch(&[], engine), (0, 0));
        assert_eq!(solve_batch(&[easy], engine), (checksum(&solved), 1));
        assert_eq!(solve_batch(&[none], engine), (0, 0));
        let sum = checksum(&solved).wrapping_add(checksum(&hard_solved));
        assert_eq!(solve_batch(&[easy, none, hard], engine), (sum, 2));
    }
}

#[test]
fn a_batch_may_be_split_anywhere() {
    let mut puzzles = vec![[0u8; 81], two_ways().0, parse_line(EASY).unwrap()];
    let mut rng = Rng(0xBADC0FFEE);
    for _ in 0..3 {
        puzzles.push(generate_puzzle(&mut rng));
    }
    let mut none = [0u8; 81];
    none[7] = 3;
    none[8] = 3;
    puzzles.push(none);
    for engine in ENGINES {
        let whole = solve_batch(&puzzles, engine);
        assert_eq!(whole.1, 6);
        for size in 1..=puzzles.len() {
            let parts = puzzles.chunks(size).map(|c| solve_batch(c, engine));
            assert_eq!(parts.fold((0, 0), merge_results), whole);
            assert!(batches_agree(&puzzles, size, engine));
        }
        assert!(batches_agree(&puzzles, 0, engine));
    }
}

#[test]
fn verdicts_are_counted() {
    let mut none = [0u8; 81];
    none[0] = 5;
    none[1] = 5;
    let easy = parse_line(EASY).unwrap();
    let verdicts = [
        classify(&easy),
        classify(&none),
        classify(&[0; 81]),
        classify(&two_ways().0),
        classify(&easy),
        classify(&easy),
    ];
    assert_eq!(verdicts[0], Verdict::Unique);
    assert_eq!(verdicts[1], Verdict::Unsolvable);
    assert_eq!(verdicts[2], Verdict::Multiple);
    assert_eq!(count_verdicts(&verdicts), (1, 3, 2));
    assert_eq!(count_verdicts(&[]), (0, 0, 0));
}

#[test]
fn engines_agree_on_batches_of_proper_puzzles() {
    let mut puzzles = vec![parse_line(EASY).unwrap(), parse_line(HARD).unwrap()];
    let mut rng = Rng(0xFEED_FACE);
    for _ in 0..3 {
        puzzles.push(generate_puzzle(&mut rng));
    }
    let mut none = [0u8; 81];
    none[3] = 4;
    none[5] = 4;
    puzzles.push(none);
    for a in ENGINES {
        for b in ENGINES {
            assert!(same_results(&puzzles, a, b));
        }
    }
    // Of several solutions the engines return different ones.
    assert!(!same_results(&[[0u8; 81]], Engine::Triad, Engine::Baseline));
}
