use fastdoku::route::{
    auto_count_solutions, auto_solve_grid, checksum, classify, merge_results, solve_batch,
    solve_with, Engine, Verdict,
};
use fastdoku::{
    count_solutions, generate_puzzle, is_valid_solution, parse_line, random_solved_grid,
    solve_grid, Rng,
};

const EASY: &str =
    "53..7....6..195....98....6.8...6...34..8.3..17...2...6.6....28....419..5....8..79";
const EASY_SOLVED: &str =
    "534678912672195348198342567859761423426853791713924856961537284287419635345286179";

#[test]
fn xorshift_sequence() {
    let mut rng = Rng(1);
    assert_eq!(rng.next(), X1);
    assert_eq!(rng.next(), X2);
    assert_eq!(rng.next(), X3);
    assert_eq!(rng.0, X3);
    assert_eq!(Rng(0).next(), 0);
    assert_eq!(Rng(1).below(1000), X1 % 1000);
}

const X1: u64 = 0x40822041;
const X2: u64 = 0x100041060c011441;
const X3: u64 = 0x9b1e842f6e862629;

#[test]
fn grids_are_complete_and_differ() {
    let mut rng = Rng(7);
    let a = random_solved_grid(&mut rng);
    let b = random_solved_grid(&mut rng);
    assert!(is_valid_solution(&a, &[0; 81]));
    assert!(is_valid_solution(&b, &[0; 81]));
    assert_ne!(a, b);
    assert_eq!(random_solved_grid(&mut Rng(7)), a);
}

#[test]
fn first_cell_is_first_of_a_shuffle() {
    for seed in [1u64, 7, 42, 0x9E37_79B9_7F4A_7C15] {
        let mut rng = Rng(seed);
        let mut digits: Vec<u8> = (0..9).collect();
        for i in (1..9usize).rev() {
            let j = rng.below(i as u64 + 1) as usize;
            digits.swap(i, j);
        }
        let g = random_solved_grid(&mut Rng(seed));
        assert_eq!(g[0], digits[0] + 1);
    }
}

#[test]
fn puzzles_are_minimal() {
    let mut rng = Rng(42);
    let p = generate_puzzle(&mut rng);
    assert_eq!(count_solutions(&p, 2), 1);
    for c in 0..81 {
        if p[c] != 0 {
            let mut q = p;
            q[c] = 0;
            assert_eq!(count_solutions(&q, 2), 2);
        }
    }
    // Clues of the solution added back keep it the only one.
    let s = solve_grid(&p).unwrap();
    let mut q = p;
    q[0] = s[0];
    q[80] = s[80];
    assert_eq!(solve_grid(&q), Some(s));
    assert_eq!(count_solutions(&q, 2), 1);
}

#[test]
fn routing() {
    let p = parse_line(EASY).unwrap();
    let s = parse_line(EASY_SOLVED);
    assert_eq!(auto_solve_grid(&p), s);
    assert_eq!(auto_count_solutions(&p, 2), 1);
    assert_eq!(auto_count_solutions(&p, 0), 0);
    for engine in [
        Engine::Auto,
        Engine::Jcz,
        Engine::Triad,
        Engine::Band,
        Engine::Simd,
        Engine::Baseline,
    ] {
        assert_eq!(solve_with(engine, &p), s);
    }
    // Too far from solved for the first engine.
    let empty = [0u8; 81];
    assert!(is_valid_solution(&auto_solve_grid(&empty).unwrap(), &empty));
    assert_eq!(auto_count_solutions(&empty, 3), 3);
}

#[test]
fn verdicts() {
    let p = parse_line(EASY).unwrap();
    assert_eq!(classify(&p), Verdict::Unique);
    assert_eq!(classify(&[0; 81]), Verdict::Multiple);
    let mut q = p;
    q[2] = 5;
    assert_eq!(classify(&q), Verdict::Unsolvable);
}

#[test]
fn checksums() {
    assert_eq!(checksum(&[0; 81]), 0);
    let mut g = [0u8; 81];
    g[79] = 2;
    g[80] = 3;
    assert_eq!(checksum(&g), 65);
    assert_eq!(checksum(&parse_line(EASY_SOLVED).unwrap()), 0x5560b50096657671);
}

#[test]
fn batches() {
    let p = parse_line(EASY).unwrap();
    let s = parse_line(EASY_SOLVED).unwrap();
    let mut bad = p;
    bad[2] = 5;
    let puzzles = [p, bad, s, p];
    let one = checksum(&s);
    let whole = solve_batch(&puzzles, Engine::Auto);
    assert_eq!(whole, (one.wrapping_mul(3), 3));
    assert_eq!(solve_batch(&[], Engine::Jcz), (0, 0));
    for cut in 0..5 {
        let a = solve_batch(&puzzles[..cut], Engine::Triad);
        let b = solve_batch(&puzzles[cut..], Engine::Baseline);
        assert_eq!(merge_results(a, b), whole);
    }
}

#[test]
fn a_seed_decides_the_grid_and_the_puzzle() {
    for seed in [1u64, 7, 0x2545F4914F6CDD1D] {
        let (mut a, mut b) = (Rng(seed), Rng(seed));
        for _ in 0..3 {
            assert_eq!(random_solved_grid(&mut a), random_solved_grid(&mut b));
            assert_eq!(a.0, b.0);
        }
        assert_eq!(generate_puzzle(&mut a), generate_puzzle(&mut b));
        assert_eq!(a.0, b.0);
    }
}
