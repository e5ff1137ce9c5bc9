use fastdoku::text::{clues_to_line, parse_leniently, read_line, read_text, Line};
use fastdoku::{grid_to_line, is_valid_solution, parse_line, random_solved_grid, Rng};

const EASY: &str =
    "53..7....6..195....98....6.8...6...34..8.3..17...2...6.6....28....419..5....8..79";
const EASY_SOLVED: &str =
    "534678912672195348198342567859761423426853791713924856961537284287419635345286179";

#[test]
fn reads_digits_and_blanks() {
    let p = parse_line(EASY).unwrap();
    assert_eq!(p[0], 5);
    assert_eq!(p[1], 3);
    assert_eq!(p[2], 0);
    assert_eq!(p[80], 9);
    let zeros = EASY.replace('.', "0");
    assert_eq!(parse_line(&zeros), Some(p));
}

#[test]
fn white_space_is_ignored() {
    let p = parse_line(EASY).unwrap();
    let spaced: String = EASY.chars().map(|c| format!(" \t{c}\r")).collect();
    assert_eq!(parse_line(&spaced), Some(p));
    let dots = ".".repeat(81) + "\n";
    assert_eq!(parse_line(&dots), Some([0u8; 81]));
    let lines: String = EASY.chars().map(|c| format!("{c}\n\u{b}\u{c}")).collect();
    assert_eq!(parse_line(&lines), Some(p));
    assert_eq!(parse_line(&format!("\u{3000}{EASY}\u{85}\u{2028}")), Some(p));
}

#[test]
fn refuses_what_is_no_puzzle() {
    assert_eq!(parse_line(""), None);
    assert_eq!(parse_line(&EASY[..80]), None);
    assert_eq!(parse_line(&format!("{EASY}1")), None);
    assert_eq!(parse_line(&format!("{EASY}.")), None);
    assert_eq!(parse_line(&EASY.replace('7', "x")), None);
    assert_eq!(parse_line(&format!("\u{feff}{EASY}")), None);
    assert_eq!(parse_line(&format!("{EASY}\u{200b}")), None);
}

#[test]
fn writes_lines() {
    let p = parse_line(EASY).unwrap();
    assert_eq!(grid_to_line(&p), EASY.replace('.', "0"));
    assert_eq!(clues_to_line(&p), EASY);
    let mut odd = [0u8; 81];
    odd[80] = 207;
    assert_eq!(grid_to_line(&odd).chars().last(), Some('\u{ff}'));
}

#[test]
fn lines_round_trip() {
    let mut rng = Rng(99);
    for _ in 0..20 {
        let mut g = random_solved_grid(&mut rng);
        g[(rng.next() % 81) as usize] = 0;
        assert_eq!(parse_line(&grid_to_line(&g)), Some(g));
        assert_eq!(parse_line(&clues_to_line(&g)), Some(g));
    }
}

#[test]
fn lenient_reading() {
    let p = parse_line(EASY).unwrap();
    let framed = format!("puzzle: {}\n", EASY.replace('7', "|7|"));
    assert_eq!(parse_leniently(&framed), Some(p));
    assert_eq!(parse_leniently(&EASY[1..]), None);
    assert_eq!(parse_leniently(&format!("{EASY}5")), None);
}

#[test]
fn lines_of_a_puzzle_file() {
    let p = parse_line(EASY).unwrap();
    assert!(matches!(read_line(""), Line::Blank));
    assert!(matches!(read_line(" \t\u{a0}"), Line::Blank));
    assert!(matches!(read_line("  # a comment"), Line::Blank));
    assert!(matches!(read_line("\u{feff}# a comment"), Line::Blank));
    assert!(matches!(read_line("not a puzzle"), Line::Unreadable));
    assert!(matches!(read_line(&format!(" \u{feff}{EASY}")), Line::Unreadable));
    for line in [format!("{EASY}\r"), format!("\u{feff}\u{feff} {EASY} ")] {
        match read_line(&line) {
            Line::Puzzle(g) => assert_eq!(g, p),
            _ => panic!("this is a puzzle"),
        }
    }
}

#[test]
fn files_are_read_line_by_line() {
    let p = parse_line(EASY).unwrap();
    let s = parse_line(EASY_SOLVED).unwrap();
    assert_eq!(read_text(""), (vec![], vec![]));
    assert_eq!(read_text("\n\n# nothing\n"), (vec![], vec![]));
    assert_eq!(read_text(EASY), (vec![p], vec![]));
    assert_eq!(read_text("one\ntwo"), (vec![], vec![1, 2]));
    let text = format!("\u{feff}{EASY}\r\n\r\nhello\n  # note\n{EASY_SOLVED}\n.\n{EASY}");
    assert_eq!(read_text(&text), (vec![p, s, p], vec![3, 6]));
    assert_eq!(read_text(&format!("{text}\n")), (vec![p, s, p], vec![3, 6]));
}

#[test]
fn validity() {
    let p = parse_line(EASY).unwrap();
    let s = parse_line(EASY_SOLVED).unwrap();
    assert!(is_valid_solution(&s, &p));
    assert!(is_valid_solution(&s, &s));
    // A blank, a digit out of range, a clue ignored, a digit twice.
    assert!(!is_valid_solution(&p, &p));
    let mut t = s;
    t[0] = 10;
    assert!(!is_valid_solution(&t, &[0; 81]));
    let mut q = p;
    q[2] = 9;
    assert!(!is_valid_solution(&s, &q));
    let mut t = s;
    t[2] = 5;
    assert!(!is_valid_solution(&t, &[0; 81]));
}
