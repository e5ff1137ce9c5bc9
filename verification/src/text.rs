//! Puzzles as text: one character per cell, row by row.

use vstd::prelude::*;
use crate::grid::clues_ok;
use crate::laws::law_read_clues;
use crate::laws::lines::{
    digits_of, law_cells_by_code, law_codes_by_cell, law_line_by_line, line_by_line,
};

verus! {

/// What std says of `String::push`: the character is appended to the string.
pub assume_specification[ String::push ](s: &mut String, c: char)
    ensures
        final(s)@ == old(s)@.push(c),
;

/// Unicode white space, which may stand anywhere in a line.
pub open spec fn is_white(c: char) -> bool {
    let v = c as u32;
    ||| 0x09 <= v <= 0x0D
    ||| v == 0x20
    ||| v == 0x85
    ||| v == 0xA0
    ||| v == 0x1680
    ||| 0x2000 <= v <= 0x200A
    ||| v == 0x2028
    ||| v == 0x2029
    ||| v == 0x202F
    ||| v == 0x205F
    ||| v == 0x3000
}

/// The clue a character stands for: a digit, or 0 for a blank.
pub open spec fn cell_value(c: char) -> Option<u8> {
    if '1' <= c && c <= '9' {
        Some((c as u8 - 48) as u8)
    } else if c == '0' || c == '.' {
        Some(0u8)
    } else {
        None
    }
}

/// The characters of a line that stand for cells, if it is a puzzle.
pub open spec fn cell_chars(s: Seq<char>) -> Seq<char> {
    s.filter(|c: char| !is_white(c))
}

/// All of `k` are cells.
pub open spec fn all_cells(k: Seq<char>) -> bool {
    forall|i: int| 0 <= i < k.len() ==> cell_value(#[trigger] k[i]) is Some
}

/// The puzzle a line spells: 81 cells, white space ignored, and nothing else
/// in the line.
pub open spec fn parsed(s: Seq<char>) -> Option<Seq<u8>> {
    let k = cell_chars(s);
    if k.len() == 81 && all_cells(k) {
        Some(Seq::new(81, |i: int| cell_value(k[i])->0))
    } else {
        None
    }
}

/// The line of a grid.
pub open spec fn line_of(g: Seq<u8>) -> Seq<char> {
    Seq::new(g.len(), |i: int| (48 + g[i]) as char)
}

/// The line of a puzzle, with dots for blanks.
pub open spec fn dotted_line_of(g: Seq<u8>) -> Seq<char> {
    Seq::new(
        g.len(),
        |i: int|
            if g[i] == 0 {
                '.'
            } else {
                (48 + g[i]) as char
            },
    )
}

/// A line of 81 digits and dots, by their codes.
pub open spec fn codes_of_cells(s: Seq<char>) -> bool {
    s.len() == 81 && forall|i: int|
        0 <= i < 81 ==> 48 <= #[trigger] s[i] as int <= 57 || s[i] as int == 46
}

/// Every cell holds the digit whose code, less 48, stands at its place; a dot
/// is a blank.
pub open spec fn by_code(s: Seq<char>, g: Seq<u8>) -> bool {
    g.len() == 81 && forall|i: int|
        0 <= i < 81 ==> #[trigger] g[i] == (if s[i] as int == 46 {
            0
        } else {
            s[i] as int - 48
        })
}

/// The characters of a string.
pub fn chars_of(s: &str) -> (v: Vec<char>)
    ensures
        v@ == s@,
{
    let mut v: Vec<char> = Vec::new();
    for c in it: s.chars()
        invariant
            v@ == s@.take(it.index() as int),
            it.seq() == s@,
    {
        v.push(c);
    }
    v
}

/// The 81 digits of a grid as one line; a blank comes out as `0`.
pub fn grid_to_line(g: &[u8; 81]) -> (s: String)
    requires
        forall|c: int| 0 <= c < 81 ==> #[trigger] g[c] <= 207,
    ensures
        s@ == line_of(g@),
        s@.len() == 81,
        forall|i: int| 0 <= i < 81 ==> #[trigger] s@[i] as int == 48 + g[i],
{
    let mut s = String::new();
    let mut c: usize = 0;
    while c < 81
        invariant
            c <= 81,
            forall|x: int| 0 <= x < 81 ==> #[trigger] g[x] <= 207,
            s@ == line_of(g@).take(c as int),
        decreases 81 - c,
    {
        s.push((48 + g[c]) as char);
        c = c + 1;
    }
    proof {
        law_codes_by_cell(g@);
    }
    s
}

/// The 81 clues of a puzzle as one line, with dots for blanks.
pub fn clues_to_line(g: &[u8; 81]) -> (s: String)
    requires
        forall|c: int| 0 <= c < 81 ==> #[trigger] g[c] <= 207,
    ensures
        s@ == dotted_line_of(g@),
        s@.len() == 81,
        forall|i: int|
            0 <= i < 81 ==> #[trigger] s@[i] as int == (if g[i] == 0 {
                46
            } else {
                48 + g[i]
            }),
{
    let mut s = String::new();
    let mut c: usize = 0;
    while c < 81
        invariant
            c <= 81,
            forall|x: int| 0 <= x < 81 ==> #[trigger] g[x] <= 207,
            s@ == dotted_line_of(g@).take(c as int),
        decreases 81 - c,
    {
        if g[c] == 0 {
            s.push('.');
        } else {
            s.push((48 + g[c]) as char);
        }
        c = c + 1;
    }
    proof {
        law_codes_by_cell(g@);
    }
    s
}

/// Whether a character is white space.
fn white(c: char) -> (r: bool)
    ensures
        r == is_white(c),
{
    let v = c as u32;
    (0x09 <= v && v <= 0x0D) || v == 0x20 || v == 0x85 || v == 0xA0 || v == 0x1680 || (0x2000 <= v
        && v <= 0x200A) || v == 0x2028 || v == 0x2029 || v == 0x202F || v == 0x205F || v == 0x3000
}

/// The clue a character stands for.
fn value_of(c: char) -> (r: Option<u8>)
    ensures
        r == cell_value(c),
{
    let v = c as u32;
    if 49 <= v && v <= 57 {
        Some((v - 48) as u8)
    } else if v == 48 || v == 46 {
        Some(0)
    } else {
        None
    }
}

/// Reads the characters `from..to` as a puzzle.
fn parse_chars(cs: &Vec<char>, from: usize, to: usize) -> (r: Option<[u8; 81]>)
    requires
        from <= to <= cs@.len(),
    ensures
        r is Some <==> parsed(cs@.subrange(from as int, to as int)) is Some,
        r matches Some(g) ==> parsed(cs@.subrange(from as int, to as int)) == Some(g@),
{
    let ghost whole = cs@.subrange(from as int, to as int);
    let mut g: [u8; 81] = [0;81];
    let mut n: usize = 0;
    let mut i: usize = from;
    proof {
        reveal(Seq::filter);
        assert(cell_chars(cs@.subrange(from as int, from as int)) =~= Seq::<char>::empty());
    }
    while i < to
        invariant
            from <= i <= to <= cs@.len(),
            n <= 81,
            whole == cs@.subrange(from as int, to as int),
            n == cell_chars(cs@.subrange(from as int, i as int)).len(),
            all_cells(cell_chars(cs@.subrange(from as int, i as int))),
            forall|k: int|
                0 <= k < n ==> Some(#[trigger] g[k]) == cell_value(
                    cell_chars(cs@.subrange(from as int, i as int))[k],
                ),
        decreases to - i,
    {
        let c = cs[i];
        let ghost before = cs@.subrange(from as int, i as int);
        let ghost after = cs@.subrange(from as int, i + 1);
        proof {
            reveal(Seq::filter);
            assert(after.drop_last() =~= before);
            assert(after.last() == c);
            assert(after =~= whole.subrange(0, after.len() as int));
        }
        if !white(c) {
            proof {
                assert(cell_chars(after) == cell_chars(before).push(c));
            }
            match value_of(c) {
                None => {
                    proof {
                        assert(cell_chars(after)[n as int] == c);
                        lemma_no_puzzle(whole, after);
                    }
                    return None;
                },
                Some(v) => {
                    if n >= 81 {
                        proof {
                            lemma_no_puzzle(whole, after);
                        }
                        return None;
                    }
                    g[n] = v;
                    n = n + 1;
                    proof {
                        assert forall|k: int| 0 <= k < cell_chars(after).len() implies cell_value(
                            #[trigger] cell_chars(after)[k],
                        ) is Some by {
                            if k < n - 1 {
                                assert(cell_chars(after)[k] == cell_chars(before)[k]);
                            }
                        }
                    }
                },
            }
        } else {
            proof {
                assert(cell_chars(after) == cell_chars(before));
            }
        }
        i = i + 1;
    }
    if n == 81 {
        proof {
            assert(g@ =~= Seq::new(81, |k: int| cell_value(cell_chars(whole)[k])->0)) by {
                assert forall|k: int| 0 <= k < 81 implies g@[k] == cell_value(
                    cell_chars(whole)[k],
                )->0 by {
                    assert(Some(g[k]) == cell_value(cell_chars(whole)[k]));
                }
            }
        }
        Some(g)
    } else {
        None
    }
}

/// A prefix with a stray character or too many cells spoils the line.
proof fn lemma_no_puzzle(whole: Seq<char>, part: Seq<char>)
    requires
        part.len() <= whole.len(),
        part == whole.subrange(0, part.len() as int),
        !all_cells(cell_chars(part)) || cell_chars(part).len() > 81,
    ensures
        parsed(whole) is None,
{
    let rest = whole.subrange(part.len() as int, whole.len() as int);
    assert(whole =~= part + rest);
    Seq::filter_distributes_over_add(part, rest, |c: char| !is_white(c));
    let k = cell_chars(whole);
    assert(k == cell_chars(part) + cell_chars(rest));
    if !all_cells(cell_chars(part)) {
        let i = choose|i: int|
            0 <= i < cell_chars(part).len() && !(cell_value(#[trigger] cell_chars(part)[i]) is Some);
        assert(k[i] == cell_chars(part)[i]);
    }
}

/// Reads an 81-character puzzle line (`.` or `0` is a blank; white space is
/// ignored).
pub fn parse_line(s: &str) -> (r: Option<[u8; 81]>)
    ensures
        r is Some <==> parsed(s@) is Some,
        r matches Some(g) ==> parsed(s@) == Some(g@),
        codes_of_cells(s@) ==> (r matches Some(g) && by_code(s@, g@)),
{
    proof {
        if codes_of_cells(s@) {
            law_cells_by_code(s@);
        }
    }
    let cs = chars_of(s);
    proof {
        assert(cs@.subrange(0, cs@.len() as int) =~= s@);
    }
    parse_chars(&cs, 0, cs.len())
}

/// The puzzle a line spells when everything that is no cell is ignored.
pub open spec fn parsed_leniently(s: Seq<char>) -> Option<Seq<u8>> {
    let k = s.filter(|c: char| cell_value(c) is Some);
    if k.len() == 81 {
        Some(Seq::new(81, |i: int| cell_value(k[i])->0))
    } else {
        None
    }
}

/// Reads a puzzle of 81 cells from a line, ignoring every other character.
pub fn parse_leniently(s: &str) -> (r: Option<[u8; 81]>)
    ensures
        r is Some <==> parsed_leniently(s@) is Some,
        r matches Some(g) ==> parsed_leniently(s@) == Some(g@),
        codes_of_cells(s@) ==> (r matches Some(g) && by_code(s@, g@)),
{
    proof {
        if codes_of_cells(s@) {
            law_cells_by_code(s@);
        }
    }
    let cs = chars_of(s);
    let ghost is_cell = |c: char| cell_value(c) is Some;
    let mut g: [u8; 81] = [0;81];
    let mut n: usize = 0;
    let mut i: usize = 0;
    proof {
        reveal(Seq::filter);
        assert(cs@.take(0).filter(is_cell) =~= Seq::<char>::empty());
    }
    while i < cs.len()
        invariant
            i <= cs@.len(),
            cs@ == s@,
            n <= 81,
            is_cell == |c: char| cell_value(c) is Some,
            n == cs@.take(i as int).filter(is_cell).len(),
            forall|k: int|
                0 <= k < n ==> Some(#[trigger] g[k]) == cell_value(
                    cs@.take(i as int).filter(is_cell)[k],
                ),
        decreases cs@.len() - i,
    {
        let c = cs[i];
        let ghost before = cs@.take(i as int);
        let ghost after = cs@.take(i + 1);
        proof {
            reveal(Seq::filter);
            assert(after.drop_last() =~= before);
            assert(after.last() == c);
        }
        match value_of(c) {
            None => {},
            Some(v) => {
                if n >= 81 {
                    proof {
                        let rest = cs@.skip(i + 1);
                        assert(cs@ =~= after + rest);
                        Seq::filter_distributes_over_add(after, rest, is_cell);
                        assert(s@.filter(is_cell).len() > 81);
                    }
                    return None;
                }
                g[n] = v;
                n = n + 1;
                proof {
                    assert(after.filter(is_cell) == before.filter(is_cell).push(c));
                }
            },
        }
        i = i + 1;
    }
    proof {
        assert(cs@.take(cs@.len() as int) =~= s@);
    }
    if n == 81 {
        proof {
            assert(g@ =~= Seq::new(81, |k: int| cell_value(s@.filter(is_cell)[k])->0)) by {
                assert forall|k: int| 0 <= k < 81 implies g@[k] == cell_value(
                    s@.filter(is_cell)[k],
                )->0 by {
                    assert(Some(g[k]) == cell_value(s@.filter(is_cell)[k]));
                }
            }
        }
        Some(g)
    } else {
        None
    }
}

/// The byte order mark that some editors put at the start of a file.
pub open spec fn is_mark(c: char) -> bool {
    c as u32 == 0xFEFF
}

/// `s` without the leading characters of a kind.
pub open spec fn skip_start(s: Seq<char>, kind: spec_fn(char) -> bool) -> Seq<char>
    decreases s.len(),
{
    if s.len() > 0 && kind(s[0]) {
        skip_start(s.drop_first(), kind)
    } else {
        s
    }
}

/// `s` without the trailing characters of a kind.
pub open spec fn skip_end(s: Seq<char>, kind: spec_fn(char) -> bool) -> Seq<char>
    decreases s.len(),
{
    if s.len() > 0 && kind(s.last()) {
        skip_end(s.drop_last(), kind)
    } else {
        s
    }
}

/// What is left of a line without byte order marks at its start and white
/// space at its ends.
pub open spec fn line_body(s: Seq<char>) -> Seq<char> {
    skip_end(
        skip_start(skip_start(s, |c: char| is_mark(c)), |c: char| is_white(c)),
        |c: char| is_white(c),
    )
}

/// A line of a puzzle file.
pub enum Line {
    /// Nothing to read: blank, or a comment.
    Blank,
    /// A puzzle.
    Puzzle([u8; 81]),
    /// Neither.
    Unreadable,
}

/// The line says nothing: its body is empty or starts with `#`.
pub open spec fn says_nothing(s: Seq<char>) -> bool {
    line_body(s).len() == 0 || line_body(s)[0] == '#'
}

/// Reads the characters `from..to` as a line of a puzzle file.
fn read_chars(cs: &Vec<char>, from: usize, to: usize) -> (r: Line)
    requires
        from <= to <= cs@.len(),
    ensures
        r is Blank <==> says_nothing(cs@.subrange(from as int, to as int)),
        r is Puzzle <==> puzzle_in(cs@.subrange(from as int, to as int)) is Some,
        r matches Line::Puzzle(g) ==> puzzle_in(cs@.subrange(from as int, to as int)) == Some(g@),
{
    let ghost whole = cs@.subrange(from as int, to as int);
    let ghost mark = |c: char| is_mark(c);
    let ghost wh = |c: char| is_white(c);
    let n = to;
    let mut a: usize = from;
    while a < n && cs[a] as u32 == 0xFEFF
        invariant
            from <= a <= n,
            n <= cs@.len(),
            mark == |c: char| is_mark(c),
            skip_start(whole, mark) == skip_start(cs@.subrange(a as int, n as int), mark),
        decreases n - a,
    {
        proof {
            let t = cs@.subrange(a as int, n as int);
            assert(t.drop_first() =~= cs@.subrange(a + 1, n as int));
        }
        a = a + 1;
    }
    let ghost s1 = cs@.subrange(a as int, n as int);
    proof {
        assert(skip_start(whole, mark) == s1);
    }
    while a < n && white(cs[a])
        invariant
            from <= a <= n,
            n <= cs@.len(),
            wh == |c: char| is_white(c),
            skip_start(s1, wh) == skip_start(cs@.subrange(a as int, n as int), wh),
        decreases n - a,
    {
        proof {
            let t = cs@.subrange(a as int, n as int);
            assert(t.drop_first() =~= cs@.subrange(a + 1, n as int));
        }
        a = a + 1;
    }
    let ghost s2 = cs@.subrange(a as int, n as int);
    proof {
        assert(skip_start(s1, wh) == s2);
    }
    let mut b: usize = n;
    while b > a && white(cs[b - 1])
        invariant
            a <= b <= n,
            n <= cs@.len(),
            wh == |c: char| is_white(c),
            skip_end(s2, wh) == skip_end(cs@.subrange(a as int, b as int), wh),
        decreases b - a,
    {
        proof {
            let t = cs@.subrange(a as int, b as int);
            assert(t.drop_last() =~= cs@.subrange(a as int, b - 1));
        }
        b = b - 1;
    }
    proof {
        assert(line_body(whole) == cs@.subrange(a as int, b as int));
    }
    if a == b || cs[a] == '#' {
        return Line::Blank;
    }
    match parse_chars(&cs, a, b) {
        None => Line::Unreadable,
        Some(g) => Line::Puzzle(g),
    }
}

/// The puzzle of a line, if it has one.
pub open spec fn puzzle_in(s: Seq<char>) -> Option<Seq<u8>> {
    if says_nothing(s) {
        None
    } else {
        parsed(line_body(s))
    }
}

/// Reads one line of a puzzle file.
pub fn read_line(s: &str) -> (r: Line)
    ensures
        r is Blank <==> says_nothing(s@),
        r is Puzzle <==> !says_nothing(s@) && parsed(line_body(s@)) is Some,
        r matches Line::Puzzle(g) ==> parsed(line_body(s@)) == Some(g@),
{
    let cs = chars_of(s);
    proof {
        assert(cs@.subrange(0, cs@.len() as int) =~= s@);
    }
    read_chars(&cs, 0, cs.len())
}

/// The lines of a text. A carriage return at the end of a line stays with it:
/// there it is white space, which reading ignores.
pub open spec fn lines_of(s: Seq<char>) -> Seq<Seq<char>>
    decreases s.len(),
{
    if s.len() == 0 {
        seq![Seq::empty()]
    } else {
        let rest = lines_of(s.drop_last());
        if s.last() == '\n' {
            rest.push(Seq::empty())
        } else {
            rest.drop_last().push(rest.last().push(s.last()))
        }
    }
}

/// The puzzles of a file, line by line.
pub open spec fn puzzles_in(lines: Seq<Seq<char>>) -> Seq<Seq<u8>>
    decreases lines.len(),
{
    if lines.len() == 0 {
        Seq::empty()
    } else {
        let rest = puzzles_in(lines.drop_last());
        match puzzle_in(lines.last()) {
            Some(g) => rest.push(g),
            None => rest,
        }
    }
}

/// The numbers of the lines, counted from 1, that say something but hold no
/// puzzle.
pub open spec fn unreadable_in(lines: Seq<Seq<char>>) -> Seq<int>
    decreases lines.len(),
{
    if lines.len() == 0 {
        Seq::empty()
    } else {
        let rest = unreadable_in(lines.drop_last());
        if !says_nothing(lines.last()) && puzzle_in(lines.last()) is None {
            rest.push(lines.len() as int)
        } else {
            rest
        }
    }
}

/// What was read of a text is what its lines hold.
pub open spec fn read_from(
    lines: Seq<Seq<char>>,
    puzzles: Seq<[u8; 81]>,
    unreadable: Seq<usize>,
) -> bool {
    &&& puzzles.len() == puzzles_in(lines).len()
    &&& forall|i: int| 0 <= i < puzzles.len() ==> (#[trigger] puzzles[i])@ == puzzles_in(lines)[i]
    &&& unreadable.len() == unreadable_in(lines).len()
    &&& forall|i: int|
        0 <= i < unreadable.len() ==> #[trigger] unreadable[i] == unreadable_in(lines)[i]
}

/// The lines of a text that a character ends or continues.
proof fn lemma_next_char(s: Seq<char>, i: int)
    requires
        0 <= i < s.len(),
    ensures
        lines_of(s.take(i)).len() >= 1,
        s[i] == '\n' ==> lines_of(s.take(i + 1)) == lines_of(s.take(i)).push(Seq::empty()),
        s[i] != '\n' ==> lines_of(s.take(i + 1)) == lines_of(s.take(i)).drop_last().push(
            lines_of(s.take(i)).last().push(s[i]),
        ),
    decreases i,
{
    assert(s.take(i + 1).drop_last() =~= s.take(i));
    assert(s.take(i + 1).last() == s[i]);
    if i > 0 {
        lemma_next_char(s, i - 1);
    }
}

/// Adds one line to what was read.
fn read_more(
    cs: &Vec<char>,
    from: usize,
    to: usize,
    number: usize,
    puzzles: &mut Vec<[u8; 81]>,
    unreadable: &mut Vec<usize>,
    Ghost(before): Ghost<Seq<Seq<char>>>,
)
    requires
        from <= to <= cs@.len(),
        number == before.len() + 1,
        read_from(before, old(puzzles)@, old(unreadable)@),
    ensures
        read_from(
            before.push(cs@.subrange(from as int, to as int)),
            final(puzzles)@,
            final(unreadable)@,
        ),
{
    let ghost line = cs@.subrange(from as int, to as int);
    let ghost after = before.push(line);
    proof {
        assert(after.drop_last() =~= before);
        assert(after.last() == line);
    }
    match read_chars(cs, from, to) {
        Line::Blank => {},
        Line::Puzzle(g) => {
            puzzles.push(g);
        },
        Line::Unreadable => {
            unreadable.push(number);
        },
    }
}

/// Reads a puzzle file: the puzzle of each line that holds one, in order, and
/// the numbers of the lines that say something else.
pub fn read_text(text: &str) -> (r: (Vec<[u8; 81]>, Vec<usize>))
    ensures
        read_from(lines_of(text@), r.0@, r.1@),
        exists|at: Seq<int>| #[trigger]
            line_by_line(lines_of(text@), at, digits_of(r.0@)),
        forall|i: int| 0 <= i < r.0@.len() ==> clues_ok(#[trigger] r.0@[i]@),
{
    let cs = chars_of(text);
    let n = cs.len();
    let mut puzzles: Vec<[u8; 81]> = Vec::new();
    let mut unreadable: Vec<usize> = Vec::new();
    let mut done: usize = 0;
    let mut from: usize = 0;
    let mut i: usize = 0;
    proof {
        assert(cs@.take(0) =~= Seq::<char>::empty());
        assert(lines_of(cs@.take(0)).drop_last() =~= Seq::<Seq<char>>::empty());
        assert(cs@.subrange(0, 0) =~= Seq::<char>::empty());
    }
    while i < n
        invariant
            n == cs@.len(),
            from <= i <= n,
            done <= from,
            lines_of(cs@.take(i as int)).len() == done + 1,
            lines_of(cs@.take(i as int)).last() == cs@.subrange(from as int, i as int),
            read_from(lines_of(cs@.take(i as int)).drop_last(), puzzles@, unreadable@),
        decreases n - i,
    {
        let ghost lines = lines_of(cs@.take(i as int));
        proof {
            lemma_next_char(cs@, i as int);
        }
        if cs[i] == '\n' {
            read_more(
                &cs,
                from,
                i,
                done + 1,
                &mut puzzles,
                &mut unreadable,
                Ghost(lines.drop_last()),
            );
            proof {
                assert(lines.drop_last().push(lines.last()) =~= lines);
                assert(lines.push(Seq::empty()).drop_last() =~= lines);
                assert(cs@.subrange(i + 1, i + 1) =~= Seq::<char>::empty());
            }
            done = done + 1;
            from = i + 1;
        } else {
            proof {
                let next = lines.last().push(cs@[i as int]);
                assert(next =~= cs@.subrange(from as int, i + 1));
                assert(lines.drop_last().push(next).drop_last() =~= lines.drop_last());
            }
        }
        i = i + 1;
    }
    let ghost lines = lines_of(cs@.take(n as int));
    proof {
        assert(cs@.take(n as int) =~= text@);
        assert(lines.drop_last().push(lines.last()) =~= lines);
    }
    if from < n {
        read_more(
            &cs,
            from,
            n,
            done + 1,
            &mut puzzles,
            &mut unreadable,
            Ghost(lines.drop_last()),
        );
    } else {
        proof {
            assert(lines.last() =~= Seq::<char>::empty());
            assert(says_nothing(lines.last()));
        }
    }
    proof {
        assert forall|k: int| 0 <= k < puzzles@.len() implies clues_ok(
            #[trigger] puzzles@[k]@,
        ) by {
            lemma_puzzles_ok(lines, k);
        }
        let at = law_line_by_line(lines);
        assert(digits_of(puzzles@) =~= puzzles_in(lines));
        assert(line_by_line(lines, at, puzzles_in(lines)));
    }
    (puzzles, unreadable)
}

/// The puzzles of a file are made of clues.
proof fn lemma_puzzles_ok(lines: Seq<Seq<char>>, i: int)
    requires
        0 <= i < puzzles_in(lines).len(),
    ensures
        clues_ok(puzzles_in(lines)[i]),
    decreases lines.len(),
{
    let rest = puzzles_in(lines.drop_last());
    if i < rest.len() {
        lemma_puzzles_ok(lines.drop_last(), i);
    } else {
        law_read_clues(line_body(lines.last()));
    }
}

} // verus!
