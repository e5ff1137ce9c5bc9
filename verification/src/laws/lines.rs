//! What reading and writing lines, and reading files, comes to in character
//! codes and line numbers.

use vstd::prelude::*;
use crate::text::{
    cell_chars, cell_value, dotted_line_of, is_mark, is_white, line_body, line_of, lines_of, parsed,
    parsed_leniently, puzzle_in, puzzles_in, read_from, says_nothing, skip_end, skip_start,
    unreadable_in,
};

verus! {

/// A digit or a dot, by its code.
pub open spec fn cell_code(v: int) -> bool {
    48 <= v <= 57 || v == 46
}

/// White space, by its code.
pub open spec fn white_code(v: int) -> bool {
    ||| 9 <= v <= 13
    ||| v == 32
    ||| v == 0x85
    ||| v == 0xA0
    ||| v == 0x1680
    ||| 0x2000 <= v <= 0x200A
    ||| 0x2028 <= v <= 0x2029
    ||| v == 0x202F
    ||| v == 0x205F
    ||| v == 0x3000
}

/// White space and byte order marks are told by their codes.
proof fn lemma_codes(c: char)
    ensures
        is_white(c) <==> white_code(c as int),
        is_mark(c) <==> c as int == 0xFEFF,
{
}

// ---------------------------------------------------------------------------
// Single lines
// ---------------------------------------------------------------------------

/// A line of digits and dots keeps all its characters when it is read.
proof fn lemma_all_kept(s: Seq<char>)
    requires
        forall|i: int| 0 <= i < s.len() ==> cell_code(#[trigger] s[i] as int),
    ensures
        cell_chars(s) == s,
        s.filter(|c: char| cell_value(c) is Some) == s,
    decreases s.len(),
{
    reveal(Seq::filter);
    if s.len() > 0 {
        let t = s.drop_last();
        assert forall|i: int| 0 <= i < t.len() implies cell_code(#[trigger] t[i] as int) by {
            assert(t[i] == s[i]);
        }
        lemma_all_kept(t);
        assert(cell_code(s[s.len() - 1] as int));
        assert(t.push(s.last()) =~= s);
    } else {
        assert(cell_chars(s) =~= s);
        assert(s.filter(|c: char| cell_value(c) is Some) =~= s);
    }
}

/// A line of 81 digits and dots is a puzzle: a digit stands for its code less
/// 48, a dot for a blank.
pub proof fn law_cells_by_code(s: Seq<char>)
    requires
        s.len() == 81,
        forall|i: int| 0 <= i < 81 ==> cell_code(#[trigger] s[i] as int),
    ensures
        parsed(s) matches Some(g) && g.len() == 81 && forall|i: int|
            0 <= i < 81 ==> #[trigger] g[i] == (if s[i] as int == 46 {
                0
            } else {
                s[i] as int - 48
            }),
        parsed_leniently(s) == parsed(s),
        puzzle_in(s) == parsed(s),
        !says_nothing(s),
{
    lemma_all_kept(s);
    assert forall|i: int| 0 <= i < 81 implies cell_value(#[trigger] s[i]) == Some(
        (if s[i] as int == 46 {
            0
        } else {
            s[i] as int - 48
        }) as u8,
    ) by {
        assert(cell_code(s[i] as int));
    }
    let g = parsed(s)->0;
    assert(parsed_leniently(s)->0 =~= g);
    lemma_bare_line(s);
    assert(cell_code(s[0] as int));
}

/// A line of digits and dots that are not 81 is no puzzle.
pub proof fn law_wrong_length(s: Seq<char>)
    requires
        s.len() != 81,
        forall|i: int| 0 <= i < s.len() ==> cell_code(#[trigger] s[i] as int),
    ensures
        parsed(s) is None,
        parsed_leniently(s) is None,
{
    lemma_all_kept(s);
}

/// A single character, filtered.
proof fn lemma_filter_one(c: char, keep: spec_fn(char) -> bool)
    ensures
        seq![c].filter(keep) == (if keep(c) {
            seq![c]
        } else {
            Seq::<char>::empty()
        }),
{
    reveal_with_fuel(Seq::filter, 2);
    assert(seq![c].drop_last() =~= Seq::<char>::empty());
    assert(Seq::<char>::empty().push(c) =~= seq![c]);
    assert(seq![c].filter(keep) =~= (if keep(c) {
        seq![c]
    } else {
        Seq::<char>::empty()
    }));
}

/// A line filtered around a character.
proof fn lemma_filter_around(s: Seq<char>, t: Seq<char>, c: char, keep: spec_fn(char) -> bool)
    ensures
        (s + seq![c] + t).filter(keep) == (if keep(c) {
            s.filter(keep) + seq![c] + t.filter(keep)
        } else {
            (s + t).filter(keep)
        }),
{
    Seq::filter_distributes_over_add(s + seq![c], t, keep);
    Seq::filter_distributes_over_add(s, seq![c], keep);
    Seq::filter_distributes_over_add(s, t, keep);
    lemma_filter_one(c, keep);
    assert(s.filter(keep) + Seq::<char>::empty() =~= s.filter(keep));
}

/// White space in a line makes no difference; any other character that is
/// neither digit nor dot spoils it. The lenient reading passes over both.
pub proof fn law_other_characters(s: Seq<char>, t: Seq<char>, c: char)
    requires
        !cell_code(c as int),
    ensures
        white_code(c as int) ==> parsed(s + seq![c] + t) == parsed(s + t),
        !white_code(c as int) ==> parsed(s + seq![c] + t) is None,
        parsed_leniently(s + seq![c] + t) == parsed_leniently(s + t),
{
    let dark = |x: char| !is_white(x);
    let cell = |x: char| cell_value(x) is Some;
    assert(cell_value(c) is None);
    assert(is_white(c) <==> white_code(c as int));
    lemma_filter_around(s, t, c, dark);
    lemma_filter_around(s, t, c, cell);
    if !white_code(c as int) {
        let k = cell_chars(s + seq![c] + t);
        assert(k == s.filter(dark) + seq![c] + t.filter(dark));
        assert(k[s.filter(dark).len() as int] == c);
    }
}

/// Character `i` of a written grid has code 48 more than cell `i`; with dots
/// for blanks, a blank has the code of a dot.
pub proof fn law_codes_by_cell(g: Seq<u8>)
    requires
        forall|i: int| 0 <= i < g.len() ==> #[trigger] g[i] <= 207,
    ensures
        line_of(g).len() == g.len(),
        dotted_line_of(g).len() == g.len(),
        forall|i: int| 0 <= i < g.len() ==> #[trigger] line_of(g)[i] as int == 48 + g[i],
        forall|i: int|
            0 <= i < g.len() ==> #[trigger] dotted_line_of(g)[i] as int == (if g[i] == 0 {
                46
            } else {
                48 + g[i]
            }),
{
    assert forall|i: int| 0 <= i < g.len() implies #[trigger] line_of(g)[i] as int == 48 + g[i] by {
        assert(g[i] <= 207);
    }
    assert forall|i: int| 0 <= i < g.len() implies #[trigger] dotted_line_of(g)[i] as int == (if g[i]
        == 0 {
        46
    } else {
        48 + g[i]
    }) by {
        assert(g[i] <= 207);
    }
}

// ---------------------------------------------------------------------------
// Lines of a file
// ---------------------------------------------------------------------------

/// A line without white space or a byte order mark at its ends is its own body.
proof fn lemma_bare_line(s: Seq<char>)
    requires
        s.len() > 0,
        s[0] as int != 0xFEFF,
        !white_code(s[0] as int),
        !white_code(s[s.len() - 1] as int),
    ensures
        line_body(s) == s,
{
    lemma_codes(s[0]);
    lemma_codes(s[s.len() - 1]);
    assert(skip_start(s, |c: char| is_mark(c)) == s);
    assert(skip_start(s, |c: char| is_white(c)) == s);
    assert(skip_end(s, |c: char| is_white(c)) == s);
}

/// A byte order mark at the start of a line makes no difference.
pub proof fn law_byte_order_mark(s: Seq<char>, c: char)
    requires
        c as int == 0xFEFF,
    ensures
        says_nothing(seq![c] + s) == says_nothing(s),
        puzzle_in(seq![c] + s) == puzzle_in(s),
{
    let mark = |x: char| is_mark(x);
    let t = seq![c] + s;
    assert(t[0] == c);
    assert(t.drop_first() =~= s);
    assert(skip_start(t, mark) == skip_start(s, mark));
}

/// White space at the start of a line makes no difference, unless it hides a
/// byte order mark.
pub proof fn law_leading_space(s: Seq<char>, c: char)
    requires
        white_code(c as int),
        s.len() == 0 || s[0] as int != 0xFEFF,
    ensures
        says_nothing(seq![c] + s) == says_nothing(s),
        puzzle_in(seq![c] + s) == puzzle_in(s),
{
    let mark = |x: char| is_mark(x);
    let white = |x: char| is_white(x);
    let t = seq![c] + s;
    assert(t[0] == c);
    assert(t.drop_first() =~= s);
    lemma_codes(c);
    if s.len() > 0 {
        lemma_codes(s[0]);
    }
    assert(skip_start(t, mark) == t && skip_start(s, mark) == s);
    assert(skip_start(t, white) == skip_start(s, white));
}

/// An empty line says nothing, nor does one that starts with `#`.
pub proof fn law_nothing_said(s: Seq<char>)
    requires
        s.len() == 0 || s[0] as int == 35,
    ensures
        says_nothing(s),
        puzzle_in(s) is None,
{
    let white = |x: char| is_white(x);
    if s.len() == 0 {
        assert(line_body(s) == s);
    } else {
        assert(s[0] == '#');
        assert(skip_start(s, |x: char| is_mark(x)) == s);
        assert(skip_start(s, white) == s);
        lemma_start_stays(s);
    }
}

/// Cutting white space off the end of a line keeps a start that is none.
proof fn lemma_start_stays(s: Seq<char>)
    requires
        s.len() > 0,
        !is_white(s[0]),
    ensures
        skip_end(s, |x: char| is_white(x)).len() > 0,
        skip_end(s, |x: char| is_white(x))[0] == s[0],
    decreases s.len(),
{
    if is_white(s.last()) {
        assert(s.len() > 1);
        assert(s.drop_last()[0] == s[0]);
        lemma_start_stays(s.drop_last());
    }
}

/// A line that starts with neither white space, a byte order mark nor `#` says
/// something, and what it says is what it spells.
pub proof fn law_something_said(s: Seq<char>)
    requires
        s.len() > 0,
        s[0] as int != 0xFEFF,
        s[0] as int != 35,
        !white_code(s[0] as int),
    ensures
        !says_nothing(s),
        puzzle_in(s) == parsed(s),
{
    let white = |x: char| is_white(x);
    lemma_codes(s[0]);
    assert(skip_start(s, |x: char| is_mark(x)) == s);
    assert(skip_start(s, white) == s);
    lemma_start_stays(s);
    lemma_end_spells(s);
}

/// White space cut off the end of a line changes nothing of what it spells.
proof fn lemma_end_spells(s: Seq<char>)
    ensures
        parsed(skip_end(s, |x: char| is_white(x))) == parsed(s),
    decreases s.len(),
{
    if s.len() > 0 && is_white(s.last()) {
        let t = s.drop_last();
        lemma_end_spells(t);
        lemma_filter_around(t, Seq::empty(), s.last(), |x: char| !is_white(x));
        assert(t + seq![s.last()] + Seq::<char>::empty() =~= s);
        assert(t + Seq::<char>::empty() =~= t);
    }
}

/// A text without line feeds is one line.
pub proof fn law_one_line(s: Seq<char>)
    requires
        forall|i: int| 0 <= i < s.len() ==> #[trigger] s[i] as int != 10,
    ensures
        lines_of(s) == seq![s],
    decreases s.len(),
{
    if s.len() > 0 {
        let t = s.drop_last();
        assert forall|i: int| 0 <= i < t.len() implies #[trigger] t[i] as int != 10 by {
            assert(t[i] == s[i]);
        }
        law_one_line(t);
        assert(s[s.len() - 1] as int != 10);
        assert(t.push(s.last()) =~= s);
        assert(seq![t].drop_last() =~= Seq::<Seq<char>>::empty());
        assert(lines_of(s) =~= seq![s]);
    } else {
        assert(s =~= Seq::<char>::empty());
        assert(lines_of(s) =~= seq![s]);
    }
}

/// A line feed separates the lines before it from those after it.
pub proof fn law_line_feed(a: Seq<char>, b: Seq<char>, c: char)
    requires
        c as int == 10,
    ensures
        lines_of(a + seq![c] + b) == lines_of(a) + lines_of(b),
        lines_of(b).len() >= 1,
    decreases b.len(),
{
    let s = a + seq![c] + b;
    if b.len() == 0 {
        assert(b =~= Seq::<char>::empty());
        assert(s.drop_last() =~= a);
        assert(s.last() == '\n');
        assert(lines_of(s) =~= lines_of(a) + lines_of(b));
    } else {
        let t = b.drop_last();
        law_line_feed(a, t, c);
        assert(s.drop_last() =~= a + seq![c] + t);
        assert(s.last() == b.last());
        let (x, y) = (lines_of(a), lines_of(t));
        assert((x + y).last() == y.last());
        assert((x + y).drop_last() =~= x + y.drop_last());
        assert(lines_of(s) =~= x + lines_of(b));
    }
}

/// The puzzles of some lines and then some more are those of the first lines
/// followed by those of the others; lines that hold none keep their numbers.
pub proof fn law_lines_in_order(a: Seq<Seq<char>>, b: Seq<Seq<char>>)
    ensures
        puzzles_in(a + b) == puzzles_in(a) + puzzles_in(b),
        unreadable_in(a + b) == unreadable_in(a) + unreadable_in(b).map_values(
            |n: int| n + a.len(),
        ),
    decreases b.len(),
{
    let shift = |n: int| n + a.len();
    if b.len() == 0 {
        assert(a + b =~= a);
        assert(puzzles_in(a) + puzzles_in(b) =~= puzzles_in(a));
        assert(unreadable_in(a) + unreadable_in(b).map_values(shift) =~= unreadable_in(a));
    } else {
        let t = b.drop_last();
        law_lines_in_order(a, t);
        assert((a + b).drop_last() =~= a + t);
        assert((a + b).last() == b.last());
        assert(puzzles_in(a + b) =~= puzzles_in(a) + puzzles_in(b));
        assert(unreadable_in(a + b) =~= unreadable_in(a) + unreadable_in(b).map_values(shift));
    }
}

/// The digits of several puzzles.
pub open spec fn digits_of(puzzles: Seq<[u8; 81]>) -> Seq<Seq<u8>> {
    Seq::new(puzzles.len(), |i: int| puzzles[i]@)
}

/// `at` are the numbers, from 0 and in increasing order, of the lines that hold
/// a puzzle, and `puzzles` are those puzzles one by one.
pub open spec fn line_by_line(
    lines: Seq<Seq<char>>,
    at: Seq<int>,
    puzzles: Seq<Seq<u8>>,
) -> bool {
    &&& at.len() == puzzles.len()
    &&& forall|i: int| 0 <= i < at.len() ==> 0 <= #[trigger] at[i] < lines.len()
    &&& forall|i: int, j: int| 0 <= i < j < at.len() ==> #[trigger] at[i] < #[trigger] at[j]
    &&& forall|i: int|
        0 <= i < at.len() ==> puzzle_in(lines[#[trigger] at[i]]) == Some(puzzles[i])
    &&& forall|n: int|
        0 <= n < lines.len() && puzzle_in(#[trigger] lines[n]) is Some ==> at.contains(n)
}

/// The puzzles of a file come line by line.
pub proof fn law_line_by_line(lines: Seq<Seq<char>>) -> (at: Seq<int>)
    ensures
        line_by_line(lines, at, puzzles_in(lines)),
    decreases lines.len(),
{
    if lines.len() == 0 {
        Seq::empty()
    } else {
        let t = lines.drop_last();
        let n = t.len() as int;
        let before = law_line_by_line(t);
        assert forall|i: int| 0 <= i < before.len() implies 0 <= #[trigger] before[i] < n
            && puzzle_in(lines[before[i]]) == Some(puzzles_in(t)[i]) by {
            assert(t[before[i]] == lines[before[i]]);
        }
        let at = if puzzle_in(lines.last()) is Some {
            before.push(n)
        } else {
            before
        };
        assert forall|i: int| 0 <= i < at.len() implies 0 <= #[trigger] at[i] < lines.len()
            && puzzle_in(lines[at[i]]) == Some(puzzles_in(lines)[i]) by {
            if i < before.len() {
                assert(at[i] == before[i]);
            }
        }
        assert forall|k: int|
            0 <= k < lines.len() && puzzle_in(#[trigger] lines[k]) is Some implies at.contains(k) by {
            if k < n {
                assert(t[k] == lines[k]);
                assert(before.contains(k));
                let i = choose|i: int| 0 <= i < before.len() && before[i] == k;
                assert(at[i] == k);
            } else {
                assert(at[before.len() as int] == k);
            }
        }
        at
    }
}

/// What is read of two texts with a line feed between them: the puzzles of the
/// first and then those of the second, and likewise the lines that cannot be
/// read, those of the second counted on from the first.
pub proof fn law_files_in_order(
    a: Seq<char>,
    b: Seq<char>,
    c: char,
    of_a: (Seq<[u8; 81]>, Seq<usize>),
    of_b: (Seq<[u8; 81]>, Seq<usize>),
    both: (Seq<[u8; 81]>, Seq<usize>),
)
    requires
        c as int == 10,
        read_from(lines_of(a), of_a.0, of_a.1),
        read_from(lines_of(b), of_b.0, of_b.1),
        read_from(lines_of(a + seq![c] + b), both.0, both.1),
    ensures
        both.0.len() == of_a.0.len() + of_b.0.len(),
        forall|i: int| 0 <= i < of_a.0.len() ==> #[trigger] both.0[i]@ == of_a.0[i]@,
        forall|i: int| 0 <= i < of_b.0.len() ==> both.0[of_a.0.len() + i]@ == #[trigger] of_b.0[i]@,
        both.1.len() == of_a.1.len() + of_b.1.len(),
        forall|i: int| 0 <= i < of_a.1.len() ==> #[trigger] both.1[i] == of_a.1[i],
        forall|i: int|
            0 <= i < of_b.1.len() ==> both.1[of_a.1.len() + i] == lines_of(a).len()
                + #[trigger] of_b.1[i],
{
    let (x, y) = (lines_of(a), lines_of(b));
    law_line_feed(a, b, c);
    law_lines_in_order(x, y);
    assert forall|i: int| 0 <= i < of_a.0.len() implies #[trigger] both.0[i]@ == of_a.0[i]@ by {
        assert(of_a.0[i]@ == puzzles_in(x)[i]);
    }
    assert forall|i: int| 0 <= i < of_b.0.len() implies both.0[of_a.0.len() + i]@
        == #[trigger] of_b.0[i]@ by {
        assert(of_b.0[i]@ == puzzles_in(y)[i]);
        let k = of_a.0.len() + i;
        assert(both.0[k]@ == puzzles_in(x + y)[k]);
    }
    assert forall|i: int| 0 <= i < of_a.1.len() implies #[trigger] both.1[i] == of_a.1[i] by {
        assert(of_a.1[i] == unreadable_in(x)[i]);
    }
    assert forall|i: int| 0 <= i < of_b.1.len() implies both.1[of_a.1.len() + i] == x.len()
        + #[trigger] of_b.1[i] by {
        assert(of_b.1[i] == unreadable_in(y)[i]);
        let k = of_a.1.len() + i;
        assert(both.1[k] == unreadable_in(x + y)[k]);
    }
}

/// What is read of a text of one line: its puzzle, if it spells one; number 1,
/// if it says something else; else nothing.
pub proof fn law_one_line_read(s: Seq<char>, puzzles: Seq<[u8; 81]>, unreadable: Seq<usize>)
    requires
        forall|i: int| 0 <= i < s.len() ==> #[trigger] s[i] as int != 10,
        read_from(lines_of(s), puzzles, unreadable),
    ensures
        puzzles.len() == (if puzzle_in(s) is Some {
            1int
        } else {
            0
        }),
        puzzle_in(s) matches Some(g) ==> puzzles[0]@ == g,
        unreadable.len() == (if !says_nothing(s) && puzzle_in(s) is None {
            1int
        } else {
            0
        }),
        unreadable.len() > 0 ==> unreadable[0] == 1,
{
    law_one_line(s);
    reveal_with_fuel(puzzles_in, 2);
    reveal_with_fuel(unreadable_in, 2);
    let one = seq![s];
    assert(one.drop_last() =~= Seq::<Seq<char>>::empty());
    assert(one.last() == s);
    if puzzle_in(s) is Some {
        assert(puzzles[0]@ == puzzles_in(one)[0]);
    }
    if unreadable.len() > 0 {
        assert(unreadable[0] == unreadable_in(one)[0]);
    }
}

} // verus!
