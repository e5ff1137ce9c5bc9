//! Index tables of the baseline engine: units, peers, and the intersections
//! of boxes with lines.

use vstd::prelude::*;
use crate::bits::{bit32, bit64, group_bits32, group_bits64};
use crate::grid::{box_of, col_of, lemma_cell_coords, peers, row_of, unit_cell};

verus! {

broadcast use {group_bits32, group_bits64};

/// Cell `c` belongs to unit `u`.
pub open spec fn in_unit(u: int, c: int) -> bool {
    if u < 9 {
        row_of(c) == u
    } else if u < 18 {
        col_of(c) == u - 9
    } else {
        box_of(c) == u - 18
    }
}

/// The box of intersection `k`.
pub open spec fn int_box(k: int) -> int {
    (k % 27) / 3
}

/// Cell `c` lies on the line of intersection `k`: a row for the first 27
/// intersections, a column for the others.
pub open spec fn on_line(k: int, c: int) -> bool {
    if k < 27 {
        row_of(c) == 3 * (int_box(k) / 3) + k % 3
    } else {
        col_of(c) == 3 * (int_box(k) % 3) + k % 3
    }
}

/// The line of intersection `k`, as a unit.
pub open spec fn int_line(k: int) -> int {
    if k < 27 {
        3 * (int_box(k) / 3) + k % 3
    } else {
        9 + 3 * (int_box(k) % 3) + k % 3
    }
}

/// `t` counted past the omitted `i`.
pub open spec fn skipping(t: int, i: int) -> int {
    if t < i {
        t
    } else {
        t + 1
    }
}

/// `t` counted past the three from `b` on.
pub open spec fn past_three(t: int, b: int) -> int {
    if t < b {
        t
    } else {
        t + 3
    }
}

/// Cell `n` of intersection `k`.
pub open spec fn int_cell(k: int, n: int) -> int {
    let (br, bc) = (3 * (int_box(k) / 3), 3 * (int_box(k) % 3));
    if k < 27 {
        9 * (br + k % 3) + bc + n
    } else {
        9 * (br + n) + bc + k % 3
    }
}

/// Cell `j` of the box of intersection `k` outside of its line.
pub open spec fn box_rest_cell(k: int, j: int) -> int {
    let (br, bc) = (3 * (int_box(k) / 3), 3 * (int_box(k) % 3));
    if k < 27 {
        9 * (br + skipping(j / 3, k % 3)) + bc + j % 3
    } else {
        9 * (br + j / 2) + bc + skipping(j % 2, k % 3)
    }
}

/// Cell `j` of the line of intersection `k` outside of its box.
pub open spec fn line_rest_cell(k: int, j: int) -> int {
    let (br, bc) = (3 * (int_box(k) / 3), 3 * (int_box(k) % 3));
    if k < 27 {
        9 * (br + k % 3) + past_three(j, bc)
    } else {
        9 * past_three(j, br) + bc + k % 3
    }
}

/// The rest of the box holds exactly the box cells off the line.
pub proof fn lemma_box_rest(k: int, j: int)
    requires
        0 <= k < 54,
        0 <= j < 6,
    ensures
        0 <= box_rest_cell(k, j) < 81,
        box_of(box_rest_cell(k, j)) == int_box(k),
        !on_line(k, box_rest_cell(k, j)),
{
    let (br, bc) = (3 * (int_box(k) / 3), 3 * (int_box(k) % 3));
    if k < 27 {
        lemma_cell_coords(br + skipping(j / 3, k % 3), bc + j % 3);
    } else {
        lemma_cell_coords(br + j / 2, bc + skipping(j % 2, k % 3));
    }
}

pub proof fn lemma_box_rest_covers(k: int, x: int) -> (j: int)
    requires
        0 <= k < 54,
        0 <= x < 81,
        box_of(x) == int_box(k),
        !on_line(k, x),
    ensures
        0 <= j < 6,
        box_rest_cell(k, j) == x,
{
    let (r, c) = (x / 9, x % 9);
    assert(x == 9 * r + c);
    lemma_cell_coords(r, c);
    let (br, bc) = (3 * (int_box(k) / 3), 3 * (int_box(k) % 3));
    assert(r / 3 == int_box(k) / 3 && c / 3 == int_box(k) % 3);
    let i = k % 3;
    if k < 27 {
        let t = r - br;
        let s = if t < i {
            t
        } else {
            t - 1
        };
        let j = 3 * s + (c - bc);
        assert(j / 3 == s && j % 3 == c - bc);
        j
    } else {
        let t = c - bc;
        let s = if t < i {
            t
        } else {
            t - 1
        };
        let j = 2 * (r - br) + s;
        assert(j / 2 == r - br && j % 2 == s);
        j
    }
}

/// The rest of the line holds exactly the line cells outside of the box.
pub proof fn lemma_line_rest(k: int, j: int)
    requires
        0 <= k < 54,
        0 <= j < 6,
    ensures
        0 <= line_rest_cell(k, j) < 81,
        box_of(line_rest_cell(k, j)) != int_box(k),
        on_line(k, line_rest_cell(k, j)),
{
    let (br, bc) = (3 * (int_box(k) / 3), 3 * (int_box(k) % 3));
    if k < 27 {
        lemma_cell_coords(br + k % 3, past_three(j, bc));
    } else {
        lemma_cell_coords(past_three(j, br), bc + k % 3);
    }
}

pub proof fn lemma_line_rest_covers(k: int, x: int) -> (j: int)
    requires
        0 <= k < 54,
        0 <= x < 81,
        box_of(x) != int_box(k),
        on_line(k, x),
    ensures
        0 <= j < 6,
        line_rest_cell(k, j) == x,
{
    let (r, c) = (x / 9, x % 9);
    assert(x == 9 * r + c);
    lemma_cell_coords(r, c);
    let (br, bc) = (3 * (int_box(k) / 3), 3 * (int_box(k) % 3));
    if k < 27 {
        assert(r / 3 == int_box(k) / 3);
        assert(c / 3 != int_box(k) % 3);
        if c < bc {
            c
        } else {
            c - 3
        }
    } else {
        assert(c / 3 == int_box(k) % 3);
        assert(r / 3 != int_box(k) / 3);
        if r < br {
            r
        } else {
            r - 3
        }
    }
}

// ---------------------------------------------------------------------------
// Peers
// ---------------------------------------------------------------------------

/// How many peers a cell of row `r` has in row `k`.
pub open spec fn row_weight(r: int, k: int) -> int {
    if k == r {
        8
    } else if k / 3 == r / 3 {
        3
    } else {
        1
    }
}

/// How many peers a cell of row `r` has in the rows before `n`.
pub open spec fn peer_base(r: int, n: nat) -> int
    decreases n,
{
    if n == 0 {
        0
    } else {
        peer_base(r, (n - 1) as nat) + row_weight(r, n - 1)
    }
}

/// How many peers the cell in row `r` and column `c` has in row `k` before
/// column `n`.
pub open spec fn row_rank(r: int, c: int, k: int, n: int) -> int {
    if k == r {
        if n > c {
            n - 1
        } else {
            n
        }
    } else if k / 3 == r / 3 {
        let b = 3 * (c / 3);
        if n <= b {
            0
        } else if n >= b + 3 {
            3
        } else {
            n - b
        }
    } else if n > c {
        1
    } else {
        0
    }
}

/// Place of cell `x` among the peers of `c`, in ascending order.
pub open spec fn peer_slot(c: int, x: int) -> int {
    peer_base(c / 9, (x / 9) as nat) + row_rank(c / 9, c % 9, x / 9, x % 9)
}

proof fn lemma_peer_total(r: int)
    requires
        0 <= r < 9,
    ensures
        peer_base(r, 9) == 20,
{
    reveal_with_fuel(peer_base, 10);
}

proof fn lemma_peer_base_mono(r: int, a: nat, b: nat)
    requires
        a <= b,
    ensures
        0 <= peer_base(r, a) <= peer_base(r, b),
    decreases b,
{
    if a < b {
        lemma_peer_base_mono(r, a, (b - 1) as nat);
    } else if a > 0 {
        lemma_peer_base_mono(r, (a - 1) as nat, (b - 1) as nat);
    }
}

/// The slots of the peers lie in 0..20.
pub proof fn lemma_peer_slot(c: int, x: int)
    requires
        0 <= c < 81,
        0 <= x < 81,
        peers(c, x),
    ensures
        0 <= peer_slot(c, x) < 20,
{
    let (r, k) = (c / 9, x / 9);
    lemma_peer_total(r);
    lemma_peer_base_mono(r, 0, k as nat);
    lemma_peer_base_mono(r, (k + 1) as nat, 9);
    assert(box_of(c) == (r / 3) * 3 + (c % 9) / 3);
    assert(box_of(x) == (k / 3) * 3 + (x % 9) / 3) by {
        lemma_cell_coords(k, x % 9);
    }
    assert(row_rank(r, c % 9, k, x % 9) < row_weight(r, k));
}

/// The 20 peers of a cell, in ascending order.
fn peers_of(c: usize) -> (p: [u8; 20])
    requires
        c < 81,
    ensures
        forall|i: int| 0 <= i < 20 ==> #[trigger] p[i] < 81 && peers(c as int, p[i] as int),
        forall|x: int|
            0 <= x < 81 && #[trigger] peers(c as int, x) ==> p[peer_slot(c as int, x)] == x,
        forall|i: int, j: int| 0 <= i < j < 20 ==> #[trigger] p[i] < #[trigger] p[j],
{
    let r = c / 9;
    let col = c % 9;
    let ghost (gr, gc) = (r as int, col as int);
    let mut p: [u8; 20] = [0;20];
    let mut n: usize = 0;
    let mut ir: usize = 0;
    proof {
        lemma_cell_coords(gr, gc);
    }
    while ir < 9
        invariant
            ir <= 9,
            c < 81,
            r == c / 9,
            col == c % 9,
            gr == r,
            gc == col,
            box_of(c as int) == (gr / 3) * 3 + gc / 3,
            n == peer_base(gr, ir as nat),
            n <= 20,
            forall|i: int| 0 <= i < n ==> #[trigger] p[i] < 81 && peers(c as int, p[i] as int),
            forall|i: int| 0 <= i < n ==> #[trigger] p[i] < 9 * ir,
            forall|i: int, j: int| 0 <= i < j < n ==> #[trigger] p[i] < #[trigger] p[j],
            forall|x: int|
                0 <= x < 81 && x / 9 < ir && #[trigger] peers(c as int, x) ==> 0 <= peer_slot(
                    c as int,
                    x,
                ) < n && p[peer_slot(c as int, x)] == x,
        decreases 9 - ir,
    {
        let ghost n0 = n;
        let mut ic: usize = 0;
        proof {
            lemma_peer_total(gr);
            lemma_peer_base_mono(gr, (ir + 1) as nat, 9);
            assert(peer_base(gr, (ir + 1) as nat) == peer_base(gr, ir as nat) + row_weight(
                gr,
                ir as int,
            ));
        }
        while ic < 9
            invariant
                ic <= 9,
                ir < 9,
                c < 81,
                r == c / 9,
                col == c % 9,
                gr == r,
                gc == col,
                box_of(c as int) == (gr / 3) * 3 + gc / 3,
                n0 == peer_base(gr, ir as nat),
                n0 + row_weight(gr, ir as int) <= 20,
                n == n0 + row_rank(gr, gc, ir as int, ic as int),
                forall|i: int| 0 <= i < n ==> #[trigger] p[i] < 81 && peers(c as int, p[i] as int),
                forall|i: int| 0 <= i < n ==> #[trigger] p[i] < 9 * ir + ic,
                forall|i: int, j: int| 0 <= i < j < n ==> #[trigger] p[i] < #[trigger] p[j],
                forall|x: int|
                    0 <= x < 81 && (x / 9 < ir || x / 9 == ir && x % 9 < ic) && #[trigger] peers(
                        c as int,
                        x,
                    ) ==> 0 <= peer_slot(c as int, x) < n && p[peer_slot(c as int, x)] == x,
            decreases 9 - ic,
        {
            let i = 9 * ir + ic;
            proof {
                lemma_cell_coords(ir as int, ic as int);
            }
            let is_peer = i != c && (ir == r || ic == col || (ir / 3 == r / 3 && ic / 3 == col / 3));
            assert(is_peer <==> peers(c as int, i as int));
            assert(peer_slot(c as int, i as int) == n);
            if is_peer {
                assert(n < 20);
                p[n] = i as u8;
                n = n + 1;
            }
            proof {
                assert forall|x: int|
                    0 <= x < 81 && (x / 9 < ir || x / 9 == ir && x % 9 < ic + 1)
                        && #[trigger] peers(c as int, x) implies 0 <= peer_slot(c as int, x) < n
                    && p[peer_slot(c as int, x)] == x by {
                    if x / 9 == ir && x % 9 == ic {
                        assert(x == i);
                    }
                }
            }
            ic = ic + 1;
        }
        assert(row_rank(gr, gc, ir as int, 9) == row_weight(gr, ir as int));
        ir = ir + 1;
    }
    proof {
        lemma_peer_total(gr);
    }
    p
}

/// Index tables.
pub struct Tables {
    /// The nine cells of each unit.
    pub units: [[u8; 9]; 27],
    /// The 20 peers of each cell.
    pub peers: [[u8; 20]; 81],
    /// The row, column and box of each cell.
    pub cell_units: [[u8; 3]; 81],
    /// The same three units as a mask.
    pub cell_unit_mask: [u32; 81],
    /// The two intersections of each cell, as a mask.
    pub cell_int_mask: [u64; 81],
    pub ints: Intersections,
}

/// The 54 intersections of a box with a line: 27 with rows, 27 with columns.
pub struct Intersections {
    pub cells: [[u8; 3]; 54],
    pub box_rest: [[u8; 6]; 54],
    pub line_rest: [[u8; 6]; 54],
    /// Box and line of each, as units.
    pub units: [[u8; 2]; 54],
}

impl Intersections {
    pub open spec fn ok(&self) -> bool {
        &&& forall|k: int, n: int|
            0 <= k < 54 && 0 <= n < 3 ==> #[trigger] self.cells[k][n] == int_cell(k, n) && int_cell(
                k,
                n,
            ) < 81
        &&& forall|k: int, j: int|
            0 <= k < 54 && 0 <= j < 6 ==> #[trigger] self.box_rest[k][j] == box_rest_cell(k, j)
        &&& forall|k: int, j: int|
            0 <= k < 54 && 0 <= j < 6 ==> #[trigger] self.line_rest[k][j] == line_rest_cell(k, j)
        &&& forall|k: int|
            0 <= k < 54 ==> #[trigger] self.units[k][0] == 18 + int_box(k) && self.units[k][1]
                == int_line(k)
    }
}

impl Tables {
    #[verifier::opaque]
    pub open spec fn ok(&self) -> bool {
        &&& forall|u: int, i: int|
            0 <= u < 27 && 0 <= i < 9 ==> #[trigger] self.units[u][i] == unit_cell(u, i)
        &&& forall|c: int, i: int|
            0 <= c < 81 && 0 <= i < 20 ==> #[trigger] self.peers[c][i] < 81 && peers(
                c,
                self.peers[c][i] as int,
            )
        &&& forall|c: int, x: int|
            0 <= c < 81 && 0 <= x < 81 && #[trigger] peers(c, x) ==> self.peers[c][peer_slot(c, x)]
                == x
        &&& forall|c: int, i: int, j: int|
            0 <= c < 81 && 0 <= i < j < 20 ==> #[trigger] self.peers[c][i]
                < #[trigger] self.peers[c][j]
        &&& forall|c: int|
            0 <= c < 81 ==> #[trigger] self.cell_units[c]@ =~= seq![
                row_of(c) as u8,
                (9 + col_of(c)) as u8,
                (18 + box_of(c)) as u8,
            ]
        &&& forall|c: int, u: int|
            0 <= c < 81 ==> (#[trigger] bit32(self.cell_unit_mask[c], u) <==> 0 <= u < 27 && in_unit(
                u,
                c,
            ))
        &&& forall|c: int, k: int|
            0 <= c < 81 ==> (#[trigger] bit64(self.cell_int_mask[c], k) <==> 0 <= k < 54 && box_of(c)
                == int_box(k) && on_line(k, c))
        &&& self.ints.ok()
    }

    pub fn new() -> (t: Tables)
        ensures
            t.ok(),
    {
        let t = Tables {
            units: build_units(),
            peers: build_peers(),
            cell_units: build_cell_units(),
            cell_unit_mask: build_cell_unit_masks(),
            cell_int_mask: build_cell_int_masks(),
            ints: build_intersections(),
        };
        proof {
            reveal(Tables::ok);
        }
        t
    }
}

/// The 27 units: nine rows, nine columns, nine boxes.
pub fn build_units() -> (u: [[u8; 9]; 27])
    ensures
        forall|n: int, i: int|
            0 <= n < 27 && 0 <= i < 9 ==> #[trigger] u[n][i] == unit_cell(n, i) && unit_cell(n, i)
                < 81,
{
    let mut u: [[u8; 9]; 27] = [[0;9];27];
    let mut n: usize = 0;
    while n < 27
        invariant
            n <= 27,
            forall|m: int, i: int|
                0 <= m < n && 0 <= i < 9 ==> #[trigger] u[m][i] == unit_cell(m, i) && unit_cell(m, i)
                    < 81,
        decreases 27 - n,
    {
        let mut row: [u8; 9] = [0;9];
        let mut i: usize = 0;
        while i < 9
            invariant
                i <= 9,
                n < 27,
                forall|j: int|
                    0 <= j < i ==> #[trigger] row[j] == unit_cell(n as int, j) && unit_cell(
                        n as int,
                        j,
                    ) < 81,
            decreases 9 - i,
        {
            proof {
                crate::grid::lemma_unit_cells(n as int, i as int, if i == 0 {
                    1
                } else {
                    0
                });
            }
            row[i] = if n < 9 {
                (n * 9 + i) as u8
            } else if n < 18 {
                (i * 9 + (n - 9)) as u8
            } else {
                ((((n - 18) / 3) * 3 + i / 3) * 9 + ((n - 18) % 3) * 3 + i % 3) as u8
            };
            i = i + 1;
        }
        u[n] = row;
        n = n + 1;
    }
    u
}

/// The 20 peers of every cell.
pub fn build_peers() -> (p: [[u8; 20]; 81])
    ensures
        forall|c: int, i: int|
            0 <= c < 81 && 0 <= i < 20 ==> #[trigger] p[c][i] < 81 && peers(c, p[c][i] as int),
        forall|c: int, x: int|
            0 <= c < 81 && 0 <= x < 81 && #[trigger] peers(c, x) ==> p[c][peer_slot(c, x)] == x,
        forall|c: int, i: int, j: int|
            0 <= c < 81 && 0 <= i < j < 20 ==> #[trigger] p[c][i] < #[trigger] p[c][j],
{
    let mut p: [[u8; 20]; 81] = [[0;20];81];
    let mut n: usize = 0;
    while n < 81
        invariant
            n <= 81,
            forall|c: int, i: int|
                0 <= c < n && 0 <= i < 20 ==> #[trigger] p[c][i] < 81 && peers(c, p[c][i] as int),
            forall|c: int, x: int|
                0 <= c < n && 0 <= x < 81 && #[trigger] peers(c, x) ==> p[c][peer_slot(c, x)] == x,
            forall|c: int, i: int, j: int|
                0 <= c < n && 0 <= i < j < 20 ==> #[trigger] p[c][i] < #[trigger] p[c][j],
        decreases 81 - n,
    {
        let row = peers_of(n);
        p[n] = row;
        n = n + 1;
    }
    p
}

/// Row, column and box of every cell, as units.
pub fn build_cell_units() -> (t: [[u8; 3]; 81])
    ensures
        forall|c: int|
            0 <= c < 81 ==> #[trigger] t[c]@ =~= seq![
                row_of(c) as u8,
                (9 + col_of(c)) as u8,
                (18 + box_of(c)) as u8,
            ],
{
    let mut t: [[u8; 3]; 81] = [[0;3];81];
    let mut n: usize = 0;
    while n < 81
        invariant
            n <= 81,
            forall|c: int|
                0 <= c < n ==> #[trigger] t[c]@ =~= seq![
                    row_of(c) as u8,
                    (9 + col_of(c)) as u8,
                    (18 + box_of(c)) as u8,
                ],
        decreases 81 - n,
    {
        let r = n / 9;
        let col = n % 9;
        t[n] = [r as u8, (9 + col) as u8, (18 + (n / 27) * 3 + col / 3) as u8];
        n = n + 1;
    }
    t
}

/// The three units of every cell, as a mask.
pub fn build_cell_unit_masks() -> (t: [u32; 81])
    ensures
        forall|c: int, u: int|
            0 <= c < 81 ==> (#[trigger] bit32(t[c], u) <==> 0 <= u < 27 && in_unit(u, c)),
{
    let mut t: [u32; 81] = [0;81];
    let mut n: usize = 0;
    while n < 81
        invariant
            n <= 81,
            forall|c: int, u: int|
                0 <= c < n ==> (#[trigger] bit32(t[c], u) <==> 0 <= u < 27 && in_unit(u, c)),
        decreases 81 - n,
    {
        let r = (n / 9) as u32;
        let col = (n % 9) as u32;
        let b = ((n / 27) * 3 + (n % 9) / 3) as u32;
        t[n] = (1u32 << r) | (1u32 << (9 + col)) | (1u32 << (18 + b));
        n = n + 1;
    }
    t
}

/// A cell lies in the intersections of its box with its row and its column.
proof fn lemma_cell_ints(c: int, k: int)
    requires
        0 <= c < 81,
    ensures
        (0 <= k < 54 && box_of(c) == int_box(k) && on_line(k, c)) <==> (k == 3 * box_of(c) + row_of(c)
            % 3 || k == 27 + 3 * box_of(c) + col_of(c) % 3),
{
    let (r, x) = (c / 9, c % 9);
    assert(c == 9 * r + x);
    lemma_cell_coords(r, x);
    let b = box_of(c);
    assert(b / 3 == r / 3 && b % 3 == x / 3);
    if 0 <= k < 27 {
        assert(k % 27 == k);
        assert(k == 3 * (k / 3) + k % 3);
    } else if 27 <= k < 54 {
        assert(k % 27 == k - 27);
        assert((k - 27) % 3 == k % 3);
    }
    let (p, q) = (3 * b + r % 3, 27 + 3 * b + x % 3);
    assert(p % 27 == p && p / 3 == b && p % 3 == r % 3);
    assert(q % 27 == q - 27 && (q - 27) / 3 == b && q % 3 == x % 3);
}

/// The two intersections of every cell, as a mask.
pub fn build_cell_int_masks() -> (t: [u64; 81])
    ensures
        forall|c: int, k: int|
            0 <= c < 81 ==> (#[trigger] bit64(t[c], k) <==> 0 <= k < 54 && box_of(c) == int_box(k)
                && on_line(k, c)),
{
    let mut t: [u64; 81] = [0;81];
    let mut n: usize = 0;
    while n < 81
        invariant
            n <= 81,
            forall|c: int, k: int|
                0 <= c < n ==> (#[trigger] bit64(t[c], k) <==> 0 <= k < 54 && box_of(c) == int_box(k)
                    && on_line(k, c)),
        decreases 81 - n,
    {
        let r = n / 9;
        let cl = n % 9;
        let b = (r / 3) * 3 + cl / 3;
        let x = (b * 3 + r % 3) as u64;
        let y = (27 + b * 3 + cl % 3) as u64;
        t[n] = (1u64 << x) | (1u64 << y);
        proof {
            let c = n as int;
            assert forall|k: int| #[trigger] bit64(t[c], k) <==> 0 <= k < 54 && box_of(c) == int_box(k)
                && on_line(k, c) by {
                lemma_cell_ints(c, k);
                assert(x == 3 * box_of(c) + row_of(c) % 3) by {
                    lemma_cell_coords(r as int, cl as int);
                }
                assert(y == 27 + 3 * box_of(c) + col_of(c) % 3) by {
                    lemma_cell_coords(r as int, cl as int);
                }
            }
        }
        n = n + 1;
    }
    t
}

/// The intersections of boxes with lines.
pub fn build_intersections() -> (t: Intersections)
    ensures
        t.ok(),
{
    let mut cells: [[u8; 3]; 54] = [[0;3];54];
    let mut box_rest: [[u8; 6]; 54] = [[0;6];54];
    let mut line_rest: [[u8; 6]; 54] = [[0;6];54];
    let mut units: [[u8; 2]; 54] = [[0;2];54];
    let mut k: usize = 0;
    while k < 54
        invariant
            k <= 54,
            forall|m: int, n: int|
                0 <= m < k && 0 <= n < 3 ==> #[trigger] cells[m][n] == int_cell(m, n) && int_cell(
                    m,
                    n,
                ) < 81,
            forall|m: int, j: int|
                0 <= m < k && 0 <= j < 6 ==> #[trigger] box_rest[m][j] == box_rest_cell(m, j),
            forall|m: int, j: int|
                0 <= m < k && 0 <= j < 6 ==> #[trigger] line_rest[m][j] == line_rest_cell(m, j),
            forall|m: int|
                0 <= m < k ==> #[trigger] units[m][0] == 18 + int_box(m) && units[m][1] == int_line(
                    m,
                ),
        decreases 54 - k,
    {
        let b = (k % 27) / 3;
        let i = k % 3;
        let br = 3 * (b / 3);
        let bc = 3 * (b % 3);
        let by_row = k < 27;
        let mut n: usize = 0;
        let mut three: [u8; 3] = [0;3];
        while n < 3
            invariant
                n <= 3,
                k < 54,
                b == (k % 27) / 3,
                i == k % 3,
                br == 3 * (b / 3),
                bc == 3 * (b % 3),
                by_row == (k < 27),
                forall|m: int|
                    0 <= m < n ==> #[trigger] three[m] == int_cell(k as int, m) && int_cell(
                        k as int,
                        m,
                    ) < 81,
            decreases 3 - n,
        {
            three[n] = if by_row {
                (9 * (br + i) + bc + n) as u8
            } else {
                (9 * (br + n) + bc + i) as u8
            };
            n = n + 1;
        }
        cells[k] = three;
        let mut j: usize = 0;
        let mut off_line: [u8; 6] = [0;6];
        let mut off_box: [u8; 6] = [0;6];
        while j < 6
            invariant
                j <= 6,
                k < 54,
                b == (k % 27) / 3,
                i == k % 3,
                br == 3 * (b / 3),
                bc == 3 * (b % 3),
                by_row == (k < 27),
                forall|m: int| 0 <= m < j ==> #[trigger] off_line[m] == box_rest_cell(k as int, m),
                forall|m: int| 0 <= m < j ==> #[trigger] off_box[m] == line_rest_cell(k as int, m),
            decreases 6 - j,
        {
            proof {
                lemma_box_rest(k as int, j as int);
                lemma_line_rest(k as int, j as int);
            }
            let t = if by_row {
                j / 3
            } else {
                j % 2
            };
            let s = if t < i {
                t
            } else {
                t + 1
            };
            off_line[j] = if by_row {
                (9 * (br + s) + bc + j % 3) as u8
            } else {
                (9 * (br + j / 2) + bc + s) as u8
            };
            let edge = if by_row {
                bc
            } else {
                br
            };
            let p = if j < edge {
                j
            } else {
                j + 3
            };
            off_box[j] = if by_row {
                (9 * (br + i) + p) as u8
            } else {
                (9 * p + bc + i) as u8
            };
            j = j + 1;
        }
        box_rest[k] = off_line;
        line_rest[k] = off_box;
        units[k] = [
            (18 + b) as u8,
            if by_row {
                (br + i) as u8
            } else {
                (9 + bc + i) as u8
            },
        ];
        k = k + 1;
    }
    Intersections { cells, box_rest, line_rest, units }
}

} // verus!
