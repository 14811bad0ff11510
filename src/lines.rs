//! The fixed table of the 49 straight lines through the cube.
use vstd::prelude::*;

use crate::board::{in_cube, Pos};

verus! {

/// Number of winning lines: 27 along the axes, 18 face diagonals, 4 space diagonals.
pub const LINE_COUNT: usize = 49;

/// Cell `k` (0, 1 or 2) of winning line `i`.
///
/// Lines are numbered in the order in which win detection scans them:
/// lines along x (for each y, z), along y (for each x, z), along z (for each
/// x, y); then the two diagonals of each xy plane (by z), of each xz plane
/// (by y), of each yz plane (by x); then the four space diagonals.
pub open spec fn line_cell(i: int, k: int) -> Pos {
    let t = k as usize;
    if i < 27 {
        let u = ((i % 9) / 3) as usize;
        let v = (i % 3) as usize;
        if i < 9 {
            (t, u, v)
        } else if i < 18 {
            (u, t, v)
        } else {
            (u, v, t)
        }
    } else if i < 45 {
        let r = (i - 27) % 6;
        let w = (r / 2) as usize;
        let s = if r % 2 == 0 { t } else { (2 - k) as usize };
        if i < 33 {
            (t, s, w)
        } else if i < 39 {
            (t, w, s)
        } else {
            (w, t, s)
        }
    } else {
        let j = i - 45;
        let m = (2 - k) as usize;
        (t, if j >= 2 { m } else { t }, if j % 2 == 1 { m } else { t })
    }
}

fn line_point(i: usize, k: usize) -> (p: Pos)
    requires
        i < LINE_COUNT,
        k < 3,
    ensures
        p == line_cell(i as int, k as int),
{
    if i < 27 {
        let u = (i % 9) / 3;
        let v = i % 3;
        if i < 9 {
            (k, u, v)
        } else if i < 18 {
            (u, k, v)
        } else {
            (u, v, k)
        }
    } else if i < 45 {
        let r = (i - 27) % 6;
        let w = r / 2;
        let s = if r % 2 == 0 { k } else { 2 - k };
        if i < 33 {
            (k, s, w)
        } else if i < 39 {
            (k, w, s)
        } else {
            (w, k, s)
        }
    } else {
        let j = i - 45;
        let m = 2 - k;
        (k, if j >= 2 { m } else { k }, if j % 2 == 1 { m } else { k })
    }
}

/// The cells of winning line `i`, as a set.
pub open spec fn line_set(i: int) -> Set<Pos> {
    set![line_cell(i, 0), line_cell(i, 1), line_cell(i, 2)]
}

/// Three distinct cells of the cube in a straight line, `b` in the middle.
pub open spec fn is_straight(a: Pos, b: Pos, c: Pos) -> bool {
    &&& in_cube(a) && in_cube(b) && in_cube(c)
    &&& a != b
    &&& b.0 - a.0 == c.0 - b.0
    &&& b.1 - a.1 == c.1 - b.1
    &&& b.2 - a.2 == c.2 - b.2
}

pub open spec fn covers(i: int, p: Pos) -> bool {
    line_cell(i, 0) == p || line_cell(i, 1) == p || line_cell(i, 2) == p
}

spec fn line_ok(i: int) -> bool {
    is_straight(line_cell(i, 0), line_cell(i, 1), line_cell(i, 2))
}

spec fn lines_differ(i: int, j: int) -> bool {
    i == j || !(covers(j, line_cell(i, 0)) && covers(j, line_cell(i, 1)) && covers(j, line_cell(i, 2)))
}

/// The entry of the table for a straight line through middle cell `b`,
/// coming from `a`.
pub open spec fn line_index_of(a: Pos, b: Pos) -> int {
    let dx = b.0 - a.0;
    let dy = b.1 - a.1;
    let dz = b.2 - a.2;
    if dy == 0 && dz == 0 {
        3 * b.1 + b.2
    } else if dx == 0 && dz == 0 {
        9 + 3 * b.0 + b.2
    } else if dx == 0 && dy == 0 {
        18 + 3 * b.0 + b.1
    } else if dz == 0 {
        27 + 2 * b.2 + if dx == dy { 0int } else { 1int }
    } else if dy == 0 {
        33 + 2 * b.1 + if dx == dz { 0int } else { 1int }
    } else if dx == 0 {
        39 + 2 * b.0 + if dy == dz { 0int } else { 1int }
    } else {
        45 + (if dx == dy { 0int } else { 2int }) + if dx == dz { 0int } else { 1int }
    }
}

proof fn lemma_line_index_of(a: Pos, b: Pos, c: Pos)
    requires
        is_straight(a, b, c),
    ensures
        0 <= line_index_of(a, b) < 49,
        covers(line_index_of(a, b), a),
        covers(line_index_of(a, b), b),
        covers(line_index_of(a, b), c),
{
}

proof fn lemma_line_ok(i: int)
    requires
        0 <= i < 49,
    ensures
        line_ok(i),
{
}

proof fn lemma_lines_differ(i: int, j: int)
    requires
        0 <= i < j < 49,
    ensures
        lines_differ(i, j),
{
}

/// The table holds exactly the straight lines of the cube: each of its 49
/// entries is three distinct cells in a straight line, no two entries hold
/// the same cells, and every straight line of three cells is an entry.
pub proof fn lemma_winning_lines()
    ensures
        forall|i: int|
            0 <= i < 49 ==> #[trigger] is_straight(line_cell(i, 0), line_cell(i, 1), line_cell(i, 2)),
        forall|i: int, k: int, l: int|
            0 <= i < 49 && 0 <= k < l < 3 ==> #[trigger] line_cell(i, k) != #[trigger] line_cell(i, l),
        forall|i: int, j: int| 0 <= i < j < 49 ==> #[trigger] line_set(i) != #[trigger] line_set(j),
        forall|a: Pos, b: Pos, c: Pos|
            #[trigger] is_straight(a, b, c) ==> exists|i: int|
                0 <= i < 49 && #[trigger] line_set(i) == set![a, b, c],
{
    assert forall|i: int| 0 <= i < 49 implies #[trigger] is_straight(
        line_cell(i, 0),
        line_cell(i, 1),
        line_cell(i, 2),
    ) by {
        lemma_line_ok(i);
    }
    assert forall|i: int, k: int, l: int|
        0 <= i < 49 && 0 <= k < l < 3 implies #[trigger] line_cell(i, k) != #[trigger] line_cell(i, l) by {
        lemma_line_ok(i);
    }
    assert forall|i: int, j: int| 0 <= i < j < 49 implies #[trigger] line_set(i) != #[trigger] line_set(j) by {
        lemma_lines_differ(i, j);
        if line_set(i) == line_set(j) {
            assert(line_set(j).contains(line_cell(i, 0)));
            assert(line_set(j).contains(line_cell(i, 1)));
            assert(line_set(j).contains(line_cell(i, 2)));
        }
    }
    assert forall|a: Pos, b: Pos, c: Pos| #[trigger] is_straight(a, b, c) implies exists|i: int|
        0 <= i < 49 && #[trigger] line_set(i) == set![a, b, c] by {
        lemma_line_index_of(a, b, c);
        let i = line_index_of(a, b);
        lemma_line_ok(i);
        assert(line_set(i) =~= set![a, b, c]);
    }
}

/// The three cells of winning line `i`.
pub fn winning_line(i: usize) -> (line: [Pos; 3])
    requires
        i < LINE_COUNT,
    ensures
        forall|k: int| 0 <= k < 3 ==> line[k] == line_cell(i as int, k),
{
    [line_point(i, 0), line_point(i, 1), line_point(i, 2)]
}

} // verus!
