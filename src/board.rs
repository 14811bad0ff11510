//! The cube of cells, its players, and the rules that read a position.
use vstd::prelude::*;

use crate::lines::{lemma_winning_lines, line_cell, line_set, winning_line, LINE_COUNT};

verus! {

/// One of the two players. The human moves first.
#[derive(Clone, Copy, Debug, PartialEq, Eq, Structural)]
pub enum Player {
    Human,
    AI,
}

/// What a cell holds.
#[derive(Clone, Copy, Debug, PartialEq, Eq, Structural)]
pub enum CellState {
    Empty,
    Human,
    AI,
}

/// A cell's coordinates (x, y, z), each in 0..3.
pub type Pos = (usize, usize, usize);

/// The cube, indexed `[x][y][z]`.
pub type Board = [[[CellState; 3]; 3]; 3];

pub open spec fn in_cube(p: Pos) -> bool {
    p.0 < 3 && p.1 < 3 && p.2 < 3
}

/// Position of a cell in the enumeration order x outer, y middle, z inner.
pub open spec fn idx(p: Pos) -> int {
    9 * p.0 + 3 * p.1 + p.2
}

/// The cell at position `n` of the enumeration order.
pub open spec fn pos_of(n: int) -> Pos {
    ((n / 9) as usize, ((n / 3) % 3) as usize, (n % 3) as usize)
}

/// The board as 27 cells in enumeration order.
pub open spec fn grid(b: Board) -> Seq<CellState> {
    Seq::new(27, |n: int| b[n / 9][(n / 3) % 3][n % 3])
}

pub open spec fn at(g: Seq<CellState>, p: Pos) -> CellState {
    g[idx(p)]
}

pub proof fn lemma_pos_idx()
    ensures
        forall|n: int| 0 <= n < 27 ==> #[trigger] in_cube(pos_of(n)) && idx(pos_of(n)) == n,
        forall|p: Pos| #[trigger] in_cube(p) ==> 0 <= idx(p) < 27 && pos_of(idx(p)) == p,
{
    assert forall|n: int| 0 <= n < 27 implies #[trigger] in_cube(pos_of(n)) && idx(pos_of(n)) == n by {
    }
    assert forall|p: Pos| #[trigger] in_cube(p) implies 0 <= idx(p) < 27 && pos_of(idx(p)) == p by {
    }
}

/// Whether two coordinates name the same cell.
pub fn same_pos(a: Pos, b: Pos) -> (r: bool)
    ensures
        r == (a == b),
{
    a.0 == b.0 && a.1 == b.1 && a.2 == b.2
}

/// Reads one cell of the board.
pub fn cell_at(b: &Board, p: Pos) -> (c: CellState)
    requires
        in_cube(p),
    ensures
        c == at(grid(*b), p),
{
    proof {
        lemma_pos_idx();
    }
    b[p.0][p.1][p.2]
}

/// Sets one cell of the board.
pub fn place(b: &mut Board, p: Pos, c: CellState)
    requires
        in_cube(p),
    ensures
        grid(*final(b)) == grid(*old(b)).update(idx(p), c),
{
    b[p.0][p.1][p.2] = c;
    proof {
        lemma_pos_idx();
        assert(grid(*b) =~= grid(*old(b)).update(idx(p), c));
    }
}


/// The state of a finished or unfinished game, read from the board alone.
#[derive(Clone, Copy, Debug, PartialEq, Eq, Structural)]
pub enum GameOutcome {
    Ongoing,
    Won(Player),
    Drawn,
}

pub open spec fn mark_of(p: Player) -> CellState {
    match p {
        Player::Human => CellState::Human,
        Player::AI => CellState::AI,
    }
}

pub open spec fn other(p: Player) -> Player {
    match p {
        Player::Human => Player::AI,
        Player::AI => Player::Human,
    }
}

/// The player that a non-empty mark belongs to.
pub open spec fn owner_of(c: CellState) -> Player {
    match c {
        CellState::AI => Player::AI,
        _ => Player::Human,
    }
}

/// Line `i` is held in all three cells by the same player.
pub open spec fn line_won(g: Seq<CellState>, i: int) -> bool {
    let a = at(g, line_cell(i, 0));
    a != CellState::Empty && at(g, line_cell(i, 1)) == a && at(g, line_cell(i, 2)) == a
}

/// The owner of the first completed line at index `i` or later.
pub open spec fn first_winner_from(g: Seq<CellState>, i: int) -> Option<Player>
    decreases 49 - i,
{
    if i >= 49 || i < 0 {
        None
    } else if line_won(g, i) {
        Some(owner_of(at(g, line_cell(i, 0))))
    } else {
        first_winner_from(g, i + 1)
    }
}

/// The owner of the first completed line in scan order, if any.
pub open spec fn winner(g: Seq<CellState>) -> Option<Player> {
    first_winner_from(g, 0)
}

pub open spec fn has_win(g: Seq<CellState>) -> bool {
    exists|i: int| 0 <= i < 49 && #[trigger] line_won(g, i)
}

pub open spec fn full(g: Seq<CellState>) -> bool {
    forall|n: int| 0 <= n < 27 ==> g[n] != CellState::Empty
}

/// Every completed line belongs to the same player.
pub open spec fn single_winner(g: Seq<CellState>) -> bool {
    forall|i: int, j: int|
        0 <= i < 49 && 0 <= j < 49 && #[trigger] line_won(g, i) && #[trigger] line_won(g, j)
            ==> at(g, line_cell(i, 0)) == at(g, line_cell(j, 0))
}

pub open spec fn outcome(g: Seq<CellState>) -> GameOutcome {
    match winner(g) {
        Some(p) => GameOutcome::Won(p),
        None => if full(g) {
            GameOutcome::Drawn
        } else {
            GameOutcome::Ongoing
        },
    }
}

/// The empty cells among the first `n` of the enumeration order, in that order.
pub open spec fn empties_upto(g: Seq<CellState>, n: int) -> Seq<Pos>
    decreases n,
{
    if n <= 0 {
        Seq::empty()
    } else if g[n - 1] == CellState::Empty {
        empties_upto(g, n - 1).push(pos_of(n - 1))
    } else {
        empties_upto(g, n - 1)
    }
}

/// All empty cells, x outer, y middle, z inner.
pub open spec fn empties(g: Seq<CellState>) -> Seq<Pos> {
    empties_upto(g, 27)
}

pub proof fn lemma_lines_in_cube()
    ensures
        forall|i: int, k: int| 0 <= i < 49 && 0 <= k < 3 ==> #[trigger] in_cube(line_cell(i, k)),
{
}

proof fn lemma_first_winner_from(g: Seq<CellState>, i: int)
    requires
        0 <= i <= 49,
    ensures
        first_winner_from(g, i).is_some() <==> exists|j: int| i <= j < 49 && #[trigger] line_won(g, j),
        first_winner_from(g, i) matches Some(p) ==> exists|j: int|
            i <= j < 49 && #[trigger] line_won(g, j) && owner_of(at(g, line_cell(j, 0))) == p,
    decreases 49 - i,
{
    if i < 49 {
        lemma_first_winner_from(g, i + 1);
    }
}

/// `winner` finds a completed line exactly when there is one, and names its owner.
pub proof fn lemma_winner_has_win(g: Seq<CellState>)
    ensures
        winner(g).is_some() <==> has_win(g),
        winner(g) matches Some(p) ==> exists|j: int|
            0 <= j < 49 && #[trigger] line_won(g, j) && owner_of(at(g, line_cell(j, 0))) == p,
{
    lemma_first_winner_from(g, 0);
}

/// Whether the three given cells hold the same mark of a player.
pub fn check_line(board: &Board, positions: &[Pos; 3]) -> (r: bool)
    requires
        forall|k: int| 0 <= k < 3 ==> in_cube(#[trigger] positions[k]),
    ensures
        r == ({
            let g = grid(*board);
            let a = at(g, positions[0]);
            a != CellState::Empty && at(g, positions[1]) == a && at(g, positions[2]) == a
        }),
{
    proof {
        lemma_pos_idx();
    }
    let p0 = positions[0];
    let p1 = positions[1];
    let p2 = positions[2];
    let a = board[p0.0][p0.1][p0.2];
    let b = board[p1.0][p1.1][p1.2];
    let c = board[p2.0][p2.1][p2.2];
    proof {
        assert(in_cube(p0) && in_cube(p1) && in_cube(p2));
        assert(grid(*board)[idx(p0)] == a);
        assert(grid(*board)[idx(p1)] == b);
        assert(grid(*board)[idx(p2)] == c);
    }
    a != CellState::Empty && a == b && b == c
}

/// The player whose mark stands in the first of the given cells.
pub fn get_winner_from_line(board: &Board, positions: &[Pos; 3]) -> (r: Player)
    requires
        in_cube(positions[0]),
        at(grid(*board), positions[0]) != CellState::Empty,
    ensures
        r == owner_of(at(grid(*board), positions[0])),
{
    proof {
        lemma_pos_idx();
    }
    let p0 = positions[0];
    let a = board[p0.0][p0.1][p0.2];
    assert(grid(*board)[idx(p0)] == a);
    match a {
        CellState::AI => Player::AI,
        _ => Player::Human,
    }
}

/// The owner of the first completed line, scanning the lines in table order.
pub fn winning_player(board: &Board) -> (r: Option<Player>)
    ensures
        r == winner(grid(*board)),
        r.is_some() == has_win(grid(*board)),
{
    proof {
        lemma_winner_has_win(grid(*board));
        lemma_lines_in_cube();
    }
    let mut i: usize = 0;
    while i < LINE_COUNT
        invariant
            0 <= i <= 49,
            first_winner_from(grid(*board), i as int) == winner(grid(*board)),
        decreases 49 - i,
    {
        let line = winning_line(i);
        proof {
            assert(forall|k: int| 0 <= k < 3 ==> in_cube(#[trigger] line[k]));
        }
        if check_line(board, &line) {
            return Some(get_winner_from_line(board, &line));
        }
        i = i + 1;
    }
    None
}


proof fn lemma_empties_upto(g: Seq<CellState>, n: int)
    requires
        0 <= n <= 27,
        g.len() == 27,
    ensures
        forall|p: Pos| #[trigger] empties_upto(g, n).contains(p)
            <==> in_cube(p) && idx(p) < n && at(g, p) == CellState::Empty,
        empties_upto(g, n).len() == 0 <==> forall|m: int| 0 <= m < n ==> g[m] != CellState::Empty,
        forall|a: int, b: int| 0 <= a < b < empties_upto(g, n).len()
            ==> idx(#[trigger] empties_upto(g, n)[a]) < idx(#[trigger] empties_upto(g, n)[b]),
    decreases n,
{
    lemma_pos_idx();
    if n > 0 {
        lemma_empties_upto(g, n - 1);
        let s = empties_upto(g, n - 1);
        if g[n - 1] == CellState::Empty {
            assert(s.push(pos_of(n - 1))[s.len() as int] == pos_of(n - 1));
            assert forall|p: Pos| #[trigger] s.push(pos_of(n - 1)).contains(p)
                <==> in_cube(p) && idx(p) < n && at(g, p) == CellState::Empty by {
                if s.push(pos_of(n - 1)).contains(p) {
                    let k = choose|k: int| 0 <= k < s.len() + 1 && #[trigger] s.push(pos_of(n - 1))[k] == p;
                    if k < s.len() {
                        assert(s.contains(p));
                    }
                }
                if in_cube(p) && idx(p) < n && at(g, p) == CellState::Empty {
                    if idx(p) < n - 1 {
                        assert(s.contains(p));
                        let k = choose|k: int| 0 <= k < s.len() && #[trigger] s[k] == p;
                        assert(s.push(pos_of(n - 1))[k] == p);
                    }
                }
            }
            assert forall|a: int, b: int| 0 <= a < b < s.push(pos_of(n - 1)).len()
                implies idx(#[trigger] s.push(pos_of(n - 1))[a]) < idx(#[trigger] s.push(pos_of(n - 1))[b]) by {
                if b == s.len() {
                    assert(s.contains(s[a]));
                }
            }
        } else {
            assert forall|m: int| 0 <= m < n - 1 && g[m] == CellState::Empty implies s.len() != 0 by {
                assert(s.contains(pos_of(m)));
            }
        }
    }
}

/// The empty cells are exactly the cells of the cube that hold no mark, in
/// strictly increasing enumeration order.
pub proof fn lemma_empties(g: Seq<CellState>)
    requires
        g.len() == 27,
    ensures
        forall|p: Pos| #[trigger] empties(g).contains(p) <==> in_cube(p) && at(g, p) == CellState::Empty,
        forall|a: int, b: int| 0 <= a < b < empties(g).len()
            ==> idx(#[trigger] empties(g)[a]) < idx(#[trigger] empties(g)[b]),
{
    lemma_pos_idx();
    lemma_empties_upto(g, 27);
}

proof fn lemma_fill_upto(g: Seq<CellState>, c: Pos, m: CellState, n: int)
    requires
        g.len() == 27,
        in_cube(c),
        g[idx(c)] == CellState::Empty,
        m != CellState::Empty,
        0 <= n <= 27,
    ensures
        empties_upto(g.update(idx(c), m), n).len() == empties_upto(g, n).len() - (if idx(c) < n {
            1int
        } else {
            0int
        }),
    decreases n,
{
    if n > 0 {
        lemma_fill_upto(g, c, m, n - 1);
    }
}

/// Marking an empty cell leaves one empty cell fewer.
pub proof fn lemma_fill_shrinks_empties(g: Seq<CellState>, c: Pos, m: CellState)
    requires
        g.len() == 27,
        in_cube(c),
        at(g, c) == CellState::Empty,
        m != CellState::Empty,
    ensures
        empties(g.update(idx(c), m)).len() == empties(g).len() - 1,
{
    lemma_fill_upto(g, c, m, 27);
}

/// After a placement on a board with no completed line, every completed line
/// runs through the new mark.
pub proof fn lemma_lines_after_placement(g0: Seq<CellState>, c: Pos, m: CellState)
    requires
        g0.len() == 27,
        in_cube(c),
        !has_win(g0),
        m != CellState::Empty,
    ensures
        forall|i: int| 0 <= i < 49 && #[trigger] line_won(g0.update(idx(c), m), i)
            ==> at(g0.update(idx(c), m), line_cell(i, 0)) == m,
        single_winner(g0.update(idx(c), m)),
        has_win(g0.update(idx(c), m)) ==> winner(g0.update(idx(c), m)) == Some(owner_of(m)),
        !has_win(g0.update(idx(c), m)) ==> winner(g0.update(idx(c), m)).is_none(),
        winner(g0).is_none(),
{
    let g = g0.update(idx(c), m);
    lemma_pos_idx();
    lemma_lines_in_cube();
    assert forall|i: int| 0 <= i < 49 && #[trigger] line_won(g, i) implies at(g, line_cell(i, 0)) == m by {
        let p0 = line_cell(i, 0);
        let p1 = line_cell(i, 1);
        let p2 = line_cell(i, 2);
        assert(in_cube(p0) && in_cube(p1) && in_cube(p2));
        if p0 != c && p1 != c && p2 != c {
            assert(idx(p0) != idx(c));
            assert(idx(p1) != idx(c));
            assert(idx(p2) != idx(c));
            assert(line_won(g0, i));
        }
    }
    lemma_winner_has_win(g);
    lemma_winner_has_win(g0);
    if has_win(g) {
        let j = choose|j: int|
            0 <= j < 49 && #[trigger] line_won(g, j) && owner_of(at(g, line_cell(j, 0)))
                == winner(g).unwrap();
        assert(at(g, line_cell(j, 0)) == m);
    }
}

/// The player whose turn it is after `k` moves of a game that `player` began.
pub open spec fn mover_at(player: Player, k: int) -> Player {
    if k % 2 == 0 {
        player
    } else {
        other(player)
    }
}

/// The board after the first `n` of `plays`, made in turn from `g` with
/// `player` moving first.
pub open spec fn board_after(g: Seq<CellState>, player: Player, plays: Seq<Pos>, n: int) -> Seq<CellState>
    decreases n,
{
    if n <= 0 {
        g
    } else {
        board_after(g, player, plays, n - 1).update(idx(plays[n - 1]), mark_of(mover_at(player, n - 1)))
    }
}

/// `plays` are legal moves made in turn from `g`, `player` first: each one
/// marks an empty cell of a board on which no line is complete yet.
pub open spec fn is_playout(g: Seq<CellState>, player: Player, plays: Seq<Pos>) -> bool {
    forall|k: int|
        0 <= k < plays.len() ==> !has_win(#[trigger] board_after(g, player, plays, k)) && empties(
            board_after(g, player, plays, k),
        ).contains(plays[k])
}

/// After `plays` the game has ended, and `r` names the owner of the complete
/// line if there is one (a full board with no line may go to either player).
pub open spec fn playout_result(g: Seq<CellState>, player: Player, plays: Seq<Pos>, r: Player) -> bool {
    let end = board_after(g, player, plays, plays.len() as int);
    &&& has_win(end) || full(end)
    &&& winner(end) matches Some(p) ==> r == p
}

/// Appending a move leaves the boards before it as they were.
pub proof fn lemma_board_after_push(g: Seq<CellState>, player: Player, plays: Seq<Pos>, x: Pos, n: int)
    requires
        0 <= n <= plays.len(),
    ensures
        board_after(g, player, plays.push(x), n) == board_after(g, player, plays, n),
    decreases n,
{
    if n > 0 {
        lemma_board_after_push(g, player, plays, x, n - 1);
        assert(plays.push(x)[n - 1] == plays[n - 1]);
    }
}

/// A playout from a board with no complete line, on which `player`'s mark in
/// the one empty cell left would complete a line, is won by `player`.
pub proof fn lemma_last_cell_playout(g: Seq<CellState>, player: Player, plays: Seq<Pos>, r: Player)
    requires
        g.len() == 27,
        !has_win(g),
        empties(g).len() == 1,
        has_win(g.update(idx(empties(g)[0]), mark_of(player))),
        is_playout(g, player, plays),
        playout_result(g, player, plays, r),
    ensures
        r == player,
{
    lemma_empties(g);
    lemma_full_iff_no_empty_cells(g);
    assert(board_after(g, player, plays, 0) == g);
    assert(plays.len() > 0);
    let c = empties(g)[0];
    assert(empties(g).contains(plays[0]));
    assert(plays[0] == c);
    assert(empties(g).contains(c));
    lemma_lines_after_placement(g, c, mark_of(player));
    assert(board_after(g, player, plays, 1) == g.update(idx(c), mark_of(player)));
    if plays.len() > 1 {
        assert(!has_win(board_after(g, player, plays, 1)));
    }
}

/// A board is full exactly when it has no empty cell.
pub proof fn lemma_full_iff_no_empty_cells(g: Seq<CellState>)
    requires
        g.len() == 27,
    ensures
        full(g) <==> empties(g).len() == 0,
{
    lemma_empties_upto(g, 27);
}

/// The outcome is ongoing exactly when no line is complete and the board is
/// not full; it is won by the player that `winning_player` names, and drawn
/// on a full board with no complete line.
pub proof fn lemma_outcome(g: Seq<CellState>)
    ensures
        outcome(g) == GameOutcome::Ongoing <==> (winner(g).is_none() && !full(g)),
        outcome(g) == GameOutcome::Ongoing <==> (!has_win(g) && !full(g)),
        winner(g) matches Some(p) ==> outcome(g) == GameOutcome::Won(p),
        outcome(g) == GameOutcome::Drawn <==> (!has_win(g) && full(g)),
{
    lemma_winner_has_win(g);
}

/// The board on which exactly the cells of `s` hold the human's mark.
pub open spec fn marks_grid(s: Set<Pos>) -> Seq<CellState> {
    Seq::new(27, |n: int| if s.contains(pos_of(n)) { CellState::Human } else { CellState::Empty })
}

/// Three human marks and nothing else make a win exactly when they are the
/// cells of an entry of the line table, and then the human is the winner.
/// With the entries distinct, the winning sets of three cells are exactly 49.
pub proof fn lemma_three_marks_win(s: Set<Pos>)
    requires
        s.finite(),
        s.len() == 3,
        forall|p: Pos| #[trigger] s.contains(p) ==> in_cube(p),
    ensures
        has_win(marks_grid(s)) <==> exists|i: int| 0 <= i < 49 && #[trigger] line_set(i) == s,
        winner(marks_grid(s)) == (if has_win(marks_grid(s)) {
            Some(Player::Human)
        } else {
            None
        }),
{
    let g = marks_grid(s);
    lemma_pos_idx();
    lemma_lines_in_cube();
    lemma_winning_lines();
    assert forall|p: Pos| #[trigger] in_cube(p) implies (at(g, p) == CellState::Human) == s.contains(p)
        && at(g, p) != CellState::AI by {
        assert(pos_of(idx(p)) == p);
    }
    assert forall|i: int| 0 <= i < 49 && #[trigger] line_won(g, i) implies line_set(i) == s && at(
        g,
        line_cell(i, 0),
    ) == CellState::Human by {
        assert(in_cube(line_cell(i, 0)) && in_cube(line_cell(i, 1)) && in_cube(line_cell(i, 2)));
        assert(line_set(i).subset_of(s));
        assert(line_cell(i, 0) != line_cell(i, 1));
        assert(line_cell(i, 1) != line_cell(i, 2));
        assert(line_cell(i, 0) != line_cell(i, 2));
        assert(line_set(i).len() == 3);
        vstd::set_lib::lemma_subset_equality(line_set(i), s);
    }
    assert forall|i: int| 0 <= i < 49 && #[trigger] line_set(i) == s implies line_won(g, i) by {
        assert(line_set(i).contains(line_cell(i, 0)));
        assert(line_set(i).contains(line_cell(i, 1)));
        assert(line_set(i).contains(line_cell(i, 2)));
        assert(in_cube(line_cell(i, 0)) && in_cube(line_cell(i, 1)) && in_cube(line_cell(i, 2)));
    }
    lemma_winner_has_win(g);
}

/// Whether no cell is empty.
pub fn is_full(board: &Board) -> (r: bool)
    ensures
        r == full(grid(*board)),
{
    let mut n: usize = 0;
    while n < 27
        invariant
            0 <= n <= 27,
            forall|m: int| 0 <= m < n ==> grid(*board)[m] != CellState::Empty,
        decreases 27 - n,
    {
        if board[n / 9][(n / 3) % 3][n % 3] == CellState::Empty {
            assert(grid(*board)[n as int] == CellState::Empty);
            return false;
        }
        n = n + 1;
    }
    true
}

/// The empty cells, x outer, y middle, z inner.
pub fn empty_cells(board: &Board) -> (r: Vec<Pos>)
    ensures
        r@ == empties(grid(*board)),
{
    let mut r: Vec<Pos> = Vec::new();
    let mut n: usize = 0;
    proof {
        lemma_pos_idx();
    }
    while n < 27
        invariant
            0 <= n <= 27,
            r@ == empties_upto(grid(*board), n as int),
        decreases 27 - n,
    {
        let p: Pos = (n / 9, (n / 3) % 3, n % 3);
        assert(p == pos_of(n as int));
        if board[n / 9][(n / 3) % 3][n % 3] == CellState::Empty {
            r.push(p);
        }
        n = n + 1;
    }
    r
}

/// Won if some line is complete, else drawn if the board is full, else ongoing.
pub fn classify(board: &Board) -> (r: GameOutcome)
    ensures
        r == outcome(grid(*board)),
{
    match winning_player(board) {
        Some(p) => GameOutcome::Won(p),
        None => if is_full(board) {
            GameOutcome::Drawn
        } else {
            GameOutcome::Ongoing
        },
    }
}

} // verus!
