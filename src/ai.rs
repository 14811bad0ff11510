//! The computer player: tactical checks first, then rollouts blended with a
//! static value of each cell.
//!
//! Scores are kept in whole numbers. A cell's static value is counted in units
//! of 1/300 and its rollout average is scaled by the same factor, so that
//! candidates can be ranked exactly.
use vstd::prelude::*;

use rand::rngs::StdRng;

use crate::board::{
    at, board_after, cell_at, empties, empty_cells, grid, has_win, idx, in_cube, is_playout,
    lemma_board_after_push, lemma_empties, lemma_fill_shrinks_empties,
    lemma_full_iff_no_empty_cells, lemma_lines_after_placement, lemma_lines_in_cube,
    lemma_winner_has_win, mark_of, mover_at, other, place, playout_result, same_pos, winner,
    winning_player, Board, CellState, Player, Pos,
};
use crate::chance::{draw_below, draw_ratio};
use crate::game::GameState;
use crate::lines::{covers, line_cell, winning_line, LINE_COUNT};
use crate::tree::MCTSNode;

verus! {

/// Rollout budget used by `MCTSAi::new`.
pub const DEFAULT_SIMULATIONS: u32 = 2000;

/// Move selection for the computer player.
#[derive(Clone, Copy, Debug, PartialEq, Eq, Structural)]
pub struct MCTSAi {
    /// Total number of rollouts for one decision, shared evenly by the candidate cells.
    pub simulations: u32,
}

/// The first cell of `moves`, from index `i` on, where `m` placed on `g`
/// leaves some line complete.
pub open spec fn completing_from(g: Seq<CellState>, moves: Seq<Pos>, m: CellState, i: int) -> Option<Pos>
    decreases moves.len() - i,
{
    if i < 0 || i >= moves.len() {
        None
    } else if has_win(g.update(idx(moves[i]), m)) {
        Some(moves[i])
    } else {
        completing_from(g, moves, m, i + 1)
    }
}

/// The first empty cell, in enumeration order, where `m` would complete a line.
pub open spec fn completing_move(g: Seq<CellState>, m: CellState) -> Option<Pos> {
    completing_from(g, empties(g), m, 0)
}

pub open spec fn axis_gap(v: usize) -> int {
    if v == 1 {
        0
    } else {
        1
    }
}

/// Steps from the centre cell, one per coordinate that is not 1 (0 to 3).
pub open spec fn center_distance(p: Pos) -> int {
    axis_gap(p.0) + axis_gap(p.1) + axis_gap(p.2)
}

pub open spec fn is_corner(p: Pos) -> bool {
    p.0 != 1 && p.1 != 1 && p.2 != 1
}

/// Closeness to the centre, 10 per step nearer than a corner, plus 15 for a
/// corner: in units of 1/300 this is 0.1 times the closeness normalised to
/// [0, 1], plus 0.05 for a corner.
pub open spec fn placement_value(p: Pos) -> int {
    10 * (3 - center_distance(p)) + if is_corner(p) {
        15int
    } else {
        0int
    }
}

/// How many cells of line `i` hold `m`.
pub open spec fn count_on_line(g: Seq<CellState>, i: int, m: CellState) -> int {
    (if at(g, line_cell(i, 0)) == m { 1int } else { 0 }) + (if at(g, line_cell(i, 1)) == m {
        1int
    } else {
        0
    }) + (if at(g, line_cell(i, 2)) == m { 1int } else { 0 })
}

/// What line `i` adds to the potential of `p`: nothing unless it runs through
/// `p` and holds no human mark, else one plus the computer's marks on it.
pub open spec fn line_potential(g: Seq<CellState>, i: int, p: Pos) -> int {
    if covers(i, p) && count_on_line(g, i, CellState::Human) == 0 {
        1 + count_on_line(g, i, CellState::AI)
    } else {
        0
    }
}

pub open spec fn potential_upto(g: Seq<CellState>, p: Pos, n: int) -> int
    decreases n,
{
    if n <= 0 {
        0
    } else {
        potential_upto(g, p, n - 1) + line_potential(g, n - 1, p)
    }
}

/// The line potential of `p`, summed over all winning lines.
pub open spec fn potential(g: Seq<CellState>, p: Pos) -> int {
    potential_upto(g, p, 49)
}

/// The static value of playing `p`, in units of 1/300: the placement value
/// plus 6 (that is 0.02) for each unit of line potential.
pub open spec fn position_value(g: Seq<CellState>, p: Pos) -> int {
    placement_value(p) + 6 * potential(g, p)
}

/// In the ranking of rollout candidates, `moves[i]` comes before `moves[j]`:
/// a higher placement value first, and among equal values the earlier one.
pub open spec fn ranks_before(moves: Seq<Pos>, i: int, j: int) -> bool {
    placement_value(moves[i]) > placement_value(moves[j]) || (placement_value(moves[i])
        == placement_value(moves[j]) && i < j)
}

/// `top` indexes the best three of `moves` (all of them if fewer), best first:
/// the first entries of `moves` sorted by falling placement value, ties kept
/// in their original order.
pub open spec fn is_top_three(moves: Seq<Pos>, top: Seq<usize>) -> bool {
    &&& top.len() == if moves.len() < 3 {
        moves.len()
    } else {
        3
    }
    &&& forall|a: int| 0 <= a < top.len() ==> #[trigger] top[a] < moves.len()
    &&& forall|a: int, b: int|
        0 <= a < b < top.len() ==> ranks_before(moves, #[trigger] top[a] as int, #[trigger] top[b] as int)
    &&& forall|a: int, j: int|
        0 <= a < top.len() && 0 <= j < moves.len() && !top.contains(j as usize) ==> #[trigger] ranks_before(
            moves,
            top[a] as int,
            j,
        )
}

/// The move a rollout plays: a winning cell for `player` if there is one,
/// else a cell that blocks the opponent's win, else `moves[pick]` among all
/// moves, or, when `smart`, the `pick`-th of the best three.
pub open spec fn rollout_move(
    g: Seq<CellState>,
    moves: Seq<Pos>,
    player: Player,
    smart: bool,
    pick: int,
    top: Seq<usize>,
) -> Pos {
    match completing_from(g, moves, mark_of(player), 0) {
        Some(w) => w,
        None => match completing_from(g, moves, mark_of(other(player)), 0) {
            Some(b) => b,
            None => if smart {
                moves[top[pick] as int]
            } else {
                moves[pick]
            },
        },
    }
}

proof fn lemma_completing_from_member(g: Seq<CellState>, moves: Seq<Pos>, m: CellState, i: int)
    requires
        0 <= i,
    ensures
        completing_from(g, moves, m, i) matches Some(p) ==> moves.contains(p),
    decreases moves.len() - i,
{
    if i < moves.len() {
        lemma_completing_from_member(g, moves, m, i + 1);
    }
}

proof fn lemma_completing_from(g: Seq<CellState>, moves: Seq<Pos>, m: CellState, i: int)
    requires
        0 <= i <= moves.len(),
    ensures
        completing_from(g, moves, m, i) is Some <==> exists|k: int|
            i <= k < moves.len() && #[trigger] has_win(g.update(idx(moves[k]), m)),
        completing_from(g, moves, m, i) matches Some(p) ==> exists|k: int|
            i <= k < moves.len() && moves[k] == p && #[trigger] has_win(g.update(idx(moves[k]), m))
                && forall|l: int| i <= l < k ==> !#[trigger] has_win(g.update(idx(moves[l]), m)),
    decreases moves.len() - i,
{
    if i < moves.len() {
        lemma_completing_from(g, moves, m, i + 1);
        if !has_win(g.update(idx(moves[i]), m)) {
            if let Some(p) = completing_from(g, moves, m, i + 1) {
                let k = choose|k: int|
                    i + 1 <= k < moves.len() && moves[k] == p && #[trigger] has_win(g.update(idx(moves[k]), m))
                        && forall|l: int| i + 1 <= l < k ==> !#[trigger] has_win(g.update(idx(moves[l]), m));
                assert forall|l: int| i <= l < k implies !#[trigger] has_win(g.update(idx(moves[l]), m)) by {}
            }
        }
    }
}

/// The completing move is the first empty cell, in enumeration order, where
/// mark `m` leaves a line complete; there is one exactly when some empty cell
/// does so.
pub proof fn lemma_completing_move(g: Seq<CellState>, m: CellState)
    ensures
        completing_move(g, m) is Some <==> exists|k: int|
            0 <= k < empties(g).len() && #[trigger] has_win(g.update(idx(empties(g)[k]), m)),
        completing_move(g, m) matches Some(p) ==> exists|k: int|
            0 <= k < empties(g).len() && empties(g)[k] == p && #[trigger] has_win(
                g.update(idx(empties(g)[k]), m),
            ) && forall|l: int| 0 <= l < k ==> !#[trigger] has_win(g.update(idx(empties(g)[l]), m)),
{
    lemma_completing_from(g, empties(g), m, 0);
}

/// When exactly one empty cell completes a line for mark `m`, that cell is
/// the completing move: a single threat is always the cell played.
pub proof fn lemma_sole_completing_cell(g: Seq<CellState>, m: CellState, c: Pos)
    requires
        g.len() == 27,
        empties(g).contains(c),
        has_win(g.update(idx(c), m)),
        forall|q: Pos| #[trigger] empties(g).contains(q) && q != c ==> !has_win(g.update(idx(q), m)),
    ensures
        completing_move(g, m) == Some(c),
{
    lemma_completing_move(g, m);
    let k = choose|k: int| 0 <= k < empties(g).len() && #[trigger] empties(g)[k] == c;
    assert(has_win(g.update(idx(empties(g)[k]), m)));
    let p = completing_move(g, m).unwrap();
    let j = choose|j: int|
        0 <= j < empties(g).len() && empties(g)[j] == p && #[trigger] has_win(g.update(idx(empties(g)[j]), m))
            && forall|l: int| 0 <= l < j ==> !#[trigger] has_win(g.update(idx(empties(g)[l]), m));
    assert(empties(g).contains(empties(g)[j]));
}

/// `mv` is a move that the rollout policy can play on `b` with `mover` to
/// move, for some draw of `smart` and `pick`.
pub open spec fn is_policy_move(b: Seq<CellState>, mover: Player, mv: Pos) -> bool {
    exists|smart: bool, pick: int, top: Seq<usize>|
        is_top_three(empties(b), top) && 0 <= pick < empties(b).len() && (smart ==> pick < 3) && mv
            == #[trigger] rollout_move(b, empties(b), mover, smart, pick, top)
}

/// `plays` is a playout from `g`, `player` first, in which every move is one
/// that the rollout policy can play.
pub open spec fn is_policy_playout(g: Seq<CellState>, player: Player, plays: Seq<Pos>) -> bool {
    &&& is_playout(g, player, plays)
    &&& forall|k: int|
        0 <= k < plays.len() ==> is_policy_move(
            #[trigger] board_after(g, player, plays, k),
            mover_at(player, k),
            plays[k],
        )
}

/// A rollout from a board with no complete line, on which the player to move
/// can complete one, is won by that player: the policy plays the win first.
pub proof fn lemma_rollout_takes_win(g: Seq<CellState>, player: Player, plays: Seq<Pos>, r: Player)
    requires
        g.len() == 27,
        !has_win(g),
        completing_move(g, mark_of(player)) is Some,
        is_policy_playout(g, player, plays),
        playout_result(g, player, plays, r),
    ensures
        r == player,
{
    let m = mark_of(player);
    let w = completing_move(g, m).unwrap();
    lemma_completing_move(g, m);
    lemma_completing_from_member(g, empties(g), m, 0);
    lemma_empties(g);
    lemma_full_iff_no_empty_cells(g);
    assert(empties(g).contains(w));
    assert(board_after(g, player, plays, 0) == g);
    assert(plays.len() > 0);
    assert(is_policy_move(board_after(g, player, plays, 0), mover_at(player, 0), plays[0]));
    let (smart, pick, top) = choose|smart: bool, pick: int, top: Seq<usize>|
        is_top_three(empties(g), top) && 0 <= pick < empties(g).len() && (smart ==> pick < 3) && plays[0]
            == #[trigger] rollout_move(g, empties(g), player, smart, pick, top);
    assert(plays[0] == w);
    lemma_lines_after_placement(g, w, m);
    assert(board_after(g, player, plays, 1) == g.update(idx(w), m));
    if plays.len() > 1 {
        assert(!has_win(board_after(g, player, plays, 1)));
    }
}

fn contains_index(v: &Vec<usize>, j: usize) -> (r: bool)
    ensures
        r == v@.contains(j),
{
    let mut k: usize = 0;
    while k < v.len()
        invariant
            0 <= k <= v.len(),
            forall|a: int| 0 <= a < k ==> v@[a] != j,
        decreases v.len() - k,
    {
        if v[k] == j {
            return true;
        }
        k = k + 1;
    }
    false
}

fn ranks_before_exec(moves: &Vec<Pos>, i: usize, j: usize) -> (r: bool)
    requires
        i < moves.len(),
        j < moves.len(),
    ensures
        r == ranks_before(moves@, i as int, j as int),
{
    let a = placement_score(moves[i]);
    let b = placement_score(moves[j]);
    a > b || (a == b && i < j)
}

/// Indices of the best three moves by placement value, best first.
pub fn top_three(moves: &Vec<Pos>) -> (top: Vec<usize>)
    ensures
        is_top_three(moves@, top@),
{
    let n = moves.len();
    let m: usize = if n < 3 {
        n
    } else {
        3
    };
    let mut top: Vec<usize> = Vec::new();
    while top.len() < m
        invariant
            n == moves.len(),
            m == (if n < 3 {
                n
            } else {
                3
            }),
            top.len() <= m,
            forall|a: int| 0 <= a < top.len() ==> #[trigger] top@[a] < n,
            forall|a: int, b: int|
                0 <= a < b < top.len() ==> ranks_before(moves@, #[trigger] top@[a] as int, #[trigger] top@[b] as int),
            forall|a: int, j: int|
                0 <= a < top.len() && 0 <= j < n && !top@.contains(j as usize) ==> #[trigger] ranks_before(
                    moves@,
                    top@[a] as int,
                    j,
                ),
        decreases m - top.len(),
    {
        let mut best: usize = n;
        let mut j: usize = 0;
        while j < n
            invariant
                n == moves.len(),
                0 <= j <= n,
                best == n || (best < n && !top@.contains(best)),
                best == n ==> forall|i: usize| i < j ==> #[trigger] top@.contains(i),
                best < n ==> forall|i: usize|
                    i < j && !#[trigger] top@.contains(i) && i != best ==> ranks_before(
                        moves@,
                        best as int,
                        i as int,
                    ),
            decreases n - j,
        {
            if !contains_index(&top, j) && (best == n || ranks_before_exec(moves, j, best)) {
                best = j;
            }
            j = j + 1;
        }
        proof {
            if best == n {
                assert(top@.contains(0));
                if top.len() >= 1 {
                    assert(top@.contains(1));
                }
                if top.len() >= 2 {
                    assert(top@.contains(2));
                }
                assert(forall|a: int, b: int| 0 <= a < b < top.len() ==> top@[a] != top@[b]);
            }
        }
        let ghost old_top = top@;
        top.push(best);
        proof {
            assert forall|a: int, j: int|
                0 <= a < top.len() && 0 <= j < n && !top@.contains(j as usize) implies #[trigger] ranks_before(
                moves@,
                top@[a] as int,
                j,
            ) by {
                if old_top.contains(j as usize) {
                    let k = choose|k: int| 0 <= k < old_top.len() && #[trigger] old_top[k] == j as usize;
                    assert(top@[k] == j as usize);
                }
                if a == old_top.len() {
                    assert(top@[a] == best);
                    assert(j != best);
                } else {
                    assert(top@[a] == old_top[a]);
                }
            }
            assert forall|a: int, b: int| 0 <= a < b < top.len() implies ranks_before(
                moves@,
                #[trigger] top@[a] as int,
                #[trigger] top@[b] as int,
            ) by {
                assert(top@[a] == old_top[a]);
                if b == old_top.len() {
                    assert(top@[b] == best);
                } else {
                    assert(top@[b] == old_top[b]);
                }
            }
        }
    }
    top
}

/// The first cell of `moves` where `player`'s mark would leave a line complete.
pub fn find_completing_move(board: &Board, moves: &Vec<Pos>, player: Player) -> (r: Option<Pos>)
    requires
        forall|k: int| 0 <= k < moves.len() ==> in_cube(#[trigger] moves@[k]),
    ensures
        r == completing_from(grid(*board), moves@, mark_of(player), 0),
{
    let mark = match player {
        Player::Human => CellState::Human,
        Player::AI => CellState::AI,
    };
    let mut i: usize = 0;
    while i < moves.len()
        invariant
            0 <= i <= moves.len(),
            forall|k: int| 0 <= k < moves.len() ==> in_cube(#[trigger] moves@[k]),
            mark == mark_of(player),
            completing_from(grid(*board), moves@, mark, i as int) == completing_from(
                grid(*board),
                moves@,
                mark,
                0,
            ),
        decreases moves.len() - i,
    {
        let mut test_state = *board;
        place(&mut test_state, moves[i], mark);
        if winning_player(&test_state).is_some() {
            return Some(moves[i]);
        }
        i = i + 1;
    }
    None
}

fn gap(v: usize) -> (r: u32)
    ensures
        r == axis_gap(v),
{
    if v == 1 {
        0
    } else {
        1
    }
}

/// Placement value of a cell: centre closeness and the corner bonus.
pub fn placement_score(p: Pos) -> (r: u32)
    ensures
        r == placement_value(p),
        r <= 45,
{
    let d = gap(p.0) + gap(p.1) + gap(p.2);
    let corner: u32 = if p.0 != 1 && p.1 != 1 && p.2 != 1 {
        15
    } else {
        0
    };
    10 * (3 - d) + corner
}

/// Rollouts for each candidate cell: the budget shared evenly, rounded down,
/// and never fewer than one.
pub open spec fn rollout_share(budget: int, candidates: int) -> int {
    if budget / candidates == 0 {
        1
    } else {
        budget / candidates
    }
}

/// Budget share of each of `candidates` cells, at least one rollout each.
pub fn rollouts_per_candidate(budget: u32, candidates: usize) -> (r: u32)
    requires
        candidates > 0,
    ensures
        r == rollout_share(budget as int, candidates as int),
        1 <= r,
        r <= budget || budget == 0,
{
    let share = (budget as usize) / candidates;
    if share == 0 {
        1
    } else {
        share as u32
    }
}

/// The rank of candidate `j` in units of 1/300 scaled by `sims`: its rollout
/// total (300 times the average, times `sims`) plus `sims` times its static
/// value.
pub open spec fn candidate_key(
    g: Seq<CellState>,
    candidates: Seq<Pos>,
    totals: Seq<i64>,
    sims: int,
    j: int,
) -> int {
    300 * totals[j] + sims * position_value(g, candidates[j])
}

/// `r` is the first candidate with the highest key.
pub open spec fn is_best_candidate(
    g: Seq<CellState>,
    candidates: Seq<Pos>,
    totals: Seq<i64>,
    sims: int,
    r: int,
) -> bool {
    &&& 0 <= r < candidates.len()
    &&& forall|j: int|
        0 <= j < r ==> #[trigger] candidate_key(g, candidates, totals, sims, j) < candidate_key(
            g,
            candidates,
            totals,
            sims,
            r,
        )
    &&& forall|j: int|
        r < j < candidates.len() ==> #[trigger] candidate_key(g, candidates, totals, sims, j)
            <= candidate_key(g, candidates, totals, sims, r)
}

/// Rollout totals that `sims` rollouts per candidate can give from `g`: each
/// rollout adds one or takes one away, a candidate that completes a line for
/// the computer gains every rollout, and one after which the human can
/// complete a line loses every rollout.
pub open spec fn totals_possible(g: Seq<CellState>, candidates: Seq<Pos>, totals: Seq<i64>, sims: int) -> bool {
    &&& totals.len() == candidates.len()
    &&& forall|j: int|
        0 <= j < candidates.len() ==> -sims <= #[trigger] totals[j] <= sims && (totals[j] + sims) % 2 == 0
            && (winner(g.update(idx(candidates[j]), CellState::AI)) == Some(Player::AI) ==> totals[j] == sims)
            && (winner(g.update(idx(candidates[j]), CellState::AI)).is_none() && completing_move(
            g.update(idx(candidates[j]), CellState::AI),
            CellState::Human,
        ) is Some ==> totals[j] == -sims)
}

impl MCTSAi {
    pub fn new() -> (r: Self)
        ensures
            r.simulations == DEFAULT_SIMULATIONS,
    {
        MCTSAi { simulations: DEFAULT_SIMULATIONS }
    }

    /// The first empty cell where `player` would complete a line, if any.
    pub fn find_winning_move(&self, game_state: &GameState, player: Player) -> (r: Option<Pos>)
        ensures
            r == completing_move(grid(game_state.board), mark_of(player)),
    {
        let moves = game_state.get_empty_positions();
        proof {
            lemma_empties(grid(game_state.board));
            assert forall|k: int| 0 <= k < moves.len() implies in_cube(#[trigger] moves@[k]) by {
                assert(moves@.contains(moves@[k]));
            }
        }
        find_completing_move(&game_state.board, &moves, player)
    }

    /// Line potential of (x, y, z): over the winning lines through it that
    /// hold no human mark, one plus the computer's marks on the line.
    pub fn count_potential_lines(&self, x: usize, y: usize, z: usize, game_state: &GameState) -> (r: u32)
        requires
            x < 3,
            y < 3,
            z < 3,
        ensures
            r == potential(grid(game_state.board), (x, y, z)),
            r <= 4 * LINE_COUNT,
    {
        let ghost g = grid(game_state.board);
        let p: Pos = (x, y, z);
        let mut count: u32 = 0;
        let mut i: usize = 0;
        proof {
            lemma_lines_in_cube();
        }
        while i < LINE_COUNT
            invariant
                0 <= i <= 49,
                g == grid(game_state.board),
                p == (x, y, z),
                count == potential_upto(g, p, i as int),
                count <= 4 * i,
            decreases 49 - i,
        {
            let line = winning_line(i);
            assert(in_cube(line[0]) && in_cube(line[1]) && in_cube(line[2]));
            if same_pos(line[0], p) || same_pos(line[1], p) || same_pos(line[2], p) {
                let mut ai_count: u32 = 0;
                let mut human_count: u32 = 0;
                let mut k: usize = 0;
                while k < 3
                    invariant
                        0 <= k <= 3,
                        in_cube(line[0]) && in_cube(line[1]) && in_cube(line[2]),
                        ai_count + human_count <= k,
                        forall|j: int| 0 <= j < 3 ==> line[j] == line_cell(i as int, j),
                        g == grid(game_state.board),
                        ai_count == (if k > 0 && at(g, line_cell(i as int, 0)) == CellState::AI { 1int } else { 0 })
                            + (if k > 1 && at(g, line_cell(i as int, 1)) == CellState::AI { 1int } else { 0 })
                            + (if k > 2 && at(g, line_cell(i as int, 2)) == CellState::AI { 1int } else { 0 }),
                        human_count == (if k > 0 && at(g, line_cell(i as int, 0)) == CellState::Human { 1int } else { 0 })
                            + (if k > 1 && at(g, line_cell(i as int, 1)) == CellState::Human { 1int } else { 0 })
                            + (if k > 2 && at(g, line_cell(i as int, 2)) == CellState::Human { 1int } else { 0 }),
                    decreases 3 - k,
                {
                    match cell_at(&game_state.board, line[k]) {
                        CellState::AI => ai_count = ai_count + 1,
                        CellState::Human => human_count = human_count + 1,
                        CellState::Empty => {},
                    }
                    k = k + 1;
                }
                if human_count == 0 {
                    count = count + 1 + ai_count;
                }
            }
            i = i + 1;
        }
        count
    }

    /// The move a rollout plays from `state`, where `moves` are its empty
    /// cells: a win for `player`, else a block of the opponent's win, else
    /// `moves[pick]`, or, when `smart`, the `pick`-th of the best three.
    pub fn choose_smart_move(
        &self,
        state: &Board,
        player: Player,
        moves: &Vec<Pos>,
        smart: bool,
        pick: usize,
    ) -> (r: Pos)
        requires
            moves@ == empties(grid(*state)),
            pick < moves.len(),
            smart ==> pick < 3,
        ensures
            moves@.contains(r),
            exists|top: Seq<usize>|
                is_top_three(moves@, top) && r == rollout_move(
                    grid(*state),
                    moves@,
                    player,
                    smart,
                    pick as int,
                    top,
                ),
    {
        proof {
            lemma_empties(grid(*state));
            assert forall|k: int| 0 <= k < moves.len() implies in_cube(#[trigger] moves@[k]) by {
                assert(moves@.contains(moves@[k]));
            }
            lemma_completing_from_member(grid(*state), moves@, mark_of(player), 0);
            lemma_completing_from_member(grid(*state), moves@, mark_of(other(player)), 0);
        }
        let top = top_three(moves);
        let opponent = match player {
            Player::AI => Player::Human,
            Player::Human => Player::AI,
        };
        let r = match find_completing_move(state, moves, player) {
            Some(w) => w,
            None => match find_completing_move(state, moves, opponent) {
                Some(b) => b,
                None => if smart {
                    moves[top[pick]]
                } else {
                    moves[pick]
                },
            },
        };
        assert(r == rollout_move(grid(*state), moves@, player, smart, pick as int, top@));
        r
    }

    /// Plays `state` out to the end with the rollout policy, `current_player`
    /// to move first, and names the winner. A game that ends full with no
    /// line is given to either player by a fair coin.
    ///
    /// Whatever the draws, the result is that of some playout in which every
    /// move is one the policy can play; so a won position goes to its winner,
    /// and a position where the player to move can complete a line goes to
    /// that player.
    pub fn simulate_smart_game(&self, state: Board, current_player: Player, rng: &mut StdRng) -> (r: Player)
        ensures
            exists|plays: Seq<Pos>|
                is_policy_playout(grid(state), current_player, plays) && playout_result(
                    grid(state),
                    current_player,
                    plays,
                    r,
                ),
            winner(grid(state)) matches Some(p) ==> r == p,
            winner(grid(state)).is_none() && completing_move(grid(state), mark_of(current_player)) is Some
                ==> r == current_player,
    {
        let ghost g0 = grid(state);
        let ghost p0 = current_player;
        let ghost mut plays: Seq<Pos> = Seq::empty();
        let mut board = state;
        let mut current_player = current_player;
        let mut r = Player::Human;
        loop
            invariant
                g0 == grid(state),
                is_policy_playout(g0, p0, plays),
                grid(board) == board_after(g0, p0, plays, plays.len() as int),
                current_player == mover_at(p0, plays.len() as int),
            ensures
                is_policy_playout(g0, p0, plays),
                playout_result(g0, p0, plays, r),
            decreases empties(grid(board)).len(),
        {
            if let Some(w) = winning_player(&board) {
                proof {
                    lemma_winner_has_win(grid(board));
                }
                r = w;
                break;
            }
            let moves = empty_cells(&board);
            if moves.len() == 0 {
                proof {
                    lemma_full_iff_no_empty_cells(grid(board));
                }
                r = if draw_ratio(rng, 1, 2) {
                    Player::Human
                } else {
                    Player::AI
                };
                break;
            }
            let smart = draw_ratio(rng, 7, 10);
            let bound = if smart && moves.len() > 3 {
                3
            } else {
                moves.len()
            };
            let pick = draw_below(rng, bound);
            let mv = self.choose_smart_move(&board, current_player, &moves, smart, pick);
            let mark = match current_player {
                Player::Human => CellState::Human,
                Player::AI => CellState::AI,
            };
            proof {
                let b = grid(board);
                let top = choose|top: Seq<usize>|
                    is_top_three(moves@, top) && mv == rollout_move(b, moves@, current_player, smart, pick as int, top);
                assert(mv == rollout_move(b, empties(b), current_player, smart, pick as int, top));
                assert(is_policy_move(b, current_player, mv));
                lemma_empties(b);
                lemma_fill_shrinks_empties(b, mv, mark);
            }
            place(&mut board, mv, mark);
            proof {
                let old_plays = plays;
                plays = plays.push(mv);
                assert forall|k: int| 0 <= k <= old_plays.len() implies #[trigger] board_after(g0, p0, plays, k)
                    == board_after(g0, p0, old_plays, k) by {
                    lemma_board_after_push(g0, p0, old_plays, mv, k);
                }
                assert forall|k: int| 0 <= k < plays.len() implies !has_win(
                    #[trigger] board_after(g0, p0, plays, k),
                ) && empties(board_after(g0, p0, plays, k)).contains(plays[k]) && is_policy_move(
                    board_after(g0, p0, plays, k),
                    mover_at(p0, k),
                    plays[k],
                ) by {
                    if k < old_plays.len() {
                        assert(board_after(g0, p0, old_plays, k) == board_after(g0, p0, plays, k));
                        assert(plays[k] == old_plays[k]);
                    }
                }
                assert(plays[old_plays.len() as int] == mv);
                assert(board_after(g0, p0, plays, old_plays.len() as int) == board_after(
                    g0,
                    p0,
                    old_plays,
                    old_plays.len() as int,
                ));
                assert(plays.len() == old_plays.len() + 1);
                assert(mark == mark_of(mover_at(p0, old_plays.len() as int)));
                assert(board_after(g0, p0, plays, plays.len() as int) == board_after(
                    g0,
                    p0,
                    old_plays,
                    old_plays.len() as int,
                ).update(idx(mv), mark));
            }
            current_player = match current_player {
                Player::Human => Player::AI,
                Player::AI => Player::Human,
            };
        }
        proof {
            lemma_winner_has_win(g0);
            if winner(g0) is Some {
                assert(board_after(g0, p0, plays, 0) == g0);
                if plays.len() > 0 {
                    assert(!has_win(board_after(g0, p0, plays, 0)));
                }
            }
            if winner(g0).is_none() && completing_move(g0, mark_of(p0)) is Some {
                lemma_rollout_takes_win(g0, p0, plays, r);
            }
        }
        r
    }

    /// Rollout totals of each candidate cell: with the computer's mark there
    /// and the human to move, each of `rollouts_per_candidate` rollouts adds
    /// one if the computer wins it and takes one away otherwise.
    pub fn score_candidates(&self, board: &Board, candidates: &Vec<Pos>, rng: &mut StdRng) -> (totals: Vec<i64>)
        requires
            candidates.len() > 0,
            forall|k: int| 0 <= k < candidates.len() ==> in_cube(#[trigger] candidates@[k]),
        ensures
            totals_possible(
                grid(*board),
                candidates@,
                totals@,
                rollout_share(self.simulations as int, candidates.len() as int),
            ),
    {
        let ghost g = grid(*board);
        let sims = rollouts_per_candidate(self.simulations, candidates.len());
        let mut totals: Vec<i64> = Vec::new();
        let mut c: usize = 0;
        while c < candidates.len()
            invariant
                0 <= c <= candidates.len(),
                g == grid(*board),
                forall|k: int| 0 <= k < candidates.len() ==> in_cube(#[trigger] candidates@[k]),
                sims == rollout_share(self.simulations as int, candidates.len() as int),
                totals_possible(g, candidates@.take(c as int), totals@, sims as int),
            decreases candidates.len() - c,
        {
            let ghost g1 = g.update(idx(candidates@[c as int]), CellState::AI);
            let mut total: i64 = 0;
            let mut s: u32 = 0;
            while s < sims
                invariant
                    0 <= s <= sims,
                    c < candidates.len(),
                    g == grid(*board),
                    g1 == g.update(idx(candidates@[c as int]), CellState::AI),
                    forall|k: int| 0 <= k < candidates.len() ==> in_cube(#[trigger] candidates@[k]),
                    -s <= total <= s,
                    (total + s) % 2 == 0,
                    winner(g1) == Some(Player::AI) ==> total == s,
                    winner(g1).is_none() && completing_move(g1, CellState::Human) is Some ==> total == -s,
                decreases sims - s,
            {
                let mut sim_state = *board;
                place(&mut sim_state, candidates[c], CellState::AI);
                let winner = self.simulate_smart_game(sim_state, Player::Human, rng);
                total = match winner {
                    Player::AI => total + 1,
                    Player::Human => total - 1,
                };
                s = s + 1;
            }
            let ghost before = totals@;
            totals.push(total);
            proof {
                let cs = candidates@.take(c as int + 1);
                assert forall|j: int| 0 <= j < cs.len() implies -sims <= #[trigger] totals@[j] <= sims && (
                totals@[j] + sims) % 2 == 0 && (winner(g.update(idx(cs[j]), CellState::AI)) == Some(
                    Player::AI,
                ) ==> totals@[j] == sims) && (winner(g.update(idx(cs[j]), CellState::AI)).is_none()
                    && completing_move(g.update(idx(cs[j]), CellState::AI), CellState::Human) is Some
                    ==> totals@[j] == -sims) by {
                    if j < c {
                        assert(totals@[j] == before[j]);
                        assert(cs[j] == candidates@.take(c as int)[j]);
                    } else {
                        assert(cs[j] == candidates@[c as int]);
                    }
                }
            }
            c = c + 1;
        }
        assert(candidates@.take(candidates.len() as int) =~= candidates@);
        totals
    }

    /// The index of the first candidate with the highest key: rollout total
    /// scaled by 300 plus `sims` times the static value of the cell.
    pub fn pick_best_candidate(
        &self,
        game_state: &GameState,
        candidates: &Vec<Pos>,
        totals: &Vec<i64>,
        sims: u32,
    ) -> (r: usize)
        requires
            candidates.len() > 0,
            totals.len() == candidates.len(),
            forall|k: int| 0 <= k < candidates.len() ==> in_cube(#[trigger] candidates@[k]),
            forall|k: int| 0 <= k < totals.len() ==> -u32::MAX <= #[trigger] totals@[k] <= u32::MAX,
        ensures
            is_best_candidate(grid(game_state.board), candidates@, totals@, sims as int, r as int),
    {
        let ghost g = grid(game_state.board);
        let mut best: usize = 0;
        let mut best_key: i64 = 0;
        let mut j: usize = 0;
        while j < candidates.len()
            invariant
                0 <= j <= candidates.len(),
                totals.len() == candidates.len(),
                g == grid(game_state.board),
                forall|k: int| 0 <= k < candidates.len() ==> in_cube(#[trigger] candidates@[k]),
                forall|k: int| 0 <= k < totals.len() ==> -u32::MAX <= #[trigger] totals@[k] <= u32::MAX,
                j == 0 ==> best == 0,
                j > 0 ==> best < j && best_key == candidate_key(g, candidates@, totals@, sims as int, best as int),
                forall|k: int|
                    0 <= k < best ==> #[trigger] candidate_key(g, candidates@, totals@, sims as int, k)
                        < candidate_key(g, candidates@, totals@, sims as int, best as int),
                forall|k: int|
                    best < k < j ==> #[trigger] candidate_key(g, candidates@, totals@, sims as int, k)
                        <= candidate_key(g, candidates@, totals@, sims as int, best as int),
            decreases candidates.len() - j,
        {
            let p = candidates[j];
            let value = self.evaluate_position(p.0, p.1, p.2, game_state);
            assert(0 <= value <= 1221);
            assert(0 <= sims as i64 * value as i64 <= 1221 * u32::MAX) by (nonlinear_arith)
                requires
                    0 <= value <= 1221,
                    0 <= sims <= u32::MAX,
            ;
            let key: i64 = 300 * totals[j] + (sims as i64) * (value as i64);
            if j == 0 || key > best_key {
                best = j;
                best_key = key;
            }
            j = j + 1;
        }
        best
    }

    /// The computer's move, or `None` when the game is over or no cell is free.
    ///
    /// A cell that completes a line for the computer comes first, then a cell
    /// that stops the human from completing one (each the first such in
    /// enumeration order). Otherwise every empty cell is scored by rollouts
    /// and static value, and the first with the highest key is played.
    pub fn get_best_move(&self, game_state: &GameState, rng: &mut StdRng) -> (r: Option<Pos>)
        ensures
            ({
                let g = grid(game_state.board);
                let cells = empties(g);
                &&& r.is_none() <==> (game_state.game_over || cells.len() == 0)
                &&& r matches Some(p) ==> cells.contains(p)
                &&& r is Some ==> match completing_move(g, CellState::AI) {
                    Some(w) => r == Some(w),
                    None => match completing_move(g, CellState::Human) {
                        Some(b) => r == Some(b),
                        None => exists|totals: Seq<i64>, k: int|
                            totals_possible(
                                g,
                                cells,
                                totals,
                                rollout_share(self.simulations as int, cells.len() as int),
                            ) && is_best_candidate(
                                g,
                                cells,
                                totals,
                                rollout_share(self.simulations as int, cells.len() as int),
                                k,
                            ) && r == Some(cells[k]),
                    },
                }
            }),
    {
        let ghost g = grid(game_state.board);
        if game_state.game_over {
            return None;
        }
        let empty_positions = game_state.get_empty_positions();
        if empty_positions.len() == 0 {
            return None;
        }
        proof {
            lemma_empties(g);
            assert forall|k: int| 0 <= k < empty_positions.len() implies in_cube(
                #[trigger] empty_positions@[k],
            ) by {
                assert(empty_positions@.contains(empty_positions@[k]));
            }
            lemma_completing_from_member(g, empty_positions@, CellState::AI, 0);
            lemma_completing_from_member(g, empty_positions@, CellState::Human, 0);
        }
        if let Some(winning_move) = self.find_winning_move(game_state, Player::AI) {
            return Some(winning_move);
        }
        if let Some(blocking_move) = self.find_winning_move(game_state, Player::Human) {
            return Some(blocking_move);
        }
        let totals = self.score_candidates(&game_state.board, &empty_positions, rng);
        let sims = rollouts_per_candidate(self.simulations, empty_positions.len());
        let best = self.pick_best_candidate(game_state, &empty_positions, &totals, sims);
        let r = empty_positions[best];
        assert(empty_positions@.contains(r));
        assert(is_best_candidate(g, empty_positions@, totals@, sims as int, best as int));
        Some(r)
    }

    /// Plays `state` out with uniformly random moves, `current_player` to
    /// move first, and names the winner; a full board with no line is given
    /// to either player by a fair coin.
    ///
    /// Whatever the draws, the result is that of some playout of legal moves.
    pub fn simulate_random_game(&self, state: Board, current_player: Player, rng: &mut StdRng) -> (r: Player)
        ensures
            exists|plays: Seq<Pos>|
                is_playout(grid(state), current_player, plays) && playout_result(
                    grid(state),
                    current_player,
                    plays,
                    r,
                ),
            winner(grid(state)) matches Some(p) ==> r == p,
            !has_win(grid(state)) && empties(grid(state)).len() == 1 && has_win(
                grid(state).update(idx(empties(grid(state))[0]), mark_of(current_player)),
            ) ==> r == current_player,
    {
        MCTSNode::new(state, current_player).simulate(rng)
    }

    /// Static value of playing (x, y, z), in units of 1/300.
    pub fn evaluate_position(&self, x: usize, y: usize, z: usize, game_state: &GameState) -> (r: u32)
        requires
            x < 3,
            y < 3,
            z < 3,
        ensures
            r == position_value(grid(game_state.board), (x, y, z)),
            r <= 1221,
    {
        placement_score((x, y, z)) + 6 * self.count_potential_lines(x, y, z, game_state)
    }
}

} // verus!
