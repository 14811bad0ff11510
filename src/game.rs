//! A game in progress: the board, whose turn it is, and whether it is over.
use vstd::prelude::*;

use crate::ai::{MCTSAi, DEFAULT_SIMULATIONS};
use crate::board::{
    at, cell_at, empties, empty_cells, full, grid, has_win, idx, in_cube, is_full, lemma_lines_in_cube,
    lemma_lines_after_placement, lemma_pos_idx, lemma_winner_has_win, line_won, mark_of, other,
    owner_of, place,
    single_winner, winner, winning_player, Board, CellState, Player, Pos,
};
use crate::lines::line_cell;

verus! {

/// The state that the host shows and updates.
pub struct GameState {
    pub board: Board,
    pub current_player: Player,
    pub game_over: bool,
    pub winner: Option<Player>,
    pub ai: MCTSAi,
    /// A cell the host has highlighted; the rules never read it.
    pub selected_cube: Option<Pos>,
    /// The cell of the last accepted move.
    pub last_move: Option<Pos>,
}

pub open spec fn empty_grid() -> Seq<CellState> {
    Seq::new(27, |n: int| CellState::Empty)
}

impl GameState {
    /// The invariant of every state that the game's own operations produce:
    /// the cached flags agree with the board, and no two players both hold a line.
    pub open spec fn wf(&self) -> bool {
        let g = grid(self.board);
        &&& single_winner(g)
        &&& self.game_over == (has_win(g) || full(g))
        &&& self.winner == winner(g)
        &&& (self.winner matches Some(p) ==> p == self.current_player)
    }

    /// Whether some line is complete.
    pub fn check_winner(&self) -> (r: bool)
        ensures
            r == has_win(grid(self.board)),
    {
        winning_player(&self.board).is_some()
    }

    /// Whether no cell is empty.
    pub fn is_board_full(&self) -> (r: bool)
        ensures
            r == full(grid(self.board)),
    {
        is_full(&self.board)
    }

    /// The empty cells, x outer, y middle, z inner.
    pub fn get_empty_positions(&self) -> (r: Vec<Pos>)
        ensures
            r@ == empties(grid(self.board)),
    {
        empty_cells(&self.board)
    }

    /// Plays the current player's mark at (x, y, z).
    ///
    /// Refused, with nothing changed, when the game is over or the cell is
    /// taken. Otherwise the move is recorded, the game ends on a completed
    /// line or a full board, and the turn passes only while the game goes on.
    pub fn make_move(&mut self, x: usize, y: usize, z: usize) -> (r: bool)
        requires
            x < 3,
            y < 3,
            z < 3,
        ensures
            r == (!old(self).game_over && at(grid(old(self).board), (x, y, z)) == CellState::Empty),
            !r ==> *final(self) == *old(self),
            r ==> ({
                let g = grid(old(self).board).update(idx((x, y, z)), mark_of(old(self).current_player));
                let over = has_win(g) || full(g);
                &&& grid(final(self).board) == g
                &&& final(self).last_move == Some((x, y, z))
                &&& final(self).selected_cube == old(self).selected_cube
                &&& final(self).ai == old(self).ai
                &&& final(self).game_over == over
                &&& final(self).winner == (if has_win(g) {
                    Some(old(self).current_player)
                } else if full(g) {
                    None
                } else {
                    old(self).winner
                })
                &&& final(self).current_player == (if over {
                    old(self).current_player
                } else {
                    other(old(self).current_player)
                })
            }),
            old(self).wf() ==> final(self).wf(),
    {
        if self.game_over || cell_at(&self.board, (x, y, z)) != CellState::Empty {
            return false;
        }
        let ghost g0 = grid(self.board);
        let mark = match self.current_player {
            Player::Human => CellState::Human,
            Player::AI => CellState::AI,
        };
        place(&mut self.board, (x, y, z), mark);
        self.last_move = Some((x, y, z));
        let won = self.check_winner();

        if won {
            self.game_over = true;
            self.winner = Some(self.current_player);
        } else if self.is_board_full() {
            self.game_over = true;
            self.winner = None;
        } else {
            self.current_player = match self.current_player {
                Player::Human => Player::AI,
                Player::AI => Player::Human,
            };
        }
        proof {
            if old(self).wf() {
                lemma_lines_after_placement(g0, (x, y, z), mark);
            }
        }
        true
    }

    /// Starts a new game: an empty board, the human to move.
    pub fn reset(&mut self)
        ensures
            grid(final(self).board) == empty_grid(),
            final(self).current_player == Player::Human,
            !final(self).game_over,
            final(self).winner.is_none(),
            final(self).selected_cube.is_none(),
            final(self).last_move.is_none(),
            final(self).ai == old(self).ai,
            final(self).wf(),
    {
        self.board = [[[CellState::Empty; 3]; 3]; 3];
        self.current_player = Player::Human;
        self.game_over = false;
        self.winner = None;
        self.selected_cube = None;
        self.last_move = None;
        proof {
            lemma_empty_grid_state(self.board);
        }
    }
}

proof fn lemma_empty_grid_state(b: Board)
    requires
        forall|i: int, j: int, k: int|
            0 <= i < 3 && 0 <= j < 3 && 0 <= k < 3 ==> #[trigger] b[i][j][k] == CellState::Empty,
    ensures
        grid(b) == empty_grid(),
        !has_win(empty_grid()),
        !full(empty_grid()),
        single_winner(empty_grid()),
        winner(empty_grid()).is_none(),
{
    assert(grid(b) =~= empty_grid());
    lemma_winner_has_win(empty_grid());
    assert(empty_grid()[0] == CellState::Empty);
}

/// In every state that the game's own operations produce (a fresh game, a
/// reset, and accepted moves from there), at most one player holds a
/// complete line, and the recorded winner is that player.
pub proof fn lemma_at_most_one_winner(s: GameState)
    requires
        s.wf(),
    ensures
        forall|i: int, j: int|
            0 <= i < 49 && 0 <= j < 49 && #[trigger] line_won(grid(s.board), i) && #[trigger] line_won(
                grid(s.board),
                j,
            ) ==> owner_of(at(grid(s.board), line_cell(i, 0))) == owner_of(at(grid(s.board), line_cell(j, 0))),
        s.winner == winner(grid(s.board)),
        s.winner matches Some(p) ==> forall|i: int|
            0 <= i < 49 && #[trigger] line_won(grid(s.board), i) ==> owner_of(at(grid(s.board), line_cell(i, 0))) == p,
{
    let g = grid(s.board);
    lemma_winner_has_win(g);
    if let Some(p) = s.winner {
        let j = choose|j: int|
            0 <= j < 49 && #[trigger] line_won(g, j) && owner_of(at(g, line_cell(j, 0))) == p;
        assert forall|i: int| 0 <= i < 49 && #[trigger] line_won(g, i) implies owner_of(at(g, line_cell(i, 0))) == p by {
            assert(line_won(g, j));
        }
    }
}

impl Default for GameState {
    /// A fresh game: an empty board, the human to move, the default computer player.
    fn default() -> (r: Self)
        ensures
            grid(r.board) == empty_grid(),
            r.current_player == Player::Human,
            !r.game_over,
            r.winner.is_none(),
            r.ai.simulations == DEFAULT_SIMULATIONS,
            r.selected_cube.is_none(),
            r.last_move.is_none(),
            r.wf(),
    {
        let r = GameState {
            board: [[[CellState::Empty; 3]; 3]; 3],
            current_player: Player::Human,
            game_over: false,
            winner: None,
            ai: MCTSAi::new(),
            selected_cube: None,
            last_move: None,
        };
        proof {
            lemma_empty_grid_state(r.board);
        }
        r
    }
}

} // verus!
