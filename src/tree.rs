//! Nodes of a game tree for tree search: a position, the player to move, and
//! the visit and win counts gathered by playouts through it.
use vstd::prelude::*;

use rand::rngs::StdRng;

use crate::board::{
    board_after, empties, empty_cells, full, grid, has_win, idx, is_full, is_playout,
    lemma_board_after_push, lemma_empties, lemma_fill_shrinks_empties,
    lemma_full_iff_no_empty_cells, lemma_last_cell_playout, lemma_winner_has_win, mark_of,
    mover_at, other, place, playout_result, winner, winning_player, Board, CellState, Player, Pos,
};
use crate::chance::{draw_below, draw_ratio};

verus! {

pub struct MCTSNode {
    pub state: Board,
    pub current_player: Player,
    pub parent: Option<Box<MCTSNode>>,
    pub children: Vec<MCTSNode>,
    pub visits: u32,
    pub wins: u32,
    /// The move that led to this position.
    pub last_move: Option<Pos>,
}

impl MCTSNode {
    /// `c` is the fresh node reached from this one by a move at `p`.
    pub open spec fn is_child_for(&self, c: MCTSNode, p: Pos) -> bool {
        &&& grid(c.state) == grid(self.state).update(idx(p), mark_of(self.current_player))
        &&& c.current_player == other(self.current_player)
        &&& c.last_move == Some(p)
        &&& c.parent is None
        &&& c.children.len() == 0
        &&& c.visits == 0
        &&& c.wins == 0
    }

    /// A node with no parent, children or counts.
    pub fn new(state: Board, current_player: Player) -> (r: Self)
        ensures
            r.state == state,
            r.current_player == current_player,
            r.parent is None,
            r.children.len() == 0,
            r.visits == 0,
            r.wins == 0,
            r.last_move is None,
    {
        MCTSNode {
            state,
            current_player,
            parent: None,
            children: Vec::new(),
            visits: 0,
            wins: 0,
            last_move: None,
        }
    }

    /// Whether some line is complete or the board is full.
    pub fn is_terminal(&self) -> (r: bool)
        ensures
            r == (has_win(grid(self.state)) || full(grid(self.state))),
    {
        self.check_winner().is_some() || is_full(&self.state)
    }

    /// The owner of the first completed line, if any.
    pub fn check_winner(&self) -> (r: Option<Player>)
        ensures
            r == winner(grid(self.state)),
            r.is_some() == has_win(grid(self.state)),
    {
        winning_player(&self.state)
    }

    /// The empty cells, x outer, y middle, z inner.
    pub fn get_possible_moves(&self) -> (r: Vec<Pos>)
        ensures
            r@ == empties(grid(self.state)),
    {
        empty_cells(&self.state)
    }

    /// The node after the player to move marks (x, y, z).
    pub fn make_move(&self, x: usize, y: usize, z: usize) -> (r: MCTSNode)
        requires
            x < 3,
            y < 3,
            z < 3,
        ensures
            self.is_child_for(r, (x, y, z)),
    {
        let mut new_state = self.state;
        let mark = match self.current_player {
            Player::Human => CellState::Human,
            Player::AI => CellState::AI,
        };
        place(&mut new_state, (x, y, z), mark);
        let next_player = match self.current_player {
            Player::Human => Player::AI,
            Player::AI => Player::Human,
        };
        let mut node = MCTSNode::new(new_state, next_player);
        node.last_move = Some((x, y, z));
        node
    }

    /// Appends one child for each empty cell, in enumeration order.
    pub fn expand(&mut self)
        ensures
            final(self).state == old(self).state,
            final(self).current_player == old(self).current_player,
            final(self).parent == old(self).parent,
            final(self).visits == old(self).visits,
            final(self).wins == old(self).wins,
            final(self).last_move == old(self).last_move,
            final(self).children.len() == old(self).children.len() + empties(grid(old(self).state)).len(),
            forall|i: int|
                0 <= i < old(self).children.len() ==> #[trigger] final(self).children@[i]
                    == old(self).children@[i],
            forall|k: int|
                0 <= k < empties(grid(old(self).state)).len() ==> old(self).is_child_for(
                    #[trigger] final(self).children@[old(self).children.len() + k],
                    empties(grid(old(self).state))[k],
                ),
    {
        let moves = self.get_possible_moves();
        proof {
            lemma_empties(grid(self.state));
        }
        let ghost start = *self;
        let mut k: usize = 0;
        while k < moves.len()
            invariant
                0 <= k <= moves.len(),
                moves@ == empties(grid(start.state)),
                self.state == start.state,
                self.current_player == start.current_player,
                self.parent == start.parent,
                self.visits == start.visits,
                self.wins == start.wins,
                self.last_move == start.last_move,
                self.children.len() == start.children.len() + k,
                forall|i: int| 0 <= i < start.children.len() ==> #[trigger] self.children@[i] == start.children@[i],
                forall|j: int|
                    0 <= j < k ==> start.is_child_for(#[trigger] self.children@[start.children.len() + j], moves@[j]),
            decreases moves.len() - k,
        {
            let p = moves[k];
            proof {
                lemma_empties(grid(start.state));
                assert(moves@.contains(p));
            }
            let child = self.make_move(p.0, p.1, p.2);
            self.children.push(child);
            k = k + 1;
        }
    }

    /// Plays the position out with uniformly random moves and names the
    /// winner. A game that ends full with no line is given to either player
    /// by a fair coin.
    ///
    /// Whatever the draws, the result is that of some playout of legal moves
    /// from this position; so a position that is already won goes to its
    /// winner, and one whose last empty cell completes a line for the player
    /// to move goes to that player.
    pub fn simulate(&self, rng: &mut StdRng) -> (r: Player)
        ensures
            exists|plays: Seq<Pos>|
                is_playout(grid(self.state), self.current_player, plays) && playout_result(
                    grid(self.state),
                    self.current_player,
                    plays,
                    r,
                ),
            winner(grid(self.state)) matches Some(p) ==> r == p,
            !has_win(grid(self.state)) && empties(grid(self.state)).len() == 1 && has_win(
                grid(self.state).update(idx(empties(grid(self.state))[0]), mark_of(self.current_player)),
            ) ==> r == self.current_player,
    {
        let ghost g0 = grid(self.state);
        let ghost p0 = self.current_player;
        let ghost mut plays: Seq<Pos> = Seq::empty();
        let mut board = self.state;
        let mut current_player = self.current_player;
        let mut r = Player::Human;
        loop
            invariant
                g0 == grid(self.state),
                p0 == self.current_player,
                is_playout(g0, p0, plays),
                grid(board) == board_after(g0, p0, plays, plays.len() as int),
                current_player == mover_at(p0, plays.len() as int),
            ensures
                is_playout(g0, p0, plays),
                playout_result(g0, p0, plays, r),
            decreases empties(grid(board)).len(),
        {
            if let Some(w) = winning_player(&board) {
                proof {
                    lemma_winner_has_win(grid(board));
                }
                r = w;
                break;
            }
            let moves = empty_cells(&board);
            if moves.len() == 0 {
                proof {
                    lemma_full_iff_no_empty_cells(grid(board));
                }
                r = if draw_ratio(rng, 1, 2) {
                    Player::Human
                } else {
                    Player::AI
                };
                break;
            }
            let mv = moves[draw_below(rng, moves.len())];
            let mark = match current_player {
                Player::Human => CellState::Human,
                Player::AI => CellState::AI,
            };
            proof {
                lemma_empties(grid(board));
                assert(moves@.contains(mv));
                lemma_fill_shrinks_empties(grid(board), mv, mark);
            }
            place(&mut board, mv, mark);
            proof {
                let old_plays = plays;
                plays = plays.push(mv);
                assert forall|k: int| 0 <= k <= old_plays.len() implies #[trigger] board_after(g0, p0, plays, k)
                    == board_after(g0, p0, old_plays, k) by {
                    lemma_board_after_push(g0, p0, old_plays, mv, k);
                }
                assert forall|k: int| 0 <= k < plays.len() implies !has_win(
                    #[trigger] board_after(g0, p0, plays, k),
                ) && empties(board_after(g0, p0, plays, k)).contains(plays[k]) by {
                    if k < old_plays.len() {
                        assert(board_after(g0, p0, old_plays, k) == board_after(g0, p0, plays, k));
                        assert(plays[k] == old_plays[k]);
                    }
                }
                assert(plays[old_plays.len() as int] == mv);
                assert(board_after(g0, p0, plays, old_plays.len() as int) == board_after(
                    g0,
                    p0,
                    old_plays,
                    old_plays.len() as int,
                ));
                assert(plays.len() == old_plays.len() + 1);
                assert(mark == mark_of(mover_at(p0, old_plays.len() as int)));
                assert(board_after(g0, p0, plays, plays.len() as int) == board_after(
                    g0,
                    p0,
                    old_plays,
                    old_plays.len() as int,
                ).update(idx(mv), mark));
            }
            current_player = match current_player {
                Player::Human => Player::AI,
                Player::AI => Player::Human,
            };
        }
        proof {
            lemma_winner_has_win(g0);
            if winner(g0) is Some {
                assert(board_after(g0, p0, plays, 0) == g0);
                if plays.len() > 0 {
                    assert(!has_win(board_after(g0, p0, plays, 0)));
                }
            }
            if !has_win(g0) && empties(g0).len() == 1 && has_win(g0.update(idx(empties(g0)[0]), mark_of(p0))) {
                lemma_last_cell_playout(g0, p0, plays, r);
            }
        }
        r
    }

    /// Counts one more playout through this node, and a win if the computer won it.
    pub fn backpropagate(&mut self, winner: Player)
        requires
            old(self).visits < u32::MAX,
            old(self).wins < u32::MAX,
        ensures
            final(self).visits == old(self).visits + 1,
            final(self).wins == old(self).wins + if winner == Player::AI {
                1int
            } else {
                0int
            },
            final(self).state == old(self).state,
            final(self).current_player == old(self).current_player,
            final(self).parent == old(self).parent,
            final(self).children == old(self).children,
            final(self).last_move == old(self).last_move,
    {
        self.visits = self.visits + 1;
        if winner == Player::AI {
            self.wins = self.wins + 1;
        }
    }
}

} // verus!
