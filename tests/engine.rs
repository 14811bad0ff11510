use rand::rngs::StdRng;
use rand::SeedableRng;
use tictactoe3d::ai::{
    find_completing_move, placement_score, rollouts_per_candidate, top_three, MCTSAi,
};
use tictactoe3d::board::{empty_cells, Board, CellState, Player};
use tictactoe3d::game::GameState;
use tictactoe3d::tree::MCTSNode;

fn empty_board() -> Board {
    [[[CellState::Empty; 3]; 3]; 3]
}

fn play(moves: &[(usize, usize, usize)]) -> GameState {
    let mut g = GameState::default();
    for &(x, y, z) in moves {
        assert!(g.make_move(x, y, z));
    }
    g
}

fn quick_ai() -> MCTSAi {
    let mut ai = MCTSAi::new();
    ai.simulations = 54;
    ai
}

#[test]
fn immediate_win_is_taken_before_anything_else() {
    // The computer holds (0,0,0) and (1,1,0); the human threatens (2,2,2).
    let g = play(&[(0, 2, 2), (0, 0, 0), (2, 0, 2), (1, 1, 0), (1, 2, 2)]);
    assert_eq!(g.current_player, Player::AI);
    let mut rng = StdRng::seed_from_u64(7);
    assert_eq!(g.ai.get_best_move(&g, &mut rng), Some((2, 2, 0)));
}

#[test]
fn single_threat_is_blocked() {
    let g = play(&[(0, 0, 0), (1, 1, 1), (0, 0, 1)]);
    let mut rng = StdRng::seed_from_u64(11);
    assert_eq!(g.ai.get_best_move(&g, &mut rng), Some((0, 0, 2)));
}

#[test]
fn finished_game_gets_no_move() {
    let g = play(&[(0, 0, 0), (2, 2, 0), (0, 0, 1), (2, 2, 1), (0, 0, 2)]);
    assert!(g.game_over);
    let mut rng = StdRng::seed_from_u64(3);
    assert_eq!(g.ai.get_best_move(&g, &mut rng), None);
}

#[test]
fn find_winning_move_names_first_completing_cell() {
    let g = play(&[(0, 0, 0), (1, 1, 1), (0, 0, 1), (2, 1, 1)]);
    let ai = MCTSAi::new();
    assert_eq!(ai.find_winning_move(&g, Player::Human), Some((0, 0, 2)));
    assert_eq!(ai.find_winning_move(&g, Player::AI), Some((0, 1, 1)));
    let fresh = GameState::default();
    assert_eq!(ai.find_winning_move(&fresh, Player::AI), None);
}

#[test]
fn completing_move_on_a_list_of_cells() {
    let mut b = empty_board();
    b[2][0][0] = CellState::AI;
    b[2][1][0] = CellState::AI;
    let moves = empty_cells(&b);
    assert_eq!(find_completing_move(&b, &moves, Player::AI), Some((2, 2, 0)));
    assert_eq!(find_completing_move(&b, &moves, Player::Human), None);
}

#[test]
fn seeded_choice_is_reproducible_and_legal() {
    let mut g = play(&[(1, 1, 1)]);
    g.ai = quick_ai();
    let mut r1 = StdRng::seed_from_u64(42);
    let mut r2 = StdRng::seed_from_u64(42);
    let m1 = g.ai.get_best_move(&g, &mut r1);
    let m2 = g.ai.get_best_move(&g, &mut r2);
    assert_eq!(m1, m2);
    let (x, y, z) = m1.unwrap();
    assert_eq!(g.board[x][y][z], CellState::Empty);
}

#[test]
fn every_candidate_gets_at_least_one_rollout() {
    assert_eq!(rollouts_per_candidate(2000, 27), 74);
    assert_eq!(rollouts_per_candidate(54, 27), 2);
    assert_eq!(rollouts_per_candidate(10, 27), 1);
    assert_eq!(rollouts_per_candidate(0, 5), 1);
}

#[test]
fn rollout_totals_stay_within_the_share() {
    let g = play(&[(1, 1, 1), (0, 0, 0)]);
    let ai = quick_ai();
    let cells = g.get_empty_positions();
    let sims = rollouts_per_candidate(ai.simulations, cells.len()) as i64;
    assert_eq!(sims, 2);
    let mut rng = StdRng::seed_from_u64(5);
    let totals = ai.score_candidates(&g.board, &cells, &mut rng);
    assert_eq!(totals.len(), cells.len());
    for t in totals.iter() {
        assert!(-sims <= *t && *t <= sims);
        assert_eq!((t + sims) % 2, 0);
    }
    let mut again = StdRng::seed_from_u64(5);
    assert_eq!(ai.score_candidates(&g.board, &cells, &mut again), totals);
}

#[test]
fn static_values_on_an_empty_board() {
    let g = GameState::default();
    let ai = MCTSAi::new();
    assert_eq!(ai.count_potential_lines(1, 1, 1, &g), 13);
    assert_eq!(ai.evaluate_position(1, 1, 1, &g), 30 + 6 * 13);
    assert_eq!(ai.evaluate_position(0, 0, 0, &g), 15 + 6 * 7);
    assert_eq!(ai.evaluate_position(0, 2, 0, &g), 15 + 6 * 7);
    assert_eq!(ai.evaluate_position(1, 0, 0, &g), 10 + 6 * 4);
    assert_eq!(ai.evaluate_position(1, 1, 0, &g), 20 + 6 * 5);
}

#[test]
fn line_potential_counts_own_marks_and_skips_blocked_lines() {
    // Computer at (0,0,0), human at (2,0,0): of the lines through (1,0,0),
    // the x line is blocked; the y, z lines and the yz diagonal are open.
    let g = play(&[(2, 0, 0), (0, 0, 0)]);
    let ai = MCTSAi::new();
    assert_eq!(ai.count_potential_lines(1, 0, 0, &g), 3);
    // Through (1,1,1): the space diagonal from (0,0,0) holds one computer mark.
    assert_eq!(ai.count_potential_lines(1, 1, 1, &g), 12 + 1);
}

#[test]
fn placement_scores() {
    assert_eq!(placement_score((1, 1, 1)), 30);
    assert_eq!(placement_score((0, 1, 1)), 20);
    assert_eq!(placement_score((2, 2, 2)), 15);
    assert_eq!(placement_score((0, 0, 1)), 10);
}

#[test]
fn best_candidate_blends_rollouts_with_static_value() {
    let g = GameState::default();
    let ai = MCTSAi::new();
    let cells = vec![(0, 0, 1), (1, 1, 1), (0, 0, 0)];
    // Static values 34, 108 and 57; with one rollout each the keys are
    // 300 * total + value.
    assert_eq!(ai.pick_best_candidate(&g, &cells, &vec![0, 0, 0], 1), 1);
    assert_eq!(ai.pick_best_candidate(&g, &cells, &vec![1, -1, 0], 1), 0);
    assert_eq!(ai.pick_best_candidate(&g, &cells, &vec![0, -1, 1], 1), 2);
    // Equal keys keep the earlier candidate.
    let twins = vec![(0, 0, 0), (2, 2, 2)];
    assert_eq!(ai.pick_best_candidate(&g, &twins, &vec![1, 1], 3), 0);
}

#[test]
fn top_three_follows_placement_value_then_order() {
    let moves = empty_cells(&empty_board());
    assert_eq!(top_three(&moves), vec![13, 4, 10]);
    let few = vec![(0, 0, 1), (0, 0, 0)];
    assert_eq!(top_three(&few), vec![1, 0]);
}

#[test]
fn rollout_move_prefers_win_then_block_then_pick() {
    let ai = MCTSAi::new();
    let mut b = empty_board();
    b[0][0][0] = CellState::Human;
    b[0][0][1] = CellState::Human;
    b[2][2][0] = CellState::AI;
    b[2][2][1] = CellState::AI;
    let moves = empty_cells(&b);
    assert_eq!(ai.choose_smart_move(&b, Player::AI, &moves, true, 2), (2, 2, 2));
    assert_eq!(ai.choose_smart_move(&b, Player::Human, &moves, false, 0), (0, 0, 2));
    b[2][2][1] = CellState::Empty;
    b[1][1][1] = CellState::Human;
    b[1][0][1] = CellState::AI;
    let moves = empty_cells(&b);
    // The computer has no win; the human threatens (0,0,2), (2,2,1) and
    // (2,2,2), and the first of them in enumeration order is blocked.
    assert_eq!(ai.choose_smart_move(&b, Player::AI, &moves, true, 1), (0, 0, 2));
    let quiet = empty_board();
    let all = empty_cells(&quiet);
    assert_eq!(ai.choose_smart_move(&quiet, Player::AI, &all, true, 0), (1, 1, 1));
    assert_eq!(ai.choose_smart_move(&quiet, Player::AI, &all, true, 2), (1, 0, 1));
    assert_eq!(ai.choose_smart_move(&quiet, Player::AI, &all, false, 5), (0, 1, 2));
}

#[test]
fn rollout_of_a_won_position_names_its_winner() {
    let ai = MCTSAi::new();
    let mut b = empty_board();
    b[0][0][0] = CellState::AI;
    b[1][0][0] = CellState::AI;
    b[2][0][0] = CellState::AI;
    let mut rng = StdRng::seed_from_u64(1);
    assert_eq!(ai.simulate_smart_game(b, Player::Human, &mut rng), Player::AI);
}

#[test]
fn rollouts_from_an_open_position_finish() {
    let ai = MCTSAi::new();
    let mut rng = StdRng::seed_from_u64(99);
    for _ in 0..50 {
        let w = ai.simulate_smart_game(empty_board(), Player::Human, &mut rng);
        assert!(w == Player::Human || w == Player::AI);
    }
}

#[test]
fn tree_node_moves_and_expands() {
    let root = MCTSNode::new(empty_board(), Player::Human);
    assert!(!root.is_terminal());
    assert_eq!(root.check_winner(), None);
    assert_eq!(root.get_possible_moves().len(), 27);
    let child = root.make_move(1, 1, 1);
    assert_eq!(child.state[1][1][1], CellState::Human);
    assert_eq!(child.current_player, Player::AI);
    assert_eq!(child.last_move, Some((1, 1, 1)));
    let mut node = child;
    node.expand();
    assert_eq!(node.children.len(), 26);
    assert_eq!(node.children[0].last_move, Some((0, 0, 0)));
    assert_eq!(node.children[0].state[0][0][0], CellState::AI);
    assert_eq!(node.children[0].current_player, Player::Human);
}

#[test]
fn tree_node_counts_playouts() {
    let mut node = MCTSNode::new(empty_board(), Player::AI);
    node.backpropagate(Player::AI);
    node.backpropagate(Player::Human);
    assert_eq!(node.visits, 2);
    assert_eq!(node.wins, 1);
}

#[test]
fn tree_node_playout() {
    let mut b = empty_board();
    b[1][0][1] = CellState::Human;
    b[1][1][1] = CellState::Human;
    b[1][2][1] = CellState::Human;
    let won = MCTSNode::new(b, Player::AI);
    assert!(won.is_terminal());
    let mut rng = StdRng::seed_from_u64(8);
    assert_eq!(won.simulate(&mut rng), Player::Human);
    let open = MCTSNode::new(empty_board(), Player::Human);
    for _ in 0..20 {
        let w = open.simulate(&mut rng);
        assert!(w == Player::Human || w == Player::AI);
    }
}

#[test]
fn uniform_rollout_names_winner_of_won_position() {
    let ai = MCTSAi::new();
    let mut b = empty_board();
    b[0][0][2] = CellState::Human;
    b[0][1][2] = CellState::Human;
    b[0][2][2] = CellState::Human;
    let mut rng = StdRng::seed_from_u64(4);
    assert_eq!(ai.simulate_random_game(b, Player::AI, &mut rng), Player::Human);
    for _ in 0..20 {
        let w = ai.simulate_random_game(empty_board(), Player::Human, &mut rng);
        assert!(w == Player::Human || w == Player::AI);
    }
}

#[test]
fn rollout_is_won_by_a_mover_who_can_complete_a_line() {
    let ai = MCTSAi::new();
    let mut b = empty_board();
    b[0][0][0] = CellState::Human;
    b[0][0][1] = CellState::Human;
    b[2][2][0] = CellState::AI;
    b[2][2][1] = CellState::AI;
    for seed in 0..30 {
        let mut rng = StdRng::seed_from_u64(seed);
        assert_eq!(ai.simulate_smart_game(b, Player::Human, &mut rng), Player::Human);
        assert_eq!(ai.simulate_smart_game(b, Player::AI, &mut rng), Player::AI);
    }
}

#[test]
fn forced_candidates_gain_or_lose_every_rollout() {
    // Human holds (0,0,0) and (0,0,1); the computer holds (2,2,0) and (2,2,1).
    let mut b = empty_board();
    b[0][0][0] = CellState::Human;
    b[0][0][1] = CellState::Human;
    b[2][2][0] = CellState::AI;
    b[2][2][1] = CellState::AI;
    let ai = quick_ai();
    let cells = vec![(2, 2, 2), (1, 1, 1)];
    let sims = rollouts_per_candidate(ai.simulations, cells.len()) as i64;
    assert_eq!(sims, 27);
    let mut rng = StdRng::seed_from_u64(12);
    let totals = ai.score_candidates(&b, &cells, &mut rng);
    // (2,2,2) completes the computer's line; (1,1,1) leaves the human's win open.
    assert_eq!(totals, vec![sims, -sims]);
}
