use tictactoe3d::board::{
    check_line, classify, empty_cells, get_winner_from_line, is_full, winning_player, Board,
    CellState, GameOutcome, Player,
};
use tictactoe3d::game::GameState;
use tictactoe3d::lines::{winning_line, LINE_COUNT};

fn empty_board() -> Board {
    [[[CellState::Empty; 3]; 3]; 3]
}

/// A board with every cell taken (the cube admits no full board without a
/// complete line).
fn full_board() -> Board {
    let (h, a) = (CellState::Human, CellState::AI);
    let mut b = empty_board();
    let layer0 = [[h, a, h], [h, a, a], [a, h, h]];
    let layer1 = [[a, h, a], [a, h, h], [h, a, a]];
    let layer2 = [[h, a, h], [h, a, a], [a, h, h]];
    let layers = [layer0, layer1, layer2];
    for x in 0..3 {
        for y in 0..3 {
            for z in 0..3 {
                b[x][y][z] = layers[z][x][y];
            }
        }
    }
    b
}

#[test]
fn there_are_49_distinct_lines_of_three_distinct_cells() {
    assert_eq!(LINE_COUNT, 49);
    let mut seen: Vec<Vec<(usize, usize, usize)>> = Vec::new();
    for i in 0..LINE_COUNT {
        let line = winning_line(i);
        assert!(line[0] != line[1] && line[1] != line[2] && line[0] != line[2]);
        for p in line.iter() {
            assert!(p.0 < 3 && p.1 < 3 && p.2 < 3);
        }
        let mut cells = line.to_vec();
        cells.sort();
        assert!(!seen.contains(&cells));
        seen.push(cells);
    }
    assert_eq!(seen.len(), 49);
}

#[test]
fn table_order_axes_then_face_then_space_diagonals() {
    assert_eq!(winning_line(0), [(0, 0, 0), (1, 0, 0), (2, 0, 0)]);
    assert_eq!(winning_line(5), [(0, 1, 2), (1, 1, 2), (2, 1, 2)]);
    assert_eq!(winning_line(9), [(0, 0, 0), (0, 1, 0), (0, 2, 0)]);
    assert_eq!(winning_line(26), [(2, 2, 0), (2, 2, 1), (2, 2, 2)]);
    assert_eq!(winning_line(28), [(0, 2, 0), (1, 1, 0), (2, 0, 0)]);
    assert_eq!(winning_line(35), [(0, 1, 0), (1, 1, 1), (2, 1, 2)]);
    assert_eq!(winning_line(44), [(2, 0, 2), (2, 1, 1), (2, 2, 0)]);
    assert_eq!(winning_line(45), [(0, 0, 0), (1, 1, 1), (2, 2, 2)]);
    assert_eq!(winning_line(48), [(0, 2, 2), (1, 1, 1), (2, 0, 0)]);
}

#[test]
fn each_cell_lies_on_the_expected_number_of_lines() {
    let mut count = [[[0u32; 3]; 3]; 3];
    for i in 0..LINE_COUNT {
        for p in winning_line(i).iter() {
            count[p.0][p.1][p.2] += 1;
        }
    }
    assert_eq!(count[1][1][1], 13);
    assert_eq!(count[0][0][0], 7);
    assert_eq!(count[0][2][0], 7);
    assert_eq!(count[1][0][0], 4);
    assert_eq!(count[1][1][0], 5);
}

#[test]
fn empty_board_has_no_winner_and_is_ongoing() {
    let b = empty_board();
    assert_eq!(winning_player(&b), None);
    assert!(!is_full(&b));
    assert_eq!(classify(&b), GameOutcome::Ongoing);
}

#[test]
fn axis_line_wins() {
    let mut b = empty_board();
    b[0][1][2] = CellState::AI;
    b[1][1][2] = CellState::AI;
    b[2][1][2] = CellState::AI;
    assert_eq!(winning_player(&b), Some(Player::AI));
    assert_eq!(classify(&b), GameOutcome::Won(Player::AI));
}

#[test]
fn space_diagonal_wins() {
    let mut b = empty_board();
    b[0][2][2] = CellState::Human;
    b[1][1][1] = CellState::Human;
    b[2][0][0] = CellState::Human;
    assert_eq!(winning_player(&b), Some(Player::Human));
}

#[test]
fn mixed_line_does_not_win() {
    let mut b = empty_board();
    b[0][0][0] = CellState::Human;
    b[1][1][1] = CellState::AI;
    b[2][2][2] = CellState::Human;
    assert_eq!(winning_player(&b), None);
    assert_eq!(classify(&b), GameOutcome::Ongoing);
}

#[test]
fn check_line_and_owner() {
    let mut b = empty_board();
    let line = [(0, 0, 1), (1, 1, 1), (2, 2, 1)];
    assert!(!check_line(&b, &line));
    for p in line.iter() {
        b[p.0][p.1][p.2] = CellState::AI;
    }
    assert!(check_line(&b, &line));
    assert_eq!(get_winner_from_line(&b, &line), Player::AI);
}

#[test]
fn full_board_has_no_empty_cells() {
    let b = full_board();
    assert!(is_full(&b));
    assert!(empty_cells(&b).is_empty());
    assert_eq!(winning_player(&b), Some(Player::Human));
    assert_eq!(classify(&b), GameOutcome::Won(Player::Human));
}

#[test]
fn empty_cells_are_listed_x_then_y_then_z() {
    let mut b = empty_board();
    let all = empty_cells(&b);
    assert_eq!(all.len(), 27);
    assert_eq!(all[0], (0, 0, 0));
    assert_eq!(all[1], (0, 0, 1));
    assert_eq!(all[3], (0, 1, 0));
    assert_eq!(all[9], (1, 0, 0));
    assert_eq!(all[26], (2, 2, 2));
    b[0][0][1] = CellState::Human;
    b[1][0][0] = CellState::AI;
    let some = empty_cells(&b);
    assert_eq!(some.len(), 25);
    assert_eq!(some[0], (0, 0, 0));
    assert_eq!(some[1], (0, 0, 2));
    assert_eq!(some[8], (1, 0, 1));
}

#[test]
fn new_game_is_empty_with_human_to_move() {
    let g = GameState::default();
    assert_eq!(g.board, empty_board());
    assert_eq!(g.current_player, Player::Human);
    assert!(!g.game_over);
    assert_eq!(g.winner, None);
    assert_eq!(g.last_move, None);
    assert_eq!(g.ai.simulations, 2000);
    assert_eq!(g.get_empty_positions().len(), 27);
}

#[test]
fn moves_alternate_and_are_recorded() {
    let mut g = GameState::default();
    assert!(g.make_move(1, 1, 1));
    assert_eq!(g.board[1][1][1], CellState::Human);
    assert_eq!(g.current_player, Player::AI);
    assert_eq!(g.last_move, Some((1, 1, 1)));
    assert!(g.make_move(0, 0, 0));
    assert_eq!(g.board[0][0][0], CellState::AI);
    assert_eq!(g.current_player, Player::Human);
    assert_eq!(g.get_empty_positions().len(), 25);
}

#[test]
fn move_on_taken_cell_is_refused_and_changes_nothing() {
    let mut g = GameState::default();
    assert!(g.make_move(2, 0, 1));
    let board = g.board;
    let turn = g.current_player;
    assert!(!g.make_move(2, 0, 1));
    assert_eq!(g.board, board);
    assert_eq!(g.current_player, turn);
    assert_eq!(g.last_move, Some((2, 0, 1)));
    assert!(!g.game_over);
}

#[test]
fn completed_line_ends_the_game_and_freezes_the_turn() {
    let mut g = GameState::default();
    for &(x, y, z) in [(0, 0, 0), (2, 2, 0), (0, 0, 1), (2, 2, 1), (0, 0, 2)].iter() {
        assert!(g.make_move(x, y, z));
    }
    assert!(g.game_over);
    assert_eq!(g.winner, Some(Player::Human));
    assert_eq!(g.current_player, Player::Human);
    assert!(g.check_winner());
    assert_eq!(classify(&g.board), GameOutcome::Won(Player::Human));
    assert!(!g.make_move(1, 1, 1));
    assert_eq!(g.board[1][1][1], CellState::Empty);
}

#[test]
fn reset_restores_a_fresh_game() {
    let mut g = GameState::default();
    for &(x, y, z) in [(0, 0, 0), (2, 2, 0), (0, 0, 1), (2, 2, 1), (0, 0, 2)].iter() {
        g.make_move(x, y, z);
    }
    g.selected_cube = Some((1, 1, 1));
    g.ai.simulations = 10;
    g.reset();
    assert_eq!(g.board, empty_board());
    assert_eq!(g.current_player, Player::Human);
    assert!(!g.game_over);
    assert_eq!(g.winner, None);
    assert_eq!(g.selected_cube, None);
    assert_eq!(g.last_move, None);
    assert_eq!(g.ai.simulations, 10);
}
