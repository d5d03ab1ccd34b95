use feniks_battleship::alpha_beta::{
    alpha_beta, evaluate_board, get_possible_moves, search_depth, verify_best_moves,
};
use feniks_battleship::grid::{new_board, CellState, Position};

#[test]
fn test_evaluate_board_rewards_contiguity() {
    let mut board = vec![vec![CellState::Empty; 5]; 5];
    board[1][1] = CellState::Hit;
    assert_eq!(evaluate_board(&board), 10);

    board[1][2] = CellState::Hit;
    assert_eq!(evaluate_board(&board), 120);

    board[3][3] = CellState::Hit;
    assert_eq!(evaluate_board(&board), 130);
}

#[test]
fn test_verify_best_moves_prefers_line_creation() {
    let mut board = vec![vec![CellState::Empty; 5]; 5];
    board[2][2] = CellState::Hit;
    let moves = [(4, 4), (2, 3)];
    let best_move = verify_best_moves(&board, &moves);
    assert_eq!(best_move, (2, 3));
}

#[test]
fn evaluate_empty_board_is_zero() {
    assert_eq!(evaluate_board(&new_board(5, 5)), 0);
    assert_eq!(evaluate_board(&new_board(0, 0)), 0);
}

#[test]
fn evaluate_vertical_pair_is_120() {
    let mut board = new_board(5, 5);
    board[1][1] = CellState::Hit;
    board[2][1] = CellState::Hit;
    assert_eq!(evaluate_board(&board), 120);
}

#[test]
fn evaluate_diagonal_pair_is_20() {
    let mut board = new_board(5, 5);
    board[1][1] = CellState::Hit;
    board[2][2] = CellState::Hit;
    assert_eq!(evaluate_board(&board), 20);
}

#[test]
fn evaluate_gives_no_credit_for_sunk_or_miss() {
    let mut board = new_board(4, 4);
    board[0][0] = CellState::Sunk;
    board[0][1] = CellState::Sunk;
    board[1][0] = CellState::Miss;
    assert_eq!(evaluate_board(&board), 0);
    board[1][1] = CellState::Hit;
    assert_eq!(evaluate_board(&board), 10);
}

#[test]
fn evaluate_counts_every_adjacent_pair() {
    let mut board = new_board(3, 3);
    board[0][0] = CellState::Hit;
    board[0][1] = CellState::Hit;
    board[1][0] = CellState::Hit;
    board[1][1] = CellState::Hit;
    // four hits, four neighbouring pairs
    assert_eq!(evaluate_board(&board), 440);
}

#[test]
fn possible_moves_are_the_empty_cells_in_row_major_order() {
    let mut board = new_board(3, 2);
    board[0][1] = CellState::Miss;
    board[1][0] = CellState::Hit;
    let moves = get_possible_moves(&board);
    assert_eq!(
        moves,
        vec![
            Position { x: 0, y: 0 },
            Position { x: 2, y: 0 },
            Position { x: 1, y: 1 },
            Position { x: 2, y: 1 },
        ]
    );
}

#[test]
fn possible_moves_of_a_full_board_are_none() {
    let board = vec![vec![CellState::Miss; 3]; 3];
    assert!(get_possible_moves(&board).is_empty());
}

#[test]
fn depth_schedule_is_two_then_three() {
    assert_eq!(search_depth(100), 2);
    assert_eq!(search_depth(51), 2);
    assert_eq!(search_depth(50), 2);
    assert_eq!(search_depth(21), 2);
    assert_eq!(search_depth(20), 3);
    assert_eq!(search_depth(0), 3);
}

#[test]
fn alpha_beta_at_depth_zero_evaluates() {
    let mut board = new_board(3, 3);
    board[1][1] = CellState::Hit;
    assert_eq!(alpha_beta(&mut board, 0, i32::MIN, i32::MAX, true), 10);
    assert_eq!(alpha_beta(&mut board, 0, i32::MIN, i32::MAX, false), 10);
}

#[test]
fn alpha_beta_restores_the_board() {
    let mut board = new_board(3, 3);
    board[1][1] = CellState::Hit;
    let before = board.clone();
    alpha_beta(&mut board, 3, i32::MIN, i32::MAX, false);
    assert_eq!(board, before);
}

#[test]
fn alpha_beta_maximizer_extends_a_hit() {
    let mut board = new_board(3, 3);
    board[1][1] = CellState::Hit;
    // one ply: the maximizer marks a neighbour of the hit
    assert_eq!(alpha_beta(&mut board, 1, i32::MIN, i32::MAX, true), 120);
    // the minimizer's miss changes nothing of the evaluation
    assert_eq!(alpha_beta(&mut board, 1, i32::MIN, i32::MAX, false), 10);
}

#[test]
fn alpha_beta_two_plies_minimizer_first() {
    let mut board = new_board(3, 1);
    board[0][1] = CellState::Hit;
    // the minimizer blocks one side, the maximizer extends on the other
    assert_eq!(alpha_beta(&mut board, 2, i32::MIN, i32::MAX, false), 120);
    let mut narrow = new_board(2, 1);
    narrow[0][0] = CellState::Hit;
    // the only free cell is blocked, and the maximizer has no cell left
    assert_eq!(alpha_beta(&mut narrow, 2, i32::MIN, i32::MAX, false), i32::MIN);
}

#[test]
fn alpha_beta_without_moves_gives_the_worst_value() {
    let mut board = vec![vec![CellState::Miss; 2]; 2];
    assert_eq!(alpha_beta(&mut board, 1, i32::MIN, i32::MAX, true), i32::MIN);
    assert_eq!(alpha_beta(&mut board, 1, i32::MIN, i32::MAX, false), i32::MAX);
}

#[test]
fn verify_best_moves_without_candidates_is_origin() {
    let board = new_board(5, 5);
    let moves: [(u8, u8); 0] = [];
    assert_eq!(verify_best_moves(&board, &moves), (0, 0));
}

#[test]
fn verify_best_moves_breaks_ties_by_input_order() {
    let board = new_board(5, 5);
    let moves = [(3, 3), (1, 1), (2, 2)];
    assert_eq!(verify_best_moves(&board, &moves), (3, 3));
}

#[test]
fn verify_best_moves_leaves_the_board_alone() {
    let mut board = new_board(5, 5);
    board[2][2] = CellState::Hit;
    let before = board.clone();
    verify_best_moves(&board, &[(4, 4), (2, 3)]);
    assert_eq!(board, before);
}

fn plain_minimax(board: &mut Vec<Vec<CellState>>, depth: u32, maximizing: bool) -> i32 {
    if depth == 0 {
        return evaluate_board(board);
    }
    let moves = get_possible_moves(board);
    let mut best = if maximizing { i32::MIN } else { i32::MAX };
    for mv in moves {
        let mark = if maximizing { CellState::Hit } else { CellState::Miss };
        board[mv.y as usize][mv.x as usize] = mark;
        let value = plain_minimax(board, depth - 1, !maximizing);
        board[mv.y as usize][mv.x as usize] = CellState::Empty;
        if maximizing {
            best = best.max(value);
        } else {
            best = best.min(value);
        }
    }
    best
}

#[test]
fn alpha_beta_agrees_with_plain_minimax() {
    let mut board = new_board(4, 3);
    board[0][0] = CellState::Hit;
    board[1][2] = CellState::Hit;
    board[2][3] = CellState::Miss;
    board[0][3] = CellState::Sunk;
    for depth in 0..4 {
        for maximizing in [true, false] {
            let expected = plain_minimax(&mut board, depth, maximizing);
            let found = alpha_beta(&mut board, depth, i32::MIN, i32::MAX, maximizing);
            assert_eq!(found, expected);
        }
    }
}

#[test]
fn alpha_beta_with_a_narrow_window_bounds_the_value() {
    let mut board = new_board(3, 3);
    board[1][1] = CellState::Hit;
    let exact = plain_minimax(&mut board, 2, true);
    assert_eq!(exact, 120);
    // the window lies above the value: the result is an upper bound
    let low = alpha_beta(&mut board, 2, 500, 600, true);
    assert!(low <= 500 && exact <= low);
    // the window lies below the value: the result is a lower bound
    let high = alpha_beta(&mut board, 2, 0, 50, true);
    assert!(high >= 50 && exact >= high);
    // the window holds the value: the result is exact
    assert_eq!(alpha_beta(&mut board, 2, 100, 200, true), 120);
}

#[test]
fn verify_best_moves_on_a_nearly_full_board() {
    // at most twenty empty cells: the search goes three plies deep
    let mut board = vec![vec![CellState::Miss; 4]; 4];
    board[0][0] = CellState::Hit;
    for (x, y) in [(1, 0), (2, 0), (3, 0), (3, 3), (2, 3), (1, 3), (0, 3)] {
        board[y][x] = CellState::Empty;
    }
    let candidates = [(3u8, 3u8), (1u8, 0u8)];
    let mut values = Vec::new();
    for (x, y) in candidates {
        let mut scratch = board.clone();
        scratch[y as usize][x as usize] = CellState::Hit;
        values.push(plain_minimax(&mut scratch, 3, false));
    }
    let expected = if values[1] > values[0] { candidates[1] } else { candidates[0] };
    assert_eq!(values, vec![130, 130]);
    assert_eq!(verify_best_moves(&board, &candidates), expected);
    assert_eq!(expected, (3, 3));
    // a second free neighbour makes the extending candidate the better one
    board[1][1] = CellState::Empty;
    assert_eq!(verify_best_moves(&board, &candidates), (1, 0));
}

#[test]
fn verify_best_moves_when_the_search_runs_out_of_cells() {
    // with three empty cells every line of play ends without a move left
    let mut board = vec![vec![CellState::Miss; 4]; 4];
    board[0][0] = CellState::Hit;
    board[0][1] = CellState::Empty;
    board[0][2] = CellState::Empty;
    board[3][3] = CellState::Empty;
    assert_eq!(verify_best_moves(&board, &[(3, 3), (1, 0)]), (3, 3));
}
