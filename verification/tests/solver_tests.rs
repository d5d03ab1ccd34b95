use feniks_battleship::grid::{new_board, CellState, Position};
use feniks_battleship::solver::{
    can_place_ship_at, can_ship_fit_in_island, find_islands, global_constraint_solver,
    shortest_length,
};

#[test]
fn test_find_islands_simple() {
    let mut board = vec![vec![CellState::Miss; 5]; 5];
    board[0][0] = CellState::Empty;
    board[0][1] = CellState::Empty;
    board[2][2] = CellState::Empty;
    let islands = find_islands(&board);
    assert_eq!(islands.len(), 2, "Should find two distinct islands");
}

#[test]
fn test_can_ship_fit_positive() {
    let mut island = Vec::new();
    island.push(Position { x: 0, y: 0 });
    island.push(Position { x: 1, y: 0 });
    island.push(Position { x: 2, y: 0 });
    assert!(can_ship_fit_in_island(&island, 3));
    assert!(!can_ship_fit_in_island(&island, 4));
}

#[test]
fn solver_test_solver_marks_isolated_islands() {
    let mut board = new_board(10, 10);
    for i in 0..10 {
        board[i][3] = CellState::Miss;
    }
    for i in 0..3 {
        board[3][i] = CellState::Miss;
    }
    let ship_lengths = [4];
    global_constraint_solver(&mut board, &ship_lengths);
    assert_eq!(board[0][0], CellState::Miss);
    assert_eq!(board[2][2], CellState::Miss);
    assert_eq!(board[5][5], CellState::Empty);
}

#[test]
fn solver_prunes_the_whole_isolated_block() {
    let mut board = new_board(10, 10);
    for i in 0..10 {
        board[i][3] = CellState::Miss;
    }
    for i in 0..3 {
        board[3][i] = CellState::Miss;
    }
    let before = board.clone();
    global_constraint_solver(&mut board, &[4]);
    for y in 0..10 {
        for x in 0..10 {
            let expected = if x < 3 && y < 3 { CellState::Miss } else { before[y][x] };
            assert_eq!(board[y][x], expected, "cell ({}, {})", x, y);
        }
    }
}

#[test]
fn islands_cover_every_open_cell_once() {
    let mut board = new_board(6, 4);
    for y in 0..4 {
        board[y][2] = CellState::Miss;
    }
    board[1][4] = CellState::Hit;
    board[3][5] = CellState::Sunk;
    let islands = find_islands(&board);
    assert_eq!(islands.len(), 2);
    let mut seen = vec![vec![0u32; 6]; 4];
    for island in &islands {
        for p in island {
            seen[p.y as usize][p.x as usize] += 1;
        }
    }
    for y in 0..4 {
        for x in 0..6 {
            let expected = if board[y][x] == CellState::Miss { 0 } else { 1 };
            assert_eq!(seen[y][x], expected);
        }
    }
    assert_eq!(islands[0].len(), 8);
    assert_eq!(islands[1].len(), 12);
    assert_eq!(islands[0][0], Position { x: 0, y: 0 });
    assert_eq!(islands[1][0], Position { x: 3, y: 0 });
}

#[test]
fn islands_are_joined_by_edges_not_corners() {
    let mut board = vec![vec![CellState::Miss; 3]; 3];
    board[0][0] = CellState::Empty;
    board[1][1] = CellState::Empty;
    board[2][2] = CellState::Empty;
    assert_eq!(find_islands(&board).len(), 3);
}

#[test]
fn islands_of_a_board_without_open_cells() {
    assert!(find_islands(&vec![vec![CellState::Miss; 4]; 4]).is_empty());
    assert!(find_islands(&new_board(0, 0)).is_empty());
    assert_eq!(find_islands(&new_board(4, 4)).len(), 1);
}

#[test]
fn hits_belong_to_their_island() {
    let mut board = vec![vec![CellState::Miss; 4]; 1];
    board[0][0] = CellState::Empty;
    board[0][1] = CellState::Hit;
    board[0][2] = CellState::Empty;
    let islands = find_islands(&board);
    assert_eq!(islands.len(), 1);
    assert_eq!(islands[0].len(), 3);
    // with the hit the island holds a ship of three cells
    global_constraint_solver(&mut board, &[3]);
    assert_eq!(board[0], vec![CellState::Empty, CellState::Hit, CellState::Empty, CellState::Miss]);
    // but none of four: the empty cells go, the hit stays
    global_constraint_solver(&mut board, &[4]);
    assert_eq!(board[0], vec![CellState::Miss, CellState::Hit, CellState::Miss, CellState::Miss]);
}

#[test]
fn ship_fits_needs_a_straight_run() {
    // an L of four cells in a 3 x 2 box: no straight run of four, one of three
    let island = vec![
        Position { x: 0, y: 0 },
        Position { x: 1, y: 0 },
        Position { x: 2, y: 0 },
        Position { x: 2, y: 1 },
    ];
    assert!(can_ship_fit_in_island(&island, 3));
    assert!(!can_ship_fit_in_island(&island, 4));
    // a staircase in a 3 x 3 box: the box is large enough, the island is not
    let stairs = vec![
        Position { x: 0, y: 0 },
        Position { x: 1, y: 0 },
        Position { x: 1, y: 1 },
        Position { x: 2, y: 1 },
        Position { x: 2, y: 2 },
    ];
    assert!(can_ship_fit_in_island(&stairs, 2));
    assert!(!can_ship_fit_in_island(&stairs, 3));
}

#[test]
fn ship_fits_vertically() {
    let island = vec![
        Position { x: 7, y: 3 },
        Position { x: 7, y: 2 },
        Position { x: 7, y: 4 },
    ];
    assert!(can_ship_fit_in_island(&island, 3));
    assert!(!can_ship_fit_in_island(&island, 4));
}

#[test]
fn ship_fit_edge_cases() {
    let empty: Vec<Position> = Vec::new();
    assert!(!can_ship_fit_in_island(&empty, 0));
    assert!(!can_ship_fit_in_island(&empty, 1));
    let single = vec![Position { x: 255, y: 255 }];
    assert!(can_ship_fit_in_island(&single, 0));
    assert!(can_ship_fit_in_island(&single, 1));
    assert!(!can_ship_fit_in_island(&single, 2));
    let corner = vec![Position { x: 254, y: 255 }, Position { x: 255, y: 255 }];
    assert!(can_ship_fit_in_island(&corner, 2));
    assert!(!can_ship_fit_in_island(&corner, 3));
}

#[test]
fn solver_without_ships_changes_nothing() {
    let mut board = vec![vec![CellState::Miss; 3]; 3];
    board[1][1] = CellState::Empty;
    let before = board.clone();
    global_constraint_solver(&mut board, &[]);
    assert_eq!(board, before);
    global_constraint_solver(&mut board, &[0, 3]);
    assert_eq!(board, before);
}

#[test]
fn solver_goes_by_the_shortest_ship() {
    let mut board = vec![vec![CellState::Miss; 5]; 1];
    board[0][0] = CellState::Empty;
    board[0][1] = CellState::Empty;
    let before = board.clone();
    global_constraint_solver(&mut board, &[5, 2, 3]);
    assert_eq!(board, before);
    global_constraint_solver(&mut board, &[5, 3]);
    assert_eq!(board, vec![vec![CellState::Miss; 5]; 1]);
}

#[test]
fn solver_never_touches_a_cell_that_is_not_empty() {
    let mut board = vec![vec![CellState::Miss; 4]; 4];
    board[0][0] = CellState::Hit;
    board[0][1] = CellState::Sunk;
    board[3][3] = CellState::Empty;
    board[2][0] = CellState::Hit;
    let before = board.clone();
    global_constraint_solver(&mut board, &[3]);
    for y in 0..4 {
        for x in 0..4 {
            if before[y][x] != CellState::Empty {
                assert_eq!(board[y][x], before[y][x]);
            } else {
                assert!(board[y][x] == CellState::Empty || board[y][x] == CellState::Miss);
            }
        }
    }
    assert_eq!(board[3][3], CellState::Miss);
}

#[test]
fn solver_marks_no_cell_that_a_ship_could_cover() {
    let mut board = new_board(6, 6);
    for i in 0..6 {
        board[2][i] = CellState::Miss;
    }
    board[0][3] = CellState::Miss;
    board[4][1] = CellState::Hit;
    let before = board.clone();
    let lengths = [3u8, 4];
    global_constraint_solver(&mut board, &lengths);
    for y in 0..6usize {
        for x in 0..6usize {
            if before[y][x] != CellState::Miss && board[y][x] == CellState::Miss {
                for len in lengths {
                    let len = len as usize;
                    for start in 0..6usize {
                        if start + len <= 6 && start <= x && x < start + len {
                            assert!((start..start + len).any(|i| before[y][i] == CellState::Miss));
                        }
                        if start + len <= 6 && start <= y && y < start + len {
                            assert!((start..start + len).any(|i| before[i][x] == CellState::Miss));
                        }
                    }
                }
            }
        }
    }
    // the two rows above the wall hold runs of three on each side of the miss
    assert_eq!(board[0][0], CellState::Empty);
    assert_eq!(board[1][4], CellState::Empty);
}

#[test]
fn solver_run_twice_changes_nothing_more() {
    let mut board = new_board(10, 10);
    for i in 0..10 {
        board[i][3] = CellState::Miss;
    }
    for i in 0..3 {
        board[3][i] = CellState::Miss;
    }
    global_constraint_solver(&mut board, &[4]);
    let once = board.clone();
    global_constraint_solver(&mut board, &[4]);
    assert_eq!(board, once);
}

#[test]
fn shortest_length_of_a_list() {
    assert_eq!(shortest_length(&[]), 0);
    assert_eq!(shortest_length(&[5, 4, 3, 3, 2]), 2);
    assert_eq!(shortest_length(&[2, 3]), 2);
    assert_eq!(shortest_length(&[7]), 7);
}

#[test]
fn ship_may_lie_where_no_miss_is() {
    let mut board = new_board(5, 4);
    board[1][2] = CellState::Miss;
    board[0][0] = CellState::Hit;
    board[0][1] = CellState::Sunk;
    assert!(can_place_ship_at(&board, 0, 0, 5, true));
    assert!(!can_place_ship_at(&board, 0, 1, 5, true));
    assert!(can_place_ship_at(&board, 1, 0, 2, true));
    assert!(!can_place_ship_at(&board, 1, 0, 3, true));
    assert!(can_place_ship_at(&board, 2, 2, 2, false));
    assert!(!can_place_ship_at(&board, 0, 2, 2, false));
    assert!(!can_place_ship_at(&board, 1, 4, 4, false));
    assert!(can_place_ship_at(&board, 0, 4, 4, false));
    assert!(can_place_ship_at(&board, 1, 2, 0, true));
    assert!(!can_place_ship_at(&board, 1, 2, 1, true));
}

#[test]
fn solver_marks_only_cells_without_a_place_for_a_ship() {
    let mut board = new_board(7, 5);
    for x in 0..7 {
        board[2][x] = CellState::Miss;
    }
    board[0][2] = CellState::Miss;
    board[3][4] = CellState::Miss;
    board[1][5] = CellState::Hit;
    let before = board.clone();
    let lengths = [3u8, 4];
    global_constraint_solver(&mut board, &lengths);
    let mut marked = 0;
    for y in 0..5usize {
        for x in 0..7usize {
            if before[y][x] == CellState::Miss || board[y][x] != CellState::Miss {
                continue;
            }
            marked += 1;
            for len in lengths {
                for i in 0..len as usize {
                    if x >= i {
                        assert!(!can_place_ship_at(&before, y, x - i, len, true));
                    }
                    if y >= i {
                        assert!(!can_place_ship_at(&before, y - i, x, len, false));
                    }
                }
            }
        }
    }
    assert_eq!(marked, 0);
    // rows 0 and 1 are joined, and row 1 holds a run of seven
    assert_eq!(board, before);
    let mut tight = before.clone();
    tight[1][2] = CellState::Miss;
    tight[1][6] = CellState::Miss;
    let walled = tight.clone();
    global_constraint_solver(&mut tight, &lengths);
    for y in 0..2 {
        for x in 0..2 {
            assert_eq!(tight[y][x], CellState::Miss);
        }
    }
    assert_eq!(tight[1][5], CellState::Hit);
    assert_eq!(tight[1][3], walled[1][3]);
}
