use feniks_battleship::grid::{new_board, CellState, Position, Ship};
use feniks_battleship::layout::{
    can_place_ship, generate_layout_with, generate_random_valid_layout, place_fleet, try_place,
};
use rand::rngs::StdRng;
use rand::SeedableRng;

#[test]
fn test_can_place_ship_3x3_rule_adjacent() {
    let mut board = vec![vec![CellState::Empty; 10]; 10];
    board[2][2] = CellState::Sunk;
    assert!(!can_place_ship(&board, 3, Position { x: 2, y: 3 }, true));
}

#[test]
fn test_can_place_ship_3x3_rule_diagonal() {
    let mut board = vec![vec![CellState::Empty; 10]; 10];
    board[2][2] = CellState::Sunk;
    assert!(!can_place_ship(&board, 3, Position { x: 3, y: 3 }, true));
}

#[test]
fn test_can_place_ship_3x3_rule_valid() {
    let mut board = vec![vec![CellState::Empty; 10]; 10];
    board[2][2] = CellState::Sunk;
    assert!(can_place_ship(&board, 3, Position { x: 4, y: 2 }, true));
}

#[test]
fn test_generate_layout_succeeds_with_3x3() {
    let ship_lengths = [5, 4, 3, 3, 2];
    let layout = generate_random_valid_layout(10, 10, &ship_lengths);
    assert!(layout.is_some());
}

#[test]
fn mod_test_can_place_ship_3x3_genetics() {
    let mut board = vec![vec![false; 10]; 10];
    board[2][2] = true;
    assert!(!can_place_ship(&board, 3, Position { x: 3, y: 3 }, true));
    assert!(can_place_ship(&board, 3, Position { x: 4, y: 2 }, true));
}

#[test]
fn ship_has_to_fit_on_the_board() {
    let board = new_board(10, 10);
    assert!(can_place_ship(&board, 5, Position { x: 5, y: 0 }, true));
    assert!(!can_place_ship(&board, 5, Position { x: 6, y: 0 }, true));
    assert!(can_place_ship(&board, 5, Position { x: 0, y: 5 }, false));
    assert!(!can_place_ship(&board, 5, Position { x: 0, y: 6 }, false));
    assert!(!can_place_ship(&board, 1, Position { x: 10, y: 0 }, false));
    assert!(!can_place_ship(&board, 1, Position { x: 0, y: 10 }, true));
    assert!(can_place_ship(&board, 1, Position { x: 9, y: 9 }, true));
}

#[test]
fn ship_without_cells_fits_anywhere() {
    let board = vec![vec![CellState::Sunk; 3]; 3];
    assert!(can_place_ship(&board, 0, Position { x: 1, y: 1 }, true));
    assert!(can_place_ship(&board, 0, Position { x: 200, y: 200 }, false));
    let none: Vec<Vec<CellState>> = Vec::new();
    assert!(can_place_ship(&none, 0, Position { x: 0, y: 0 }, true));
    assert!(!can_place_ship(&none, 1, Position { x: 0, y: 0 }, true));
}

#[test]
fn any_taken_cell_nearby_blocks_a_ship() {
    for state in [CellState::Miss, CellState::Hit, CellState::Sunk] {
        let mut board = new_board(6, 6);
        board[3][3] = state;
        // vertical ship of three from (2, 0): its last cell touches (3, 3) by a corner
        assert!(!can_place_ship(&board, 3, Position { x: 2, y: 0 }, false));
        assert!(can_place_ship(&board, 2, Position { x: 2, y: 0 }, false));
        assert!(can_place_ship(&board, 3, Position { x: 1, y: 0 }, false));
    }
}

#[test]
fn try_place_writes_the_ship_and_records_it() {
    let mut board = new_board(6, 6);
    let mut ships: Vec<Ship> = Vec::new();
    assert!(try_place(&mut board, &mut ships, 3, Position { x: 1, y: 2 }, true));
    assert_eq!(ships.len(), 1);
    assert_eq!(ships[0].id, 0);
    assert_eq!(ships[0].length, 3);
    assert_eq!(ships[0].hits, 0);
    assert_eq!(
        ships[0].positions,
        vec![Position { x: 1, y: 2 }, Position { x: 2, y: 2 }, Position { x: 3, y: 2 }]
    );
    for y in 0..6 {
        for x in 0..6 {
            let expected = if y == 2 && (1..=3).contains(&x) {
                CellState::Sunk
            } else {
                CellState::Empty
            };
            assert_eq!(board[y][x], expected);
        }
    }
    // a second ship next to the first is refused, and nothing changes
    let before = board.clone();
    assert!(!try_place(&mut board, &mut ships, 2, Position { x: 4, y: 3 }, false));
    assert_eq!(board, before);
    assert_eq!(ships.len(), 1);
    // two cells away it is taken, as the second ship
    assert!(try_place(&mut board, &mut ships, 2, Position { x: 5, y: 3 }, false));
    assert_eq!(ships[1].id, 1);
    assert_eq!(ships[1].positions, vec![Position { x: 5, y: 3 }, Position { x: 5, y: 4 }]);
}

fn assert_legal_layout(board: &Vec<Vec<CellState>>, ships: &Vec<Ship>, lengths: &[u8], w: usize, h: usize) {
    assert_eq!(board.len(), h);
    assert_eq!(ships.len(), lengths.len());
    let mut occupied = vec![vec![false; w]; h];
    for (i, ship) in ships.iter().enumerate() {
        assert_eq!(ship.length, lengths[i]);
        assert_eq!(ship.positions.len(), lengths[i] as usize);
        assert_eq!(ship.id as usize, i);
        let across = ship.positions.windows(2).all(|p| p[1].x == p[0].x + 1 && p[1].y == p[0].y);
        let down = ship.positions.windows(2).all(|p| p[1].y == p[0].y + 1 && p[1].x == p[0].x);
        assert!(across || down);
        for p in &ship.positions {
            assert!((p.x as usize) < w && (p.y as usize) < h);
            occupied[p.y as usize][p.x as usize] = true;
        }
    }
    for (i, a) in ships.iter().enumerate() {
        for (j, b) in ships.iter().enumerate() {
            if i != j {
                for p in &a.positions {
                    for q in &b.positions {
                        let dx = (p.x as i16 - q.x as i16).abs();
                        let dy = (p.y as i16 - q.y as i16).abs();
                        assert!(dx > 1 || dy > 1);
                    }
                }
            }
        }
    }
    for y in 0..h {
        assert_eq!(board[y].len(), w);
        for x in 0..w {
            let expected = if occupied[y][x] { CellState::Sunk } else { CellState::Empty };
            assert_eq!(board[y][x], expected);
        }
    }
}

#[test]
fn placed_fleets_are_legal() {
    let lengths = [5u8, 4, 3, 3, 2];
    for seed in 0..50u64 {
        let mut rng = StdRng::seed_from_u64(seed);
        let (board, ships) = place_fleet(10, 10, &lengths, &mut rng).expect("a fleet");
        assert_legal_layout(&board, &ships, &lengths, 10, 10);
    }
}

#[test]
fn seeded_layouts_repeat() {
    let lengths = [5u8, 4, 3, 3, 2];
    let mut first = StdRng::seed_from_u64(2024);
    let mut second = StdRng::seed_from_u64(2024);
    for _ in 0..20 {
        let a = generate_layout_with(&mut first, 10, 10, &lengths);
        let b = generate_layout_with(&mut second, 10, 10, &lengths);
        assert!(a.is_some());
        assert_eq!(a, b);
    }
}

#[test]
fn layout_holds_as_many_ship_cells_as_the_fleet_has() {
    let mut rng = StdRng::seed_from_u64(5);
    let layout = generate_layout_with(&mut rng, 10, 10, &[5, 4, 3, 3, 2]).expect("a layout");
    let cells = layout.iter().flatten().filter(|c| **c == CellState::Sunk).count();
    assert_eq!(cells, 17);
    let empty = layout.iter().flatten().filter(|c| **c == CellState::Empty).count();
    assert_eq!(empty, 83);
}

#[test]
fn generation_is_exhausted_when_the_fleet_cannot_fit() {
    let mut rng = StdRng::seed_from_u64(1);
    assert!(generate_layout_with(&mut rng, 3, 3, &[4]).is_none());
    assert!(generate_layout_with(&mut rng, 2, 2, &[1, 1]).is_none());
    assert!(generate_layout_with(&mut rng, 0, 5, &[1]).is_none());
    assert!(generate_layout_with(&mut rng, 5, 0, &[1]).is_none());
}

#[test]
fn empty_fleet_gives_an_empty_layout() {
    let mut rng = StdRng::seed_from_u64(1);
    assert_eq!(generate_layout_with(&mut rng, 4, 3, &[]), Some(new_board(4, 3)));
    assert_eq!(generate_layout_with(&mut rng, 0, 0, &[]), Some(new_board(0, 0)));
    assert_eq!(generate_random_valid_layout(2, 2, &[]), Some(new_board(2, 2)));
}

#[test]
fn single_cell_grid_takes_a_single_cell_ship() {
    // every draw of a coordinate has to be 0 here
    for seed in 0..20u64 {
        let mut rng = StdRng::seed_from_u64(seed);
        let layout = generate_layout_with(&mut rng, 1, 1, &[1]).expect("a layout");
        assert_eq!(layout, vec![vec![CellState::Sunk]]);
    }
}

#[test]
fn fleet_that_fills_a_row_is_found() {
    let mut rng = StdRng::seed_from_u64(3);
    let (board, ships) = place_fleet(4, 1, &[4], &mut rng).expect("a fleet");
    assert_eq!(board, vec![vec![CellState::Sunk; 4]]);
    assert_eq!(ships[0].positions[0], Position { x: 0, y: 0 });
}
