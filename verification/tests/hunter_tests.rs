use feniks_battleship::grid::{new_board, CellState, Position};
use feniks_battleship::hunter::{
    heat_at, is_consistent, layout_agrees, longest_length, retain_agreeing, score_of,
    InvalidObservation, QuantumHunter, HYPOTHESIS_TARGET, HYPOTHESIS_THRESHOLD,
};

fn ship_layout(w: u8, h: u8, cells: &[(usize, usize)]) -> Vec<Vec<CellState>> {
    let mut layout = new_board(w, h);
    for &(x, y) in cells {
        layout[y][x] = CellState::Sunk;
    }
    layout
}

#[test]
fn best_move_follows_the_only_hypothesis() {
    let mut hunter = QuantumHunter::new_empty(5, 5);
    assert!(hunter.insert_layout(ship_layout(5, 5, &[(0, 0), (1, 0), (2, 0)])));
    assert_eq!(hunter.layouts().len(), 1);
    assert_eq!(hunter.apply_shot(Position { x: 0, y: 0 }, CellState::Hit), Ok(()));
    assert_eq!(hunter.layouts().len(), 1);
    assert_eq!(hunter.known_board()[0][0], CellState::Hit);
    assert_eq!(hunter.find_best_move(), (1, 0));
}

#[test]
fn new_game_best_move_is_a_top_candidate() {
    let hunter = QuantumHunter::with_seed(10, 10, &[5, 4, 3, 3, 2], 11);
    assert!(hunter.layouts().len() > 0);
    assert!(hunter.layouts().len() <= HYPOTHESIS_TARGET);
    let best = hunter.find_best_move();
    let top = hunter.top_candidates();
    assert_eq!(top.len(), 5);
    assert!(top.contains(&best));
    assert_eq!(hunter.known_board()[best.1 as usize][best.0 as usize], CellState::Empty);
    // the candidates are the five cells of the highest combined score
    let total = hunter.layouts().len();
    let mut scored = Vec::new();
    for y in 0..10u8 {
        for x in 0..10u8 {
            let heat = heat_at(hunter.layouts(), Position { x, y });
            scored.push((score_of(heat, total, 5), (x, y)));
        }
    }
    scored.sort_by(|a, b| b.0.cmp(&a.0));
    let expected: Vec<(u8, u8)> = scored.iter().take(5).map(|s| s.1).collect();
    assert_eq!(top, expected);
}

#[test]
fn new_game_with_the_system_seed() {
    let hunter = QuantumHunter::new(10, 10, &[5, 4, 3, 3, 2]);
    assert!(hunter.layouts().len() > HYPOTHESIS_THRESHOLD);
    assert_eq!(hunter.remaining_ship_lengths(), &vec![5, 4, 3, 3, 2]);
    assert_eq!(hunter.known_board(), &new_board(10, 10));
    let (x, y) = hunter.find_best_move();
    assert!(x < 10 && y < 10);
}

#[test]
fn seeded_hunters_play_the_same_game() {
    let lengths = [4u8, 3, 2];
    let mut a = QuantumHunter::with_limits(8, 8, &lengths, 99, 400, 300);
    let mut b = QuantumHunter::with_limits(8, 8, &lengths, 99, 400, 300);
    assert_eq!(a.layouts(), b.layouts());
    for step in 0..6 {
        let shot = a.find_best_move();
        assert_eq!(shot, b.find_best_move());
        let result = if step % 2 == 0 { CellState::Miss } else { CellState::Hit };
        let pos = Position { x: shot.0, y: shot.1 };
        assert_eq!(a.apply_shot(pos, result), Ok(()));
        assert_eq!(b.apply_shot(pos, result), Ok(()));
        assert_eq!(a.layouts(), b.layouts());
        assert_eq!(a.known_board(), b.known_board());
    }
}

#[test]
fn ensemble_agrees_with_every_shot() {
    let lengths = [4u8, 3, 2];
    let mut hunter = QuantumHunter::with_limits(8, 8, &lengths, 5, 500, 400);
    let shots = [
        (Position { x: 0, y: 0 }, CellState::Miss),
        (Position { x: 4, y: 4 }, CellState::Hit),
        (Position { x: 4, y: 5 }, CellState::Hit),
        (Position { x: 7, y: 7 }, CellState::Miss),
        (Position { x: 4, y: 3 }, CellState::Miss),
        (Position { x: 4, y: 6 }, CellState::Sunk),
    ];
    for (n, (pos, result)) in shots.iter().enumerate() {
        assert_eq!(hunter.apply_shot(*pos, *result), Ok(()));
        assert!(hunter.layouts().len() <= 500);
        for layout in hunter.layouts() {
            for (p, r) in &shots[..=n] {
                let cell = layout[p.y as usize][p.x as usize];
                match r {
                    CellState::Miss => assert_eq!(cell, CellState::Empty),
                    _ => assert_eq!(cell, CellState::Sunk),
                }
            }
            assert!(is_consistent(layout, hunter.known_board()));
        }
        for (p, r) in &shots[..=n] {
            assert_eq!(hunter.known_board()[p.y as usize][p.x as usize], *r);
        }
    }
    assert!(hunter.layouts().len() > 0);
}

#[test]
fn shot_outside_the_grid_is_rejected() {
    let mut hunter = QuantumHunter::with_limits(5, 4, &[2], 1, 50, 40);
    let layouts = hunter.layouts().clone();
    assert_eq!(
        hunter.apply_shot(Position { x: 5, y: 0 }, CellState::Miss),
        Err(InvalidObservation::OutsideGrid)
    );
    assert_eq!(
        hunter.apply_shot(Position { x: 0, y: 4 }, CellState::Hit),
        Err(InvalidObservation::OutsideGrid)
    );
    assert_eq!(hunter.known_board(), &new_board(5, 4));
    assert_eq!(hunter.layouts(), &layouts);
    assert_eq!(hunter.apply_shot(Position { x: 4, y: 3 }, CellState::Miss), Ok(()));
}

#[test]
fn contradicting_shot_is_rejected() {
    let mut hunter = QuantumHunter::with_limits(5, 5, &[2], 1, 50, 40);
    assert_eq!(hunter.apply_shot(Position { x: 1, y: 1 }, CellState::Miss), Ok(()));
    assert_eq!(hunter.apply_shot(Position { x: 3, y: 3 }, CellState::Hit), Ok(()));
    let known = hunter.known_board().clone();
    let layouts = hunter.layouts().clone();
    assert_eq!(
        hunter.apply_shot(Position { x: 1, y: 1 }, CellState::Hit),
        Err(InvalidObservation::Contradiction)
    );
    assert_eq!(
        hunter.apply_shot(Position { x: 1, y: 1 }, CellState::Sunk),
        Err(InvalidObservation::Contradiction)
    );
    assert_eq!(
        hunter.apply_shot(Position { x: 3, y: 3 }, CellState::Miss),
        Err(InvalidObservation::Contradiction)
    );
    assert_eq!(hunter.known_board(), &known);
    assert_eq!(hunter.layouts(), &layouts);
    // the same result again, and a hit that turns out sunk, are accepted
    assert_eq!(hunter.apply_shot(Position { x: 1, y: 1 }, CellState::Miss), Ok(()));
    assert_eq!(hunter.apply_shot(Position { x: 3, y: 3 }, CellState::Sunk), Ok(()));
    assert_eq!(hunter.known_board()[3][3], CellState::Sunk);
}

#[test]
fn empty_result_changes_nothing() {
    let mut hunter = QuantumHunter::with_limits(5, 5, &[3], 8, 50, 40);
    assert_eq!(hunter.apply_shot(Position { x: 2, y: 2 }, CellState::Hit), Ok(()));
    let known = hunter.known_board().clone();
    let layouts = hunter.layouts().clone();
    assert_eq!(hunter.apply_shot(Position { x: 2, y: 2 }, CellState::Empty), Ok(()));
    assert_eq!(hunter.apply_shot(Position { x: 0, y: 0 }, CellState::Empty), Ok(()));
    assert_eq!(hunter.known_board(), &known);
    assert_eq!(hunter.layouts(), &layouts);
}

#[test]
fn best_move_without_hypotheses_is_the_origin() {
    let hunter = QuantumHunter::new_empty(10, 10);
    assert_eq!(hunter.layouts().len(), 0);
    assert_eq!(hunter.remaining_ship_lengths().len(), 0);
    assert_eq!(hunter.known_board(), &new_board(10, 10));
    assert_eq!(hunter.find_best_move(), (0, 0));
}

#[test]
fn best_move_without_empty_cells_is_the_origin() {
    let mut hunter = QuantumHunter::new_empty(2, 1);
    assert!(hunter.insert_layout(ship_layout(2, 1, &[(1, 0)])));
    assert_eq!(hunter.apply_shot(Position { x: 0, y: 0 }, CellState::Miss), Ok(()));
    assert_eq!(hunter.apply_shot(Position { x: 1, y: 0 }, CellState::Hit), Ok(()));
    assert_eq!(hunter.layouts().len(), 1);
    assert!(hunter.top_candidates().is_empty());
    assert_eq!(hunter.find_best_move(), (0, 0));
}

#[test]
fn contradicted_ensemble_runs_empty() {
    let mut hunter = QuantumHunter::new_empty(3, 3);
    assert!(hunter.insert_layout(ship_layout(3, 3, &[(0, 0)])));
    assert_eq!(hunter.apply_shot(Position { x: 0, y: 0 }, CellState::Miss), Ok(()));
    // no ship is left to place, so the refill brings empty layouts only
    assert!(hunter.layouts().iter().all(|l| l == &new_board(3, 3)));
    assert_eq!(hunter.apply_shot(Position { x: 1, y: 1 }, CellState::Hit), Ok(()));
    assert_eq!(hunter.layouts().len(), 0);
    assert_eq!(hunter.find_best_move(), (0, 0));
}

#[test]
fn insert_layout_checks_shape_and_known_board() {
    let mut hunter = QuantumHunter::new_empty(4, 4);
    assert!(!hunter.insert_layout(new_board(4, 3)));
    assert!(!hunter.insert_layout(new_board(3, 4)));
    assert!(!hunter.insert_layout(vec![vec![CellState::Empty; 4], vec![CellState::Empty; 3]]));
    assert!(hunter.insert_layout(ship_layout(4, 4, &[(1, 1), (1, 2)])));
    assert_eq!(hunter.apply_shot(Position { x: 1, y: 1 }, CellState::Hit), Ok(()));
    assert!(!hunter.insert_layout(ship_layout(4, 4, &[(3, 3)])));
    assert!(hunter.insert_layout(ship_layout(4, 4, &[(1, 1), (2, 1)])));
    assert_eq!(hunter.layouts().len(), 2);
}

#[test]
fn ensemble_is_refilled_below_the_threshold() {
    let mut hunter = QuantumHunter::with_limits(6, 6, &[3, 2], 21, 200, 200);
    assert_eq!(hunter.layouts().len(), 200);
    assert_eq!(hunter.apply_shot(Position { x: 2, y: 2 }, CellState::Hit), Ok(()));
    let after = hunter.layouts().len();
    assert!(after <= 200);
    for layout in hunter.layouts() {
        assert_eq!(layout[2][2], CellState::Sunk);
        assert_eq!(layout.iter().flatten().filter(|c| **c == CellState::Sunk).count(), 5);
    }
    // with a threshold of 0 nothing is ever added
    let mut lean = QuantumHunter::with_limits(6, 6, &[3, 2], 21, 200, 0);
    let before: Vec<_> = lean.layouts().clone();
    assert_eq!(lean.apply_shot(Position { x: 2, y: 2 }, CellState::Hit), Ok(()));
    let kept: Vec<_> = before.into_iter().filter(|l| l[2][2] == CellState::Sunk).collect();
    assert_eq!(lean.layouts(), &kept);
}

#[test]
fn shot_lets_the_solver_prune_the_known_board() {
    let mut hunter = QuantumHunter::with_limits(5, 1, &[3], 2, 20, 0);
    assert_eq!(hunter.apply_shot(Position { x: 1, y: 0 }, CellState::Miss), Ok(()));
    // left of the miss no ship of three has room, right of it one has
    assert_eq!(
        hunter.known_board(),
        &vec![vec![
            CellState::Miss,
            CellState::Miss,
            CellState::Empty,
            CellState::Empty,
            CellState::Empty
        ]]
    );
    assert!(hunter.layouts().len() > 0);
    for layout in hunter.layouts() {
        assert_eq!(layout, &ship_layout(5, 1, &[(2, 0), (3, 0), (4, 0)]));
    }
    let (x, y) = hunter.find_best_move();
    assert!(x >= 2 && y == 0);
    // a miss in the middle of what is left leaves no room at all
    assert_eq!(hunter.apply_shot(Position { x: 3, y: 0 }, CellState::Miss), Ok(()));
    assert_eq!(hunter.known_board(), &vec![vec![CellState::Miss; 5]]);
    assert_eq!(hunter.layouts().len(), 0);
    assert_eq!(hunter.find_best_move(), (0, 0));
}

#[test]
fn ensemble_is_filled_to_its_target() {
    let hunter = QuantumHunter::with_limits(1, 1, &[], 0, 1234, 0);
    assert_eq!(hunter.layouts().len(), 1234);
    let none = QuantumHunter::with_limits(3, 3, &[2], 0, 0, 0);
    assert_eq!(none.layouts().len(), 0);
    assert_eq!(none.find_best_move(), (0, 0));
}

#[test]
fn initialize_fills_an_empty_hunter() {
    let mut hunter = QuantumHunter::new_empty(2, 2);
    hunter.initialize();
    assert_eq!(hunter.layouts().len(), HYPOTHESIS_TARGET);
    assert!(hunter.layouts().iter().all(|l| l == &new_board(2, 2)));
}

#[test]
fn layout_agrees_with_an_observation() {
    let layout = ship_layout(3, 3, &[(1, 1)]);
    let ship = Position { x: 1, y: 1 };
    let free = Position { x: 0, y: 0 };
    assert!(layout_agrees(&layout, ship, CellState::Hit));
    assert!(layout_agrees(&layout, ship, CellState::Sunk));
    assert!(!layout_agrees(&layout, ship, CellState::Miss));
    assert!(layout_agrees(&layout, ship, CellState::Empty));
    assert!(!layout_agrees(&layout, free, CellState::Hit));
    assert!(!layout_agrees(&layout, free, CellState::Sunk));
    assert!(layout_agrees(&layout, free, CellState::Miss));
    assert!(layout_agrees(&layout, free, CellState::Empty));
}

#[test]
fn retain_agreeing_keeps_order() {
    let a = ship_layout(2, 2, &[(0, 0)]);
    let b = ship_layout(2, 2, &[(1, 1)]);
    let c = ship_layout(2, 2, &[(0, 0), (0, 1)]);
    let all = vec![a.clone(), b.clone(), c.clone()];
    let pos = Position { x: 0, y: 0 };
    assert_eq!(retain_agreeing(all.clone(), pos, CellState::Hit), vec![a.clone(), c.clone()]);
    assert_eq!(retain_agreeing(all.clone(), pos, CellState::Sunk), vec![a, c]);
    assert_eq!(retain_agreeing(all.clone(), pos, CellState::Miss), vec![b]);
    assert_eq!(retain_agreeing(all.clone(), pos, CellState::Empty), all);
}

#[test]
fn heat_counts_the_layouts_with_a_ship() {
    let layouts = vec![
        ship_layout(2, 2, &[(0, 0)]),
        ship_layout(2, 2, &[(1, 1)]),
        ship_layout(2, 2, &[(0, 0), (0, 1)]),
    ];
    assert_eq!(heat_at(&layouts, Position { x: 0, y: 0 }), 2);
    assert_eq!(heat_at(&layouts, Position { x: 0, y: 1 }), 1);
    assert_eq!(heat_at(&layouts, Position { x: 1, y: 0 }), 0);
    assert_eq!(heat_at(&Vec::new(), Position { x: 1, y: 0 }), 0);
}

#[test]
fn combined_score_in_tenths_of_the_ensemble() {
    // p = 0.5: information 1, score 0.8 + 0.1 = 0.9, times 10 * 10
    assert_eq!(score_of(5, 10, 5), 90);
    // p = 0.2: information 0.4, score 0.32 + 0.04 = 0.36
    assert_eq!(score_of(2, 10, 4), 36);
    // p = 0.8: information 0.4, score 0.32 + 0.16 = 0.48
    assert_eq!(score_of(8, 10, 4), 48);
    // even weights once only short ships are left
    assert_eq!(score_of(5, 10, 3), 75);
    assert_eq!(score_of(2, 10, 0), 30);
    assert_eq!(score_of(10, 10, 3), 50);
    assert_eq!(score_of(10, 10, 5), 20);
    assert_eq!(score_of(0, 10, 5), 0);
    assert_eq!(score_of(0, 0, 5), 0);
}

#[test]
fn longest_length_of_a_list() {
    assert_eq!(longest_length(&vec![]), 0);
    assert_eq!(longest_length(&vec![5, 4, 3, 3, 2]), 5);
    assert_eq!(longest_length(&vec![2, 3]), 3);
}

#[test]
fn hunter_with_ships_starts_without_hypotheses() {
    let mut hunter = QuantumHunter::with_ships(5, 1, &[3], 4);
    assert_eq!(hunter.layouts().len(), 0);
    assert_eq!(hunter.remaining_ship_lengths(), &vec![3]);
    assert_eq!(hunter.known_board(), &new_board(5, 1));
    assert_eq!(hunter.find_best_move(), (0, 0));
    assert!(hunter.insert_layout(ship_layout(5, 1, &[(0, 0), (1, 0), (2, 0)])));
    assert!(hunter.insert_layout(ship_layout(5, 1, &[(1, 0), (2, 0), (3, 0)])));
    assert!(hunter.insert_layout(ship_layout(5, 1, &[(1, 0), (2, 0), (3, 0)])));
    // heat 1, 3, 3, 2, 0 of 3: the cell at the half-way mark scores best
    assert_eq!(hunter.top_candidates()[0], (3, 0));
    hunter.initialize();
    assert_eq!(hunter.layouts().len(), HYPOTHESIS_TARGET);
}
