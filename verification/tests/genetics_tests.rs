use feniks_battleship::genetics::{
    calculate_fitness, can_place_ship_individual, elite, evaluate_population, fittest,
    next_generation, copy_fleet, create_random_individual, crossover, crossover_at,
    early_game_stealth_score, is_valid, mutate, orientation_balance_score, run_genetic_algorithm,
    tournament_selection, tournament_winner, GeneticArchitect, Individual,
};
use feniks_battleship::grid::{Position, Ship};
use rand::rngs::StdRng;
use rand::SeedableRng;

fn ship(id: u8, x: u8, y: u8, length: u8, horizontal: bool) -> Ship {
    let mut ship = Ship::new(id, length);
    for i in 0..length {
        let p = if horizontal { Position { x: x + i, y } } else { Position { x, y: y + i } };
        ship.positions.push(p);
    }
    ship
}

fn individual(ships: Vec<Ship>) -> Individual {
    Individual { ships, fitness: 0 }
}

#[test]
fn mod_test_create_random_individual_respects_3x3() {
    let ship_lengths = [5, 4, 3, 3, 2];
    let mut rng = StdRng::seed_from_u64(17);
    let individual = create_random_individual(10, 10, &ship_lengths, &mut rng).expect("a fleet");
    assert!(is_valid(&individual.ships, 10, 10));
}

#[test]
fn valid_fleets_keep_their_distance() {
    let apart = vec![ship(0, 0, 0, 3, true), ship(1, 0, 2, 3, true)];
    assert!(is_valid(&apart, 10, 10));
    let touching = vec![ship(0, 0, 0, 3, true), ship(1, 0, 1, 3, true)];
    assert!(!is_valid(&touching, 10, 10));
    let corner = vec![ship(0, 0, 0, 3, true), ship(1, 3, 1, 2, false)];
    assert!(!is_valid(&corner, 10, 10));
    let crossing = vec![ship(0, 0, 1, 3, true), ship(1, 1, 0, 3, false)];
    assert!(!is_valid(&crossing, 10, 10));
    assert!(is_valid(&Vec::new(), 10, 10));
    assert!(is_valid(&Vec::new(), 0, 0));
}

#[test]
fn valid_fleets_lie_on_the_grid() {
    assert!(is_valid(&vec![ship(0, 7, 9, 3, true)], 10, 10));
    assert!(!is_valid(&vec![ship(0, 8, 9, 3, true)], 10, 10));
    assert!(!is_valid(&vec![ship(0, 0, 8, 3, false)], 10, 10));
    assert!(!is_valid(&vec![ship(0, 0, 0, 1, true)], 0, 0));
    assert!(!is_valid(&vec![ship(0, 0, 0, 1, true)], 5, 0));
}

#[test]
fn valid_ships_are_straight_and_as_long_as_they_say() {
    let mut bent = ship(0, 0, 0, 3, true);
    bent.positions[2] = Position { x: 1, y: 1 };
    assert!(!is_valid(&vec![bent], 10, 10));
    let mut gap = ship(0, 0, 0, 3, true);
    gap.positions[2] = Position { x: 3, y: 0 };
    assert!(!is_valid(&vec![gap], 10, 10));
    let mut backwards = ship(0, 0, 0, 2, true);
    backwards.positions.reverse();
    assert!(!is_valid(&vec![backwards], 10, 10));
    let mut short = ship(0, 0, 0, 3, true);
    short.length = 4;
    assert!(!is_valid(&vec![short], 10, 10));
    let mut diagonal = ship(0, 0, 0, 2, true);
    diagonal.positions[1] = Position { x: 1, y: 1 };
    assert!(!is_valid(&vec![diagonal], 10, 10));
    assert!(is_valid(&vec![ship(0, 4, 4, 1, true)], 10, 10));
    assert!(is_valid(&vec![Ship::new(0, 0)], 10, 10));
}

#[test]
fn stealth_counts_the_misses_of_the_parity_opener() {
    // on ten columns the opener shoots (0,0) (2,0) .. (8,0), (1,1) .. (9,1), (0,2) .. (8,2)
    let clear = individual(vec![ship(0, 0, 9, 5, true)]);
    assert_eq!(early_game_stealth_score(&clear, 10, 10), 15);
    let top_row = individual(vec![ship(0, 0, 0, 5, true)]);
    assert_eq!(early_game_stealth_score(&top_row, 10, 10), 12);
    let column = individual(vec![ship(0, 0, 0, 4, false)]);
    assert_eq!(early_game_stealth_score(&column, 10, 10), 13);
    // the sixteenth shot, at (1, 3), is not simulated
    let late = individual(vec![ship(0, 1, 3, 1, true)]);
    assert_eq!(early_game_stealth_score(&late, 10, 10), 15);
    let last = individual(vec![ship(0, 8, 2, 1, true)]);
    assert_eq!(early_game_stealth_score(&last, 10, 10), 14);
    // a small grid has fewer than fifteen shots
    let small = individual(vec![ship(0, 0, 0, 2, true)]);
    assert_eq!(early_game_stealth_score(&small, 2, 2), 14);
    assert_eq!(early_game_stealth_score(&individual(Vec::new()), 10, 10), 15);
}

#[test]
fn balance_is_best_with_as_many_upright_as_flat_ships() {
    let even = individual(vec![ship(0, 0, 0, 3, true), ship(1, 5, 5, 3, false)]);
    assert_eq!(orientation_balance_score(&even), 2);
    let flat = individual(vec![ship(0, 0, 0, 3, true), ship(1, 0, 5, 3, true)]);
    assert_eq!(orientation_balance_score(&flat), 0);
    let three = individual(vec![
        ship(0, 0, 0, 3, true),
        ship(1, 5, 5, 3, false),
        ship(2, 8, 0, 3, false),
    ]);
    assert_eq!(orientation_balance_score(&three), 2);
    // a ship of one cell counts as flat
    let single = individual(vec![ship(0, 0, 0, 1, false), ship(1, 5, 5, 2, false)]);
    assert_eq!(orientation_balance_score(&single), 2);
    assert_eq!(orientation_balance_score(&individual(Vec::new())), 0);
}

#[test]
fn fitness_weighs_stealth_and_balance() {
    // two ships, no hit, balanced: 0.70 + 0.15 = 0.85, times 300 * 2
    let best = individual(vec![ship(0, 0, 9, 3, true), ship(1, 9, 5, 3, false)]);
    assert_eq!(calculate_fitness(&best, 10, 10), 510);
    // three hits, all flat: 0.70 * 12 / 15 = 0.56, times 300 * 2
    let found = individual(vec![ship(0, 0, 0, 5, true), ship(1, 0, 9, 3, true)]);
    assert_eq!(calculate_fitness(&found, 10, 10), 336);
    // no ship: stealth alone, 0.70 times 300
    assert_eq!(calculate_fitness(&individual(Vec::new()), 10, 10), 210);
}

#[test]
fn tournament_goes_to_the_fittest_pick() {
    let mut population = Vec::new();
    for fitness in [10u64, 50, 30, 50, 20] {
        population.push(Individual { ships: Vec::new(), fitness });
    }
    assert_eq!(tournament_winner(&population, &vec![0, 2, 4]), 2);
    assert_eq!(tournament_winner(&population, &vec![3, 1, 0]), 3);
    assert_eq!(tournament_winner(&population, &vec![1, 3]), 1);
    assert_eq!(tournament_winner(&population, &vec![4]), 4);
    assert_eq!(tournament_winner(&population, &vec![0, 0, 0, 0, 0]), 0);
    let mut rng = StdRng::seed_from_u64(3);
    for _ in 0..100 {
        assert!(tournament_selection(&population, &mut rng) < 5);
    }
    let alone = vec![Individual { ships: Vec::new(), fitness: 1 }];
    assert_eq!(tournament_selection(&alone, &mut rng), 0);
}

#[test]
fn crossover_splices_the_parents() {
    let first = individual(vec![ship(0, 0, 0, 3, true), ship(1, 0, 2, 2, true)]);
    let second = individual(vec![ship(0, 6, 6, 3, false), ship(1, 0, 8, 2, true)]);
    let child = crossover_at(&first, &second, 1, 10, 10).expect("a legal child");
    assert_eq!(child.fitness, 0);
    assert_eq!(child.ships.len(), 2);
    assert_eq!(child.ships[0].positions, first.ships[0].positions);
    assert_eq!(child.ships[1].positions, second.ships[1].positions);
    let whole = crossover_at(&first, &second, 0, 10, 10).expect("the second parent");
    assert_eq!(whole.ships[0].positions, second.ships[0].positions);
    assert_eq!(whole.ships[1].positions, second.ships[1].positions);
    let other = crossover_at(&first, &second, 2, 10, 10).expect("the first parent");
    assert_eq!(other.ships[1].positions, first.ships[1].positions);
    // the first ship of one parent touches the second ship of the other
    let near = individual(vec![ship(0, 6, 6, 3, false), ship(1, 0, 1, 2, true)]);
    assert!(crossover_at(&first, &near, 1, 10, 10).is_none());
}

#[test]
fn children_and_mutants_are_legal_fleets() {
    let lengths = [4u8, 3, 2];
    let mut rng = StdRng::seed_from_u64(77);
    let a = create_random_individual(8, 8, &lengths, &mut rng).expect("a fleet");
    let b = create_random_individual(8, 8, &lengths, &mut rng).expect("a fleet");
    for _ in 0..50 {
        let child = crossover(&a, &b, 8, 8, &lengths, &mut rng);
        assert!(is_valid(&child.ships, 8, 8));
        assert_eq!(child.ships.iter().map(|s| s.length).collect::<Vec<u8>>(), lengths);
        let mutant = mutate(child, 8, 8, &lengths, &mut rng);
        assert!(is_valid(&mutant.ships, 8, 8));
        assert_eq!(mutant.ships.iter().map(|s| s.length).collect::<Vec<u8>>(), lengths);
    }
}

#[test]
fn random_individual_gives_up_on_an_impossible_fleet() {
    let mut rng = StdRng::seed_from_u64(1);
    assert!(create_random_individual(3, 3, &[5], &mut rng).is_none());
    let none = create_random_individual(3, 3, &[], &mut rng).expect("an empty fleet");
    assert!(none.ships.is_empty());
}

#[test]
fn copy_fleet_copies_every_ship() {
    let mut fleet = vec![ship(4, 0, 0, 3, true), ship(9, 5, 5, 2, false)];
    fleet[0].hits = 2;
    let copy = copy_fleet(&fleet);
    assert_eq!(copy.len(), 2);
    for (a, b) in fleet.iter().zip(copy.iter()) {
        assert_eq!(a.id, b.id);
        assert_eq!(a.length, b.length);
        assert_eq!(a.hits, b.hits);
        assert_eq!(a.positions, b.positions);
    }
}

fn cells(fleet: &Vec<Ship>) -> Vec<Vec<Position>> {
    fleet.iter().map(|s| s.positions.clone()).collect()
}

#[test]
fn architect_returns_a_legal_fleet_and_repeats_with_its_seed() {
    let lengths = vec![5u8, 4, 3, 3, 2];
    let architect = GeneticArchitect::with_seed(10, 10, lengths.clone(), 42);
    let fleet = architect.generate_best_layout(30, 50).expect("a fleet");
    assert!(is_valid(&fleet, 10, 10));
    assert_eq!(fleet.iter().map(|s| s.length).collect::<Vec<u8>>(), lengths);
    let again = architect.generate_best_layout(30, 50).expect("a fleet");
    assert_eq!(cells(&fleet), cells(&again));
    let twin = GeneticArchitect::with_seed(10, 10, lengths, 42);
    let third = twin.generate_best_layout(30, 50).expect("a fleet");
    assert_eq!(cells(&fleet), cells(&third));
}

#[test]
fn architect_does_not_lose_its_best_fleet() {
    let lengths = vec![4u8, 3, 2];
    let architect = GeneticArchitect::with_seed(8, 8, lengths, 7);
    let start = architect.generate_best_layout(0, 20).expect("a fleet");
    let later = architect.generate_best_layout(10, 20).expect("a fleet");
    let before = calculate_fitness(&Individual { ships: start, fitness: 0 }, 8, 8);
    let after = calculate_fitness(&Individual { ships: later, fitness: 0 }, 8, 8);
    assert!(after >= before);
}

#[test]
fn architect_edge_cases() {
    let architect = GeneticArchitect::with_seed(10, 10, vec![3, 2], 1);
    assert!(architect.generate_best_layout(5, 0).is_none());
    let one = architect.generate_best_layout(3, 1).expect("a fleet");
    assert!(is_valid(&one, 10, 10));
    let few = architect.generate_best_layout(3, 3).expect("a fleet");
    assert!(is_valid(&few, 10, 10));
    let cramped = GeneticArchitect::with_seed(2, 2, vec![3], 1);
    assert!(cramped.generate_best_layout(5, 10).is_none());
    let idle = GeneticArchitect::with_seed(4, 4, Vec::new(), 1);
    assert_eq!(idle.generate_best_layout(2, 4).expect("an empty fleet").len(), 0);
}

#[test]
fn usual_search_returns_a_legal_fleet() {
    let fleet = run_genetic_algorithm(10, 10, &[5, 4, 3, 3, 2]).expect("a fleet");
    assert!(is_valid(&fleet, 10, 10));
    assert_eq!(fleet.len(), 5);
    let unseeded = GeneticArchitect::new(10, 10, vec![3, 2]);
    assert!(is_valid(&unseeded.generate_best_layout(2, 5).expect("a fleet"), 10, 10));
}

#[test]
fn ship_keeps_clear_of_a_fleet() {
    let fleet = vec![ship(0, 0, 0, 3, true), ship(1, 5, 5, 2, false)];
    assert!(can_place_ship_individual(&fleet, &ship(2, 0, 2, 3, true), 10, 10));
    assert!(!can_place_ship_individual(&fleet, &ship(2, 0, 1, 3, true), 10, 10));
    assert!(!can_place_ship_individual(&fleet, &ship(2, 3, 1, 2, true), 10, 10));
    assert!(!can_place_ship_individual(&fleet, &ship(2, 4, 7, 1, true), 10, 10));
    assert!(can_place_ship_individual(&fleet, &ship(2, 3, 7, 1, true), 10, 10));
    assert!(!can_place_ship_individual(&fleet, &ship(2, 1, 0, 1, true), 10, 10));
    assert!(can_place_ship_individual(&Vec::new(), &ship(2, 1, 0, 1, true), 10, 10));
    assert!(can_place_ship_individual(&fleet, &Ship::new(2, 3), 10, 10));
}

#[test]
fn mutant_is_a_newly_placed_fleet() {
    let lengths = [3u8, 2];
    let mut rng = StdRng::seed_from_u64(9);
    let mut worn = vec![ship(7, 0, 0, 3, true), ship(9, 0, 2, 2, true)];
    worn[0].hits = 2;
    let mutant = mutate(Individual { ships: worn, fitness: 400 }, 8, 8, &lengths, &mut rng);
    assert_eq!(mutant.fitness, 0);
    assert_eq!(mutant.ships.len(), 2);
    for (i, s) in mutant.ships.iter().enumerate() {
        assert_eq!(s.id as usize, i);
        assert_eq!(s.hits, 0);
        assert_eq!(s.length, lengths[i]);
    }
    assert!(is_valid(&mutant.ships, 8, 8));
}

#[test]
fn mutation_keeps_the_individual_where_no_fleet_can_be_placed() {
    let mut rng = StdRng::seed_from_u64(9);
    let mut idle = Ship::new(5, 0);
    idle.hits = 1;
    let kept = mutate(Individual { ships: vec![idle], fitness: 12 }, 0, 0, &[0], &mut rng);
    assert_eq!(kept.fitness, 12);
    assert_eq!(kept.ships.len(), 1);
    assert_eq!(kept.ships[0].id, 5);
    assert_eq!(kept.ships[0].hits, 1);
}

#[test]
fn random_individual_is_numbered_by_place() {
    let mut rng = StdRng::seed_from_u64(4);
    let made = create_random_individual(10, 10, &[5, 4, 3, 3, 2], &mut rng).expect("a fleet");
    for (i, s) in made.ships.iter().enumerate() {
        assert_eq!(s.id as usize, i);
        assert_eq!(s.hits, 0);
    }
    assert_eq!(made.fitness, 0);
}

#[test]
fn tournament_among_equals_and_with_one_champion() {
    let mut rng = StdRng::seed_from_u64(12);
    let mut population = Vec::new();
    for fitness in [1u64, 1, 900, 1] {
        population.push(Individual { ships: Vec::new(), fitness });
    }
    let mut champion = 0;
    for _ in 0..200 {
        let index = tournament_selection(&population, &mut rng);
        assert!(index < 4);
        if index == 2 {
            champion += 1;
        }
    }
    // five picks out of four meet the champion in three tournaments of four
    assert!(champion > 100);
}

#[test]
fn usual_search_on_fleets_that_decide_themselves() {
    assert!(run_genetic_algorithm(3, 3, &[4]).is_none());
    assert!(run_genetic_algorithm(0, 5, &[1]).is_none());
    assert_eq!(run_genetic_algorithm(5, 5, &[]).expect("an empty fleet").len(), 0);
    let idle = run_genetic_algorithm(5, 5, &[0, 0]).expect("ships without cells");
    assert_eq!(idle.len(), 2);
    assert!(idle.iter().all(|s| s.positions.is_empty()));
}

#[test]
fn crossover_child_is_a_splice_or_a_new_fleet() {
    let lengths = [3u8, 2, 2];
    let mut rng = StdRng::seed_from_u64(31);
    let a = create_random_individual(7, 7, &lengths, &mut rng).expect("a fleet");
    let b = create_random_individual(7, 7, &lengths, &mut rng).expect("a fleet");
    let mut splices = 0;
    for _ in 0..100 {
        let child = crossover(&a, &b, 7, 7, &lengths, &mut rng);
        assert_eq!(child.fitness, 0);
        let mut matched = false;
        for point in 0..3 {
            let mut want = cells(&a.ships)[..point].to_vec();
            want.extend_from_slice(&cells(&b.ships)[point..]);
            let mut spliced: Vec<Ship> = Vec::new();
            for (i, positions) in want.iter().enumerate() {
                let mut s = Ship::new(i as u8, lengths[i]);
                s.positions = positions.clone();
                spliced.push(s);
            }
            if is_valid(&spliced, 7, 7) && cells(&child.ships) == want {
                matched = true;
            }
        }
        if matched {
            splices += 1;
        } else {
            // a fleet that the generator placed: numbered by place, without a hit
            for (i, s) in child.ships.iter().enumerate() {
                assert_eq!(s.id as usize, i);
                assert_eq!(s.hits, 0);
            }
        }
    }
    // the split before the first ship always gives the second parent
    assert!(splices > 0);
    let none = Individual { ships: Vec::new(), fitness: 77 };
    let copy = crossover(&none, &none, 7, 7, &[], &mut rng);
    assert_eq!(copy.fitness, 77);
    assert!(copy.ships.is_empty());
}

#[test]
fn elite_holds_the_best_in_order() {
    let mut population = Vec::new();
    for (i, fitness) in [10u64, 50, 30, 50, 20].iter().enumerate() {
        population.push(Individual { ships: vec![ship(0, i as u8, 0, 1, true)], fitness: *fitness });
    }
    let scores = vec![10u64, 50, 30, 50, 20];
    let best = elite(&population, &scores, 3);
    assert_eq!(best.len(), 3);
    assert_eq!(best.iter().map(|b| b.fitness).collect::<Vec<u64>>(), vec![50, 50, 30]);
    assert_eq!(best[0].ships[0].positions[0], Position { x: 1, y: 0 });
    assert_eq!(best[1].ships[0].positions[0], Position { x: 3, y: 0 });
    assert_eq!(best[2].ships[0].positions[0], Position { x: 2, y: 0 });
    assert_eq!(elite(&population, &scores, 9).len(), 5);
    assert!(elite(&population, &scores, 0).is_empty());
}

#[test]
fn fittest_is_the_first_of_the_best() {
    let hidden = individual(vec![ship(0, 0, 9, 3, true), ship(1, 9, 5, 3, false)]);
    let found = individual(vec![ship(0, 0, 0, 5, true), ship(1, 0, 9, 3, true)]);
    let twin = individual(vec![ship(0, 0, 9, 3, true), ship(1, 9, 5, 3, false)]);
    let population = vec![found, hidden, twin];
    assert_eq!(evaluate_population(&population, 10, 10), vec![336, 510, 510]);
    assert_eq!(fittest(&population, 10, 10), 1);
}

#[test]
fn next_generation_keeps_the_elite() {
    let lengths = [4u8, 3, 2];
    let mut rng = StdRng::seed_from_u64(5);
    let mut population = Vec::new();
    for _ in 0..12 {
        population.push(create_random_individual(8, 8, &lengths, &mut rng).expect("a fleet"));
    }
    let scores = evaluate_population(&population, 8, 8);
    let mut ranked: Vec<usize> = (0..12).collect();
    ranked.sort_by(|a, b| scores[*b].cmp(&scores[*a]));
    let next = next_generation(&population, 8, 8, &lengths, &mut rng);
    assert_eq!(next.len(), 12);
    for i in 0..5 {
        assert_eq!(cells(&next[i].ships), cells(&population[ranked[i]].ships));
        assert_eq!(next[i].fitness, scores[ranked[i]]);
    }
    for one in &next {
        assert!(is_valid(&one.ships, 8, 8));
    }
    let after = evaluate_population(&next, 8, 8);
    assert!(after.iter().max() >= scores.iter().max());
    // a population smaller than the elite passes whole
    let few = vec![
        create_random_individual(8, 8, &lengths, &mut rng).expect("a fleet"),
        create_random_individual(8, 8, &lengths, &mut rng).expect("a fleet"),
    ];
    let same = next_generation(&few, 8, 8, &lengths, &mut rng);
    let order = if evaluate_population(&few, 8, 8)[1] > evaluate_population(&few, 8, 8)[0] {
        [1, 0]
    } else {
        [0, 1]
    };
    assert_eq!(cells(&same[0].ships), cells(&few[order[0]].ships));
    assert_eq!(cells(&same[1].ships), cells(&few[order[1]].ships));
}
