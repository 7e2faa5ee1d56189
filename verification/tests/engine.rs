use genetic_sudoku::errors::ConfigError;
use genetic_sudoku::genetics::inner::{make_children, make_parents, natural_selection, next_generation};
use genetic_sudoku::genetics::{GAParams, Rate, generate_initial_population, run_simulation, MAX_POPULATION};
use genetic_sudoku::sudoku::{Board, Row};
use rand::SeedableRng;
use rand_pcg::Pcg64Mcg;

fn uniform_board(n: usize, digit: u8) -> Board {
    Board((0..n).map(|_| Row(vec![digit; n])).collect())
}

#[test]
fn params_reject_population_over_the_cap() {
    let result = GAParams::new(
        MAX_POPULATION + 1,
        Rate::new(1, 2),
        Rate::new(1, 20),
        None,
    );
    assert_eq!(result.unwrap_err(), ConfigError::PopulationTooLarge);
}

#[test]
fn params_reject_selection_without_parent_pairs() {
    // floor(2 * 0.1) = 0 survivors: no pair can breed.
    let result = GAParams::new(2, Rate::new(1, 10), Rate::new(1, 20), None);
    assert_eq!(result.unwrap_err(), ConfigError::NoParentPairs);
}

#[test]
fn params_derive_survivors_by_floor() {
    let params = GAParams::new(7, Rate::new(1, 2), Rate::new(1, 20), None).unwrap();
    assert_eq!(3, params.num_survivors); // floor(7 * 0.5)
    assert_eq!(7, params.num_children_per_parent_pairs); // 7 / (3 / 2)
}

#[test]
fn initial_population_has_full_boards_in_range() {
    let params = GAParams::new(10, Rate::new(1, 2), Rate::new(1, 20), None).unwrap();
    let mut rng = Pcg64Mcg::seed_from_u64(7);
    let population = generate_initial_population(&params, 4, &mut rng);
    assert_eq!(10, population.len());
    let mut seen_digits = [false; 5];
    for board in &population {
        assert_eq!(4, board.0.len());
        for row in &board.0 {
            assert_eq!(4, row.0.len());
            for &cell in &row.0 {
                assert!((1..=4).contains(&cell));
                seen_digits[cell as usize] = true;
            }
        }
    }
    // A uniform draw over 160 cells leaves no digit of 1..=4 unseen.
    assert!(seen_digits[1] && seen_digits[2] && seen_digits[3] && seen_digits[4]);
}

#[test]
fn selection_keeps_the_fittest_fraction() {
    let params = GAParams::new(6, Rate::new(1, 2), Rate::new(1, 20), None).unwrap();
    assert_eq!(3, params.num_survivors); // floor(6 * 0.5)
    let scored = vec![
        (uniform_board(4, 5), 5),
        (uniform_board(4, 9), 0),
        (uniform_board(4, 7), 3),
        (uniform_board(4, 8), 2),
        (uniform_board(4, 6), 9),
        (uniform_board(4, 4), 1),
    ];
    let survivors = natural_selection(&params, scored);
    assert_eq!(3, survivors.len());
    // The three lowest scores were 0, 1 and 2, in boards 9, 4 and 8.
    assert_eq!(uniform_board(4, 9), survivors[0]);
    assert_eq!(uniform_board(4, 4), survivors[1]);
    assert_eq!(uniform_board(4, 8), survivors[2]);
}

#[test]
fn selection_breaks_score_ties_stably() {
    let params = GAParams::new(4, Rate::new(1, 1), Rate::new(1, 20), None).unwrap();
    assert_eq!(4, params.num_survivors);
    let scored = vec![
        (uniform_board(4, 1), 2),
        (uniform_board(4, 2), 1),
        (uniform_board(4, 3), 2),
        (uniform_board(4, 4), 1),
    ];
    let survivors = natural_selection(&params, scored);
    // Equal scores keep their input order.
    assert_eq!(uniform_board(4, 2), survivors[0]);
    assert_eq!(uniform_board(4, 4), survivors[1]);
    assert_eq!(uniform_board(4, 1), survivors[2]);
    assert_eq!(uniform_board(4, 3), survivors[3]);
}

#[test]
fn pairing_splits_survivors_and_drops_the_odd_one() {
    let survivors = vec![
        uniform_board(2, 1),
        uniform_board(2, 2),
        uniform_board(2, 3),
        uniform_board(2, 4),
        uniform_board(2, 5),
    ];
    let pairs = make_parents(survivors);
    assert_eq!(2, pairs.len());
    assert_eq!(uniform_board(2, 1), pairs[0].0);
    assert_eq!(uniform_board(2, 2), pairs[0].1);
    assert_eq!(uniform_board(2, 3), pairs[1].0);
    assert_eq!(uniform_board(2, 4), pairs[1].1);
}

#[test]
fn crossover_without_mutation_only_inherits() {
    let params = GAParams::new(8, Rate::new(1, 2), Rate::new(0, 1), None).unwrap();
    let parent_x = uniform_board(4, 1);
    let parent_y = uniform_board(4, 2);
    let mut rng = Pcg64Mcg::seed_from_u64(11);
    let children = make_children(&params, &parent_x, &parent_y, &mut rng);
    assert_eq!(params.num_children_per_parent_pairs, children.len());
    let mut saw_x = false;
    let mut saw_y = false;
    for child in &children {
        for row in &child.0 {
            for &cell in &row.0 {
                assert!(cell == 1 || cell == 2);
                saw_x = saw_x || cell == 1;
                saw_y = saw_y || cell == 2;
            }
        }
    }
    // The coin flips mix both parents over this many cells.
    assert!(saw_x && saw_y);
}

#[test]
fn crossover_with_full_mutation_redraws_every_cell() {
    let params = GAParams::new(8, Rate::new(1, 2), Rate::new(1, 1), None).unwrap();
    let parent_x = uniform_board(4, 1);
    let parent_y = uniform_board(4, 1);
    let mut rng = Pcg64Mcg::seed_from_u64(13);
    let children = make_children(&params, &parent_x, &parent_y, &mut rng);
    let mut counts = [0usize; 5];
    for child in &children {
        for row in &child.0 {
            for &cell in &row.0 {
                assert!((1..=4).contains(&cell));
                counts[cell as usize] += 1;
            }
        }
    }
    // A uniform redraw over 128 cells hits every digit; pure inheritance
    // would have left everything at 1.
    assert!(counts[2] > 0 && counts[3] > 0 && counts[4] > 0);
}

#[test]
fn simulation_returns_a_zero_score_overlay() {
    let params = GAParams::new(2, Rate::new(1, 1), Rate::new(1, 20), None).unwrap();
    let base = Board(vec![
        Row(vec![1, 0, 0, 4]),
        Row(vec![0, 4, 1, 2]),
        Row(vec![0, 3, 0, 1]),
        Row(vec![2, 0, 4, 0]),
    ]);
    let solving = Board(vec![
        Row(vec![1, 2, 3, 4]),
        Row(vec![3, 4, 1, 2]),
        Row(vec![4, 3, 2, 1]),
        Row(vec![2, 1, 4, 3]),
    ]);
    let population = vec![uniform_board(4, 1), solving.clone()];
    let mut rng = Pcg64Mcg::seed_from_u64(3);
    let solution = run_simulation(&params, 0, &base, population, &mut rng).unwrap();
    assert_eq!(solving, solution);
    assert_eq!(0, solution.fitness());
}

#[test]
fn simulation_without_solution_hands_back_a_next_generation() {
    let params = GAParams::new(4, Rate::new(1, 2), Rate::new(1, 20), None).unwrap();
    let base = uniform_board(4, 0);
    let population = vec![
        uniform_board(4, 1),
        uniform_board(4, 2),
        uniform_board(4, 3),
        uniform_board(4, 4),
    ];
    let mut rng = Pcg64Mcg::seed_from_u64(5);
    let no_solution = run_simulation(&params, 0, &base, population, &mut rng).unwrap_err();
    // 2 survivors, 1 pair, 4 / 1 children.
    assert_eq!(4, no_solution.next_generation.len());
    for board in &no_solution.next_generation {
        assert_eq!(4, board.0.len());
    }
}

#[test]
fn restart_discards_the_evolved_population() {
    // Mutation zero and identical all-ones parents: without a restart every
    // child cell would stay 1.
    let params = GAParams::new(8, Rate::new(1, 2), Rate::new(0, 1), Some(1)).unwrap();
    let scored: Vec<(Board, u32)> = (0..8).map(|_| (uniform_board(4, 1), 1)).collect();
    let mut rng = Pcg64Mcg::seed_from_u64(17);
    let next = next_generation(&params, 1, scored, &mut rng);
    assert_eq!(8, next.len());
    let mut saw_other = false;
    for board in &next {
        for row in &board.0 {
            for &cell in &row.0 {
                assert!((1..=4).contains(&cell));
                saw_other = saw_other || cell != 1;
            }
        }
    }
    assert!(saw_other);
}

#[test]
fn no_restart_with_zero_mutation_keeps_parent_cells() {
    let params = GAParams::new(8, Rate::new(1, 2), Rate::new(0, 1), Some(3)).unwrap();
    let scored: Vec<(Board, u32)> = (0..8).map(|_| (uniform_board(4, 1), 1)).collect();
    let mut rng = Pcg64Mcg::seed_from_u64(19);
    // Generation 2 is not a multiple of 3: evolution, not a restart.
    let next = next_generation(&params, 2, scored, &mut rng);
    assert_eq!(8, next.len());
    for board in &next {
        for row in &board.0 {
            for &cell in &row.0 {
                assert_eq!(1, cell);
            }
        }
    }
}

#[test]
fn end_to_end_converges_on_a_small_puzzle() {
    let params = GAParams::new(100, Rate::new(1, 2), Rate::new(1, 20), None).unwrap();
    let base = Board(vec![
        Row(vec![1, 0, 0, 4]),
        Row(vec![0, 4, 1, 2]),
        Row(vec![2, 0, 4, 3]),
        Row(vec![4, 3, 0, 0]),
    ]);
    let mut rng = Pcg64Mcg::seed_from_u64(42);
    let mut population = generate_initial_population(&params, 4, &mut rng);
    let mut solved: Option<Board> = None;
    for generation in 0..10_000 {
        match run_simulation(&params, generation, &base, population, &mut rng) {
            Ok(solution) => {
                solved = Some(solution);
                break;
            }
            Err(no_solution) => {
                population = no_solution.next_generation;
            }
        }
    }
    let solution = solved.expect("the run must converge within the generation bound");
    assert_eq!(0, solution.fitness());
    for (i, row) in base.0.iter().enumerate() {
        for (j, &cell) in row.0.iter().enumerate() {
            if cell != 0 {
                assert_eq!(cell, solution.0[i].0[j]);
            }
        }
    }
}

#[test]
fn simulation_tolerates_a_population_below_the_configured_size() {
    // 9 candidates with selection one half breed 4 survivors, 2 pairs and
    // 4 children each: 8 boards, one fewer than configured. The next step
    // still runs on them.
    let params = GAParams::new(9, Rate::new(1, 2), Rate::new(1, 20), None).unwrap();
    assert_eq!(4, params.num_survivors);
    let base = uniform_board(4, 0);
    let mut rng = Pcg64Mcg::seed_from_u64(23);
    let population = generate_initial_population(&params, 4, &mut rng);
    let first = run_simulation(&params, 0, &base, population, &mut rng);
    if let Err(no_solution) = first {
        assert_eq!(8, no_solution.next_generation.len());
        let second = run_simulation(&params, 1, &base, no_solution.next_generation, &mut rng);
        if let Err(again) = second {
            assert_eq!(8, again.next_generation.len());
        }
    }
}
