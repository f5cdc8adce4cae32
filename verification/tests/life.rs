use game_of_life::life::{Life, LifeStatus, LifeStatusDiff};
use game_of_life::rle::{HeaderField, LifeRLEParseError};

use LifeStatus::{Alive, Dead};

fn board_of(life: &Life) -> Vec<Vec<LifeStatus>> {
    (0..life.height())
        .map(|y| (0..life.width()).map(|x| life.get(x, y)).collect())
        .collect()
}

fn life_of(rows: &[&str]) -> Life {
    let mut life = Life::new(rows[0].len() as u16, rows.len() as u16);
    for (y, row) in rows.iter().enumerate() {
        for (x, c) in row.chars().enumerate() {
            if c == 'o' {
                life.set(x as u16, y as u16, Alive);
            }
        }
    }
    life
}

fn picture_of(life: &Life) -> Vec<String> {
    board_of(life)
        .iter()
        .map(|row| row.iter().map(|s| if *s == Alive { 'o' } else { '.' }).collect())
        .collect()
}

/// The next generation, cell by cell, as the rule says it.
fn next_of(board: &[Vec<LifeStatus>]) -> Vec<Vec<LifeStatus>> {
    let height = board.len() as i64;
    let width = board[0].len() as i64;
    let mut next = board.to_vec();
    for y in 0..height {
        for x in 0..width {
            let mut count = 0;
            for dy in -1..=1 {
                for dx in -1..=1 {
                    let row = (y + dy).rem_euclid(height) as usize;
                    let column = (x + dx).rem_euclid(width) as usize;
                    if (dx, dy) != (0, 0) && board[row][column] == Alive {
                        count += 1;
                    }
                }
            }
            next[y as usize][x as usize] = match count {
                3 => Alive,
                2 => board[y as usize][x as usize],
                _ => Dead,
            };
        }
    }
    next
}

fn changes_of(before: &[Vec<LifeStatus>], after: &[Vec<LifeStatus>]) -> Vec<LifeStatusDiff> {
    let mut diffs = Vec::new();
    for (y, row) in after.iter().enumerate() {
        for (x, status) in row.iter().enumerate() {
            if before[y][x] != *status {
                diffs.push(LifeStatusDiff { x: x as u16, y: y as u16, status: *status });
            }
        }
    }
    diffs
}

#[test]
fn a_status_flips_to_the_other() {
    assert_eq!(Alive.flip(), Dead);
    assert_eq!(Dead.flip(), Alive);
    assert_eq!(!Alive, Dead);
    assert_eq!(!Dead, Alive);
    assert_eq!(Alive.flip().flip(), Alive);
}

#[test]
fn a_new_board_is_all_dead() {
    let life = Life::new(7, 3);
    assert_eq!(life.width(), 7);
    assert_eq!(life.height(), 3);
    assert_eq!(board_of(&life), vec![vec![Dead; 7]; 3]);
}

#[test]
fn a_board_may_have_no_cells() {
    for (width, height) in [(0, 0), (0, 4), (4, 0)] {
        let mut life = Life::new(width, height);
        assert_eq!((life.width(), life.height()), (width, height));
        assert_eq!(life.next_round(), vec![]);
        assert_eq!(life.initialize(1, 1), vec![]);
        assert_eq!(life.add_mutation(1, 1), vec![]);
        assert_eq!(life.initialize_rle("x=1\n3o$3o!"), Ok(vec![]));
    }
}

#[test]
fn a_cell_is_written_and_read_back() {
    let mut life = Life::new(4, 3);
    life.set(3, 1, Alive);
    life.set(0, 2, Alive);
    assert_eq!(picture_of(&life), ["....", "...o", "o..."]);
    life.set(3, 1, Dead);
    assert_eq!(life.get(3, 1), Dead);
    assert_eq!(life.get(0, 2), Alive);
}

#[test]
fn a_dead_board_stays_dead_and_reports_nothing() {
    for (width, height) in [(1, 1), (2, 3), (5, 5), (40, 25)] {
        let mut life = Life::new(width, height);
        assert_eq!(life.next_round(), vec![]);
        assert_eq!(board_of(&life), vec![vec![Dead; width as usize]; height as usize]);
    }
}

#[test]
fn the_diffs_of_a_generation_lead_to_the_board_that_the_rule_gives() {
    for (width, height) in [(1, 1), (1, 4), (2, 2), (3, 3), (7, 5), (16, 9)] {
        let mut life = Life::new(width, height);
        life.initialize(2, 5);
        for _ in 0..6 {
            let before = board_of(&life);
            let diffs = life.next_round();
            let after = board_of(&life);
            assert_eq!(after, next_of(&before));
            assert_eq!(diffs, changes_of(&before, &after));
            let mut patched = before.clone();
            for diff in &diffs {
                assert_ne!(patched[diff.y as usize][diff.x as usize], diff.status);
                patched[diff.y as usize][diff.x as usize] = diff.status;
            }
            assert_eq!(patched, after);
        }
    }
}

#[test]
fn a_glider_moves_one_cell_down_and_right_in_four_generations() {
    for (width, height) in [(5, 5), (6, 9), (12, 7)] {
        let mut life = Life::new(width, height);
        let diffs = life.initialize_rle("x = 3, y = 3\nbob$2bo$3o!").unwrap();
        assert_eq!(diffs.len(), 5);
        let start = board_of(&life);
        for _ in 0..4 {
            life.next_round();
        }
        let end = board_of(&life);
        for y in 0..height as usize {
            for x in 0..width as usize {
                let moved = end[(y + 1) % height as usize][(x + 1) % width as usize];
                assert_eq!(moved, start[y][x]);
            }
        }
    }
}

#[test]
fn a_glider_comes_back_around_the_torus() {
    let mut life = Life::new(5, 5);
    life.initialize_rle("x = 3, y = 3\nbob$2bo$3o!").unwrap();
    let start = board_of(&life);
    for _ in 0..20 {
        life.next_round();
    }
    assert_eq!(board_of(&life), start);
}

#[test]
fn a_blinker_blinks() {
    let mut life = life_of(&[".....", "..o..", "..o..", "..o..", "....."]);
    let diffs = life.next_round();
    assert_eq!(picture_of(&life), [".....", ".....", ".ooo.", ".....", "....."]);
    assert_eq!(
        diffs,
        vec![
            LifeStatusDiff { x: 2, y: 1, status: Dead },
            LifeStatusDiff { x: 1, y: 2, status: Alive },
            LifeStatusDiff { x: 3, y: 2, status: Alive },
            LifeStatusDiff { x: 2, y: 3, status: Dead },
        ]
    );
    life.next_round();
    assert_eq!(picture_of(&life), [".....", "..o..", "..o..", "..o..", "....."]);
}

#[test]
fn a_block_is_still() {
    let mut life = life_of(&["....", ".oo.", ".oo.", "...."]);
    assert_eq!(life.next_round(), vec![]);
    assert_eq!(picture_of(&life), ["....", ".oo.", ".oo.", "...."]);
}

#[test]
fn neighbours_are_counted_around_the_edges() {
    let life = life_of(&["o...o", ".....", ".....", "o...."]);
    assert_eq!(life.get_cell_status_next_round(0, 0), Alive);
    assert_eq!(life.get_cell_status_next_round(4, 3), Alive);
    assert_eq!(life.get_cell_status_next_round(4, 0), Alive);
    assert_eq!(life.get_cell_status_next_round(0, 3), Alive);
    assert_eq!(life.get_cell_status_next_round(1, 0), Dead);
    assert_eq!(life.get_cell_status_next_round(2, 2), Dead);
}

#[test]
fn the_rule_goes_by_the_number_of_living_neighbours() {
    let around = [(0, 0), (1, 0), (2, 0), (0, 1), (2, 1), (0, 2), (1, 2), (2, 2)];
    for center in [Dead, Alive] {
        for n in 0..=8 {
            let mut life = Life::new(7, 7);
            life.set(3, 3, center);
            for (x, y) in &around[..n] {
                life.set(2 + x, 2 + y, Alive);
            }
            let expected = match n {
                3 => Alive,
                2 => center,
                _ => Dead,
            };
            assert_eq!(life.get_cell_status_next_round(3, 3), expected);
        }
    }
}

#[test]
fn on_a_tiny_torus_a_cell_is_its_own_neighbour() {
    let mut life = life_of(&["o"]);
    assert_eq!(life.get_cell_status_next_round(0, 0), Dead);
    assert_eq!(life.next_round(), vec![LifeStatusDiff { x: 0, y: 0, status: Dead }]);
    let mut life = life_of(&["o."]);
    assert_eq!(life.get_cell_status_next_round(0, 0), Alive);
    assert_eq!(life.get_cell_status_next_round(1, 0), Dead);
    assert_eq!(life.next_round(), vec![]);
    let mut life = life_of(&["o.", ".."]);
    assert_eq!(life.get_cell_status_next_round(1, 1), Dead);
    assert_eq!(life.get_cell_status_next_round(0, 0), Dead);
    assert_eq!(life.next_round(), vec![LifeStatusDiff { x: 0, y: 0, status: Dead }]);
}

#[test]
fn every_cell_is_computed_from_the_board_before_the_step() {
    let mut life = life_of(&["......", ".ooo..", "......", "......"]);
    life.next_round();
    assert_eq!(picture_of(&life), ["..o...", "..o...", "..o...", "......"]);
}

#[test]
fn a_mutation_with_no_chance_changes_nothing() {
    let mut life = life_of(&["o..", ".o.", "..o", "ooo"]);
    for denominator in [0, 1, 7, u32::MAX] {
        assert_eq!(life.add_mutation(0, denominator), vec![]);
        assert_eq!(picture_of(&life), ["o..", ".o.", "..o", "ooo"]);
    }
}

#[test]
fn a_certain_mutation_flips_every_cell() {
    let mut life = life_of(&["o..", ".o.", "..o", "ooo"]);
    let diffs = life.add_mutation(1, 1);
    assert_eq!(picture_of(&life), [".oo", "o.o", "oo.", "..."]);
    assert_eq!(diffs.len(), 12);
    for (i, diff) in diffs.iter().enumerate() {
        assert_eq!((diff.x as usize, diff.y as usize), (i % 3, i / 3));
        assert_eq!(diff.status, life.get(diff.x, diff.y));
    }
    for (numerator, denominator) in [(5, 5), (6, 5), (1, 0), (u32::MAX, u32::MAX)] {
        let before = board_of(&life);
        let diffs = life.add_mutation(numerator, denominator);
        assert_eq!(diffs.len(), 12);
        let after = board_of(&life);
        for y in 0..4 {
            for x in 0..3 {
                assert_eq!(after[y][x], !before[y][x]);
            }
        }
    }
}

#[test]
fn a_mutation_reports_exactly_the_flipped_cells() {
    let mut life = Life::new(20, 10);
    life.initialize(1, 2);
    for _ in 0..10 {
        let before = board_of(&life);
        let diffs = life.add_mutation(1, 4);
        let after = board_of(&life);
        assert_eq!(diffs, changes_of(&before, &after));
    }
}

#[test]
fn seeding_with_no_chance_leaves_a_dead_board() {
    let mut life = life_of(&["oo", "oo"]);
    assert_eq!(life.initialize(0, 3), vec![]);
    assert_eq!(picture_of(&life), ["..", ".."]);
    let mut life = life_of(&["oo", "oo"]);
    assert_eq!(life.initialize(0, 0), vec![]);
    assert_eq!(picture_of(&life), ["..", ".."]);
}

#[test]
fn certain_seeding_makes_every_cell_alive() {
    for (numerator, denominator) in [(1, 1), (3, 2), (2, 0), (u32::MAX, u32::MAX)] {
        let mut life = life_of(&["o..", "..."]);
        let diffs = life.initialize(numerator, denominator);
        assert_eq!(picture_of(&life), ["ooo", "ooo"]);
        let expected: Vec<LifeStatusDiff> = (0..6)
            .map(|i| LifeStatusDiff { x: i % 3, y: i / 3, status: Alive })
            .collect();
        assert_eq!(diffs, expected);
    }
}

#[test]
fn seeding_reports_the_living_cells_only() {
    let mut life = Life::new(30, 20);
    for _ in 0..5 {
        let diffs = life.initialize(1, 3);
        let after = board_of(&life);
        assert_eq!(diffs, changes_of(&vec![vec![Dead; 30]; 20], &after));
        assert!(diffs.iter().all(|diff| diff.status == Alive));
    }
}

#[test]
fn random_seeding_hits_some_cells_and_misses_others() {
    let mut life = Life::new(100, 100);
    let alive = life.initialize(1, 2).len();
    assert!(2000 < alive && alive < 8000, "{}", alive);
    let flipped = life.add_mutation(1, 2).len();
    assert!(2000 < flipped && flipped < 8000, "{}", flipped);
}

#[test]
fn a_cell_is_seeded_by_the_outcome_of_its_draw() {
    let mut life = life_of(&["o.", ".o"]);
    assert_eq!(life.seed_cell(0, 0, false), None);
    assert_eq!(life.seed_cell(1, 0, false), None);
    assert_eq!(life.seed_cell(0, 1, true), Some(LifeStatusDiff { x: 0, y: 1, status: Alive }));
    assert_eq!(life.seed_cell(1, 1, true), Some(LifeStatusDiff { x: 1, y: 1, status: Alive }));
    assert_eq!(picture_of(&life), ["..", "oo"]);
}

#[test]
fn a_cell_is_mutated_by_the_outcome_of_its_draw() {
    let mut life = life_of(&["o.", ".o"]);
    assert_eq!(life.mutate_cell(0, 0, false), None);
    assert_eq!(life.mutate_cell(1, 0, false), None);
    assert_eq!(life.mutate_cell(0, 1, true), Some(LifeStatusDiff { x: 0, y: 1, status: Alive }));
    assert_eq!(life.mutate_cell(1, 1, true), Some(LifeStatusDiff { x: 1, y: 1, status: Dead }));
    assert_eq!(picture_of(&life), ["o.", "o."]);
}

#[test]
fn a_pattern_brings_its_cells_to_life() {
    let mut life = life_of(&["....o", ".....", "o...."]);
    let diffs = life.initialize_rle("#C\nx = 3, base_x = 1\nobo$3bo$o!");
    let alive = |x, y| LifeStatusDiff { x, y, status: Alive };
    assert_eq!(diffs, Ok(vec![alive(1, 0), alive(3, 0), alive(4, 1), alive(1, 2)]));
    assert_eq!(picture_of(&life), [".o.oo", "....o", "oo..."]);
}

#[test]
fn cells_are_brought_to_life_in_the_order_given() {
    let mut life = life_of(&["o..", "...", "..o"]);
    let alive = |x, y| LifeStatusDiff { x, y, status: Alive };
    let diffs = life.initialize_cells(&vec![(2, 1), (0, 0), (1, 2), (2, 1)]);
    assert_eq!(diffs, vec![alive(2, 1), alive(0, 0), alive(1, 2), alive(2, 1)]);
    assert_eq!(picture_of(&life), ["o..", "..o", ".oo"]);
    assert_eq!(life.initialize_cells(&vec![]), vec![]);
    assert_eq!(picture_of(&life), ["o..", "..o", ".oo"]);
}

#[test]
fn a_pattern_is_clipped_and_centered_by_the_size_of_the_board() {
    let mut life = Life::new(4, 3);
    let diffs = life.initialize_rle("center = true\n3o$3o$3o!").unwrap();
    assert_eq!(diffs.len(), 4);
    assert_eq!(picture_of(&life), ["....", "..oo", "..oo"]);
}

#[test]
fn a_pattern_that_cannot_be_decoded_changes_nothing() {
    let mut life = life_of(&["o..", "..."]);
    assert_eq!(life.initialize_rle("x=1\n2o$ox!"), Err(LifeRLEParseError::InvalidChar('x')));
    assert_eq!(life.initialize_rle(""), Err(LifeRLEParseError::Empty));
    assert_eq!(life.initialize_rle("x=1\nb2!"), Err(LifeRLEParseError::DanglingLength));
    assert_eq!(
        life.initialize_rle("x=\no!"),
        Err(LifeRLEParseError::InvalidField(HeaderField::Width))
    );
    assert_eq!(picture_of(&life), ["o..", "..."]);
}

#[test]
fn the_largest_board_coordinates_fit() {
    let mut life = Life::new(u16::MAX, 3);
    life.set(u16::MAX - 1, 1, Alive);
    life.set(0, 1, Alive);
    life.set(1, 1, Alive);
    assert_eq!(life.get_cell_status_next_round(0, 1), Alive);
    assert_eq!(life.get_cell_status_next_round(0, 0), Alive);
    assert_eq!(life.get_cell_status_next_round(u16::MAX - 1, 1), Dead);
    let diffs = life.initialize_rle("base_x = 65530, base_y = 2\n9o!").unwrap();
    assert_eq!(diffs.len(), 5);
    assert_eq!(diffs[4], LifeStatusDiff { x: 65534, y: 2, status: Alive });
}
