use rusty_life::field::FieldError;
use rusty_life::{CellState, Game};

fn alive_cells(game: &mut Game) -> Vec<(usize, usize)> {
    let field = game.get_field();
    let mut alive = Vec::new();
    for y in 0..field.get_height() {
        for x in 0..field.get_width() {
            if field.get_cell_state(x, y) == CellState::Alive {
                alive.push((x, y));
            }
        }
    }
    alive
}

fn game_with(width: usize, height: usize, alive: &[(usize, usize)]) -> Game {
    let mut game = Game::new(width, height);
    for &(x, y) in alive {
        game.get_field().set_cell_state(x, y, CellState::Alive);
    }
    game
}

#[test]
fn new_game_starts_at_generation_zero_with_dead_cells() {
    let mut game = Game::new(6, 4);
    assert_eq!(game.get_generation(), 0);
    assert_eq!(game.get_field().get_width(), 6);
    assert_eq!(game.get_field().get_height(), 4);
    assert_eq!(alive_cells(&mut game), Vec::<(usize, usize)>::new());
}

#[test]
fn try_new_game_validates_dimensions() {
    let mut game = Game::try_new(3, 2).unwrap();
    assert_eq!(game.get_generation(), 0);
    assert_eq!(game.get_field().get_width(), 3);
    assert!(matches!(Game::try_new(0, 2), Err(FieldError::InvalidDimensions)));
    assert!(matches!(Game::try_new(2, 0), Err(FieldError::InvalidDimensions)));
    assert!(matches!(
        Game::try_new(usize::MAX, usize::MAX),
        Err(FieldError::InvalidDimensions)
    ));
}

#[test]
fn horizontal_blinker_becomes_vertical() {
    let mut game = game_with(3, 3, &[(0, 1), (1, 1), (2, 1)]);
    game.advance_generation(false);
    assert_eq!(alive_cells(&mut game), vec![(1, 0), (1, 1), (1, 2)]);
    let field = game.get_field();
    for x in 0..3 {
        for y in 0..3 {
            let expected = if x == 1 { CellState::Alive } else { CellState::Dead };
            assert_eq!(field.get_cell_state(x, y), expected);
        }
    }
    assert_eq!(game.get_generation(), 1);
}

#[test]
fn blinker_has_period_two() {
    let mut game = game_with(5, 5, &[(1, 2), (2, 2), (3, 2)]);
    game.advance_generation(false);
    assert_eq!(alive_cells(&mut game), vec![(2, 1), (2, 2), (2, 3)]);
    game.advance_generation(false);
    assert_eq!(alive_cells(&mut game), vec![(1, 2), (2, 2), (3, 2)]);
}

#[test]
fn block_is_stable() {
    let mut game = game_with(4, 4, &[(1, 1), (2, 1), (1, 2), (2, 2)]);
    game.advance_generation(false);
    assert_eq!(alive_cells(&mut game), vec![(1, 1), (2, 1), (1, 2), (2, 2)]);
}

#[test]
fn lonely_cell_dies() {
    let mut game = game_with(3, 3, &[(1, 1)]);
    game.advance_generation(false);
    assert_eq!(alive_cells(&mut game), Vec::<(usize, usize)>::new());
}

#[test]
fn cell_with_one_neighbour_dies() {
    let mut game = game_with(4, 4, &[(1, 1), (2, 1)]);
    game.advance_generation(false);
    assert_eq!(alive_cells(&mut game), Vec::<(usize, usize)>::new());
}

#[test]
fn crowded_cell_dies() {
    let mut game = game_with(3, 3, &[(1, 1), (0, 0), (2, 0), (0, 2), (2, 2)]);
    game.advance_generation(false);
    assert_eq!(game.get_field().get_cell_state(1, 1), CellState::Dead);
    assert_eq!(alive_cells(&mut game), vec![(1, 0), (0, 1), (2, 1), (1, 2)]);
}

#[test]
fn dead_cell_with_three_neighbours_is_born() {
    let mut game = game_with(3, 3, &[(0, 0), (1, 0), (0, 1)]);
    game.advance_generation(false);
    assert_eq!(alive_cells(&mut game), vec![(0, 0), (1, 0), (0, 1), (1, 1)]);
}

#[test]
fn dead_cell_with_two_neighbours_stays_dead() {
    let mut game = game_with(3, 3, &[(0, 0), (2, 0)]);
    game.advance_generation(false);
    assert_eq!(game.get_field().get_cell_state(1, 0), CellState::Dead);
    assert_eq!(game.get_field().get_cell_state(1, 1), CellState::Dead);
}

#[test]
fn advance_reads_the_grid_before_the_step_only() {
    // A row of four: computed in place, the cell at (1, 0) would see the
    // already dead cell at (0, 0) and come out wrong.
    let mut game = game_with(4, 3, &[(0, 1), (1, 1), (2, 1), (3, 1)]);
    game.advance_generation(false);
    assert_eq!(
        alive_cells(&mut game),
        vec![(1, 0), (2, 0), (1, 1), (2, 1), (1, 2), (2, 2)]
    );
}

#[test]
fn wrap_lets_a_row_across_the_edge_blink() {
    let mut game = game_with(5, 5, &[(4, 2), (0, 2), (1, 2)]);
    game.advance_generation(true);
    assert_eq!(alive_cells(&mut game), vec![(0, 1), (0, 2), (0, 3)]);
    let mut bounded = game_with(5, 5, &[(4, 2), (0, 2), (1, 2)]);
    bounded.advance_generation(false);
    assert_eq!(alive_cells(&mut bounded), Vec::<(usize, usize)>::new());
}

#[test]
fn glider_moves_one_cell_diagonally_in_four_generations() {
    let mut game = game_with(6, 6, &[(1, 0), (2, 1), (0, 2), (1, 2), (2, 2)]);
    for _ in 0..4 {
        game.advance_generation(true);
    }
    assert_eq!(alive_cells(&mut game), vec![(2, 1), (3, 2), (1, 3), (2, 3), (3, 3)]);
    assert_eq!(game.get_generation(), 4);
}

#[test]
fn generation_counts_each_advance() {
    let mut game = Game::new(3, 3);
    for expected in 1..=5 {
        game.advance_generation(expected % 2 == 0);
        assert_eq!(game.get_generation(), expected);
    }
}

#[test]
fn generation_is_untouched_by_clear_randomize_seed_and_edits() {
    let mut game = Game::new(3, 2);
    game.advance_generation(false);
    game.advance_generation(false);
    game.clear();
    assert_eq!(game.get_generation(), 2);
    game.randomize(&[true, false, true, false, true, false]);
    assert_eq!(game.get_generation(), 2);
    game.apply_seed_1_to_field();
    assert_eq!(game.get_generation(), 2);
    game.get_field().set_cell_state(0, 0, CellState::Alive);
    game.get_field().set_cell_state(9, 9, CellState::Alive);
    assert_eq!(game.get_generation(), 2);
}

#[test]
fn edits_through_get_field_reach_the_game() {
    let mut game = Game::new(3, 3);
    game.get_field().set_cell_state(2, 0, CellState::Alive);
    assert_eq!(alive_cells(&mut game), vec![(2, 0)]);
    game.get_field().set_cell_state(2, 0, CellState::Dead);
    assert_eq!(alive_cells(&mut game), Vec::<(usize, usize)>::new());
}

#[test]
fn clear_makes_every_cell_dead() {
    let mut game = game_with(4, 3, &[(0, 0), (3, 2), (1, 1), (2, 0)]);
    game.clear();
    assert_eq!(alive_cells(&mut game), Vec::<(usize, usize)>::new());
    assert_eq!(game.get_field().get_width(), 4);
    assert_eq!(game.get_field().get_height(), 3);
}

#[test]
fn clear_twice_is_clear_once() {
    let mut once = game_with(4, 3, &[(0, 0), (3, 2), (1, 1)]);
    let mut twice = game_with(4, 3, &[(0, 0), (3, 2), (1, 1)]);
    once.clear();
    twice.clear();
    twice.clear();
    for x in 0..4 {
        for y in 0..3 {
            assert_eq!(
                once.get_field().get_cell_state(x, y),
                twice.get_field().get_cell_state(x, y)
            );
        }
    }
    assert_eq!(once.get_generation(), twice.get_generation());
}

#[test]
fn after_clear_no_cell_has_a_live_neighbour() {
    let mut game = game_with(4, 3, &[(0, 0), (3, 2), (1, 1), (2, 2)]);
    game.clear();
    for wrap in [false, true] {
        for x in 0..4 {
            for y in 0..3 {
                assert_eq!(game.get_field().get_number_of_neighbours_alive(x, y, wrap), 0);
            }
        }
    }
}

#[test]
fn randomize_with_all_draws_true_makes_every_cell_alive() {
    let mut game = Game::new(4, 3);
    game.randomize(&[true; 12]);
    for x in 0..4 {
        for y in 0..3 {
            assert_eq!(game.get_field().get_cell_state(x, y), CellState::Alive);
        }
    }
}

#[test]
fn randomize_with_all_draws_false_makes_every_cell_dead() {
    let mut game = game_with(4, 3, &[(0, 0), (3, 2), (1, 1)]);
    game.randomize(&[false; 12]);
    assert_eq!(alive_cells(&mut game), Vec::<(usize, usize)>::new());
}

#[test]
fn randomize_gives_each_cell_its_own_draw_row_by_row() {
    let mut game = game_with(3, 2, &[(1, 0)]);
    game.randomize(&[true, false, false, false, true, true]);
    assert_eq!(alive_cells(&mut game), vec![(0, 0), (1, 1), (2, 1)]);
}

#[test]
fn seed_sets_its_five_cells_on_a_grid_of_34_by_34() {
    let mut game = Game::new(34, 34);
    game.apply_seed_1_to_field();
    assert_eq!(
        alive_cells(&mut game),
        vec![(32, 31), (31, 32), (32, 32), (32, 33), (33, 33)]
    );
}

#[test]
fn seed_overlays_what_is_there() {
    let mut game = game_with(40, 36, &[(0, 0), (32, 32), (39, 35)]);
    game.apply_seed_1_to_field();
    assert_eq!(
        alive_cells(&mut game),
        vec![(0, 0), (32, 31), (31, 32), (32, 32), (32, 33), (33, 33), (39, 35)]
    );
}

#[test]
fn seed_on_a_small_grid_sets_the_cells_that_lie_on_it() {
    let mut game = game_with(33, 33, &[(1, 1)]);
    game.apply_seed_1_to_field();
    assert_eq!(alive_cells(&mut game), vec![(1, 1), (32, 31), (31, 32), (32, 32)]);
    let mut tiny = game_with(5, 5, &[(1, 1)]);
    tiny.apply_seed_1_to_field();
    assert_eq!(alive_cells(&mut tiny), vec![(1, 1)]);
}

#[test]
fn from_parts_keeps_field_and_generation() {
    let mut field = rusty_life::Field::new(3, 2);
    field.set_cell_state(2, 1, CellState::Alive);
    let mut game = Game::from_parts(field, 7);
    assert_eq!(game.get_generation(), 7);
    assert_eq!(game.field().get_width(), 3);
    assert_eq!(game.field().get_height(), 2);
    assert_eq!(game.field().get_cell_state(2, 1), CellState::Alive);
    assert_eq!(alive_cells(&mut game), vec![(2, 1)]);
    game.advance_generation(false);
    assert_eq!(game.get_generation(), 8);
}
