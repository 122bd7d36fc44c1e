use game_of_life::game::Game;

fn play(seed: Vec<[u16; 2]>, rows: u16, cols: u16) -> Game {
    Game::new(seed, rows, cols).unwrap()
}

fn full(rows: u16, cols: u16) -> Game {
    let mut seed = Vec::new();
    for r in 0..rows {
        for c in 0..cols {
            seed.push([r, c]);
        }
    }
    play(seed, rows, cols)
}

#[test]
fn count_in_the_middle_of_a_full_grid_is_eight() {
    assert_eq!(full(3, 3).get_living_neighbours_count(&[1, 1]), 8);
}

#[test]
fn count_in_a_corner_of_a_full_grid_is_three() {
    let game = full(3, 3);
    assert_eq!(game.get_living_neighbours_count(&[0, 0]), 3);
    assert_eq!(game.get_living_neighbours_count(&[0, 2]), 3);
    assert_eq!(game.get_living_neighbours_count(&[2, 0]), 3);
    assert_eq!(game.get_living_neighbours_count(&[2, 2]), 3);
}

#[test]
fn count_on_an_edge_of_a_full_grid_is_five() {
    let game = full(3, 3);
    assert_eq!(game.get_living_neighbours_count(&[0, 1]), 5);
    assert_eq!(game.get_living_neighbours_count(&[1, 0]), 5);
    assert_eq!(game.get_living_neighbours_count(&[1, 2]), 5);
    assert_eq!(game.get_living_neighbours_count(&[2, 1]), 5);
}

#[test]
fn count_does_not_wrap_around() {
    let game = play(vec![[0, 0], [0, 3], [2, 0], [2, 3]], 3, 4);
    assert_eq!(game.get_living_neighbours_count(&[0, 0]), 0);
    assert_eq!(game.get_living_neighbours_count(&[2, 3]), 0);
    assert_eq!(game.get_living_neighbours_count(&[1, 0]), 2);
    assert_eq!(game.get_living_neighbours_count(&[1, 3]), 2);
}

#[test]
fn count_leaves_out_the_cell_itself() {
    let game = play(vec![[1, 1]], 3, 3);
    assert_eq!(game.get_living_neighbours_count(&[1, 1]), 0);
    assert_eq!(game.get_living_neighbours_count(&[0, 0]), 1);
}

#[test]
fn count_on_a_single_cell_grid_is_zero() {
    assert_eq!(play(vec![[0, 0]], 1, 1).get_living_neighbours_count(&[0, 0]), 0);
}

#[test]
fn count_on_a_single_row() {
    let game = full(1, 4);
    assert_eq!(game.get_living_neighbours_count(&[0, 0]), 1);
    assert_eq!(game.get_living_neighbours_count(&[0, 1]), 2);
    assert_eq!(game.get_living_neighbours_count(&[0, 3]), 1);
}

#[test]
fn dead_neighbours_come_row_by_row() {
    let game = play(vec![[1, 1]], 3, 3);
    assert_eq!(
        game.get_dead_neighbours(&[1, 1]),
        vec![[0, 0], [0, 1], [0, 2], [1, 0], [1, 2], [2, 0], [2, 1], [2, 2]]
    );
}

#[test]
fn dead_neighbours_skip_live_cells() {
    let game = play(vec![[1, 1], [0, 1], [1, 2], [2, 0]], 3, 3);
    assert_eq!(
        game.get_dead_neighbours(&[1, 1]),
        vec![[0, 0], [0, 2], [1, 0], [2, 1], [2, 2]]
    );
}

#[test]
fn dead_neighbours_stop_at_the_edges() {
    let game = play(vec![], 3, 4);
    assert_eq!(game.get_dead_neighbours(&[0, 0]), vec![[0, 1], [1, 0], [1, 1]]);
    assert_eq!(game.get_dead_neighbours(&[0, 3]), vec![[0, 2], [1, 2], [1, 3]]);
    assert_eq!(game.get_dead_neighbours(&[2, 0]), vec![[1, 0], [1, 1], [2, 1]]);
    assert_eq!(game.get_dead_neighbours(&[2, 3]), vec![[1, 2], [1, 3], [2, 2]]);
    assert_eq!(
        game.get_dead_neighbours(&[1, 3]),
        vec![[0, 2], [0, 3], [1, 2], [2, 2], [2, 3]]
    );
}

#[test]
fn dead_neighbours_of_a_full_grid_are_none() {
    assert!(full(3, 3).get_dead_neighbours(&[1, 1]).is_empty());
    assert!(play(vec![], 1, 1).get_dead_neighbours(&[0, 0]).is_empty());
}

#[test]
fn block_is_unchanged() {
    let mut game = play(vec![[1, 1], [1, 2], [2, 1], [2, 2]], 4, 4);
    let grid = game.render_view().clone();
    for _ in 0..10 {
        let changes = game.update_state();
        assert!(changes.removed.is_empty());
        assert!(changes.inserted.is_empty());
        assert_eq!(game.alive_cells(), &vec![[1, 1], [1, 2], [2, 1], [2, 2]]);
        assert_eq!(game.render_view(), &grid);
    }
}

#[test]
fn block_in_a_corner_is_unchanged() {
    let mut game = play(vec![[0, 0], [0, 1], [1, 0], [1, 1]], 2, 2);
    for _ in 0..3 {
        game.update_state();
        assert_eq!(game.alive_cells(), &vec![[0, 0], [0, 1], [1, 0], [1, 1]]);
    }
}

#[test]
fn blinker_turns_and_returns() {
    let mut game = play(vec![[2, 1], [2, 2], [2, 3]], 5, 5);
    let flat = game.render_view().clone();

    let first = game.update_state();
    assert_eq!(first.removed, vec![[2, 1], [2, 3]]);
    assert_eq!(first.inserted, vec![[1, 2], [3, 2]]);
    assert_eq!(game.alive_cells(), &vec![[2, 2], [1, 2], [3, 2]]);
    assert_ne!(game.render_view(), &flat);

    let second = game.update_state();
    assert_eq!(second.removed, vec![[1, 2], [3, 2]]);
    assert_eq!(second.inserted, vec![[2, 1], [2, 3]]);
    assert_eq!(game.alive_cells(), &vec![[2, 2], [2, 1], [2, 3]]);
    assert_eq!(game.render_view(), &flat);
}

#[test]
fn a_cell_next_to_several_live_cells_is_born_once() {
    let mut game = play(vec![[2, 1], [2, 2], [2, 3]], 5, 5);
    let changes = game.update_state();
    assert_eq!(changes.inserted.len(), 2);
    assert_eq!(game.alive_cells().len(), 3);
}

#[test]
fn lone_cell_dies_and_the_grid_stays_empty() {
    let mut game = play(vec![[1, 1]], 3, 3);
    let changes = game.update_state();
    assert_eq!(changes.removed, vec![[1, 1]]);
    assert!(changes.inserted.is_empty());
    assert!(game.alive_cells().is_empty());
    for _ in 0..5 {
        let changes = game.update_state();
        assert!(changes.removed.is_empty());
        assert!(changes.inserted.is_empty());
        assert!(game.alive_cells().is_empty());
        assert_eq!(game.render_view(), &vec![vec![0; 3]; 3]);
    }
}

#[test]
fn lone_cell_on_a_single_cell_grid_dies() {
    let mut game = play(vec![[0, 0]], 1, 1);
    let changes = game.update_state();
    assert_eq!(changes.removed, vec![[0, 0]]);
    assert_eq!(game.cell_value(0, 0), 0);
}

#[test]
fn dead_cell_with_three_neighbours_is_born() {
    let mut game = play(vec![[2, 2], [2, 1], [1, 2]], 3, 3);
    assert_eq!(game.get_living_neighbours_count(&[1, 1]), 3);
    let changes = game.update_state();
    assert_eq!(changes.inserted, vec![[1, 1]]);
    assert!(changes.removed.is_empty());
    assert_eq!(game.cell_value(1, 1), 1);
    assert_eq!(game.alive_cells(), &vec![[2, 2], [2, 1], [1, 2], [1, 1]]);
}

#[test]
fn dead_cell_with_two_neighbours_stays_dead() {
    let mut game = play(vec![[1, 0], [1, 2]], 3, 3);
    assert_eq!(game.get_living_neighbours_count(&[1, 1]), 2);
    let changes = game.update_state();
    assert!(changes.inserted.is_empty());
    assert_eq!(game.cell_value(1, 1), 0);
}

#[test]
fn dead_cell_with_four_neighbours_stays_dead() {
    let mut game = play(vec![[0, 1], [1, 0], [1, 2], [2, 1]], 3, 3);
    assert_eq!(game.get_living_neighbours_count(&[1, 1]), 4);
    let changes = game.update_state();
    assert!(changes.inserted.is_empty());
    assert!(changes.removed.is_empty());
    assert_eq!(game.cell_value(1, 1), 0);
    assert_eq!(game.alive_cells(), &vec![[0, 1], [1, 0], [1, 2], [2, 1]]);
}

#[test]
fn crowded_cells_die() {
    let mut game = full(3, 3);
    let changes = game.update_state();
    assert_eq!(changes.removed, vec![[0, 1], [1, 0], [1, 1], [1, 2], [2, 1]]);
    assert!(changes.inserted.is_empty());
    assert_eq!(game.alive_cells(), &vec![[0, 0], [0, 2], [2, 0], [2, 2]]);
    let changes = game.update_state();
    assert_eq!(changes.removed, vec![[0, 0], [0, 2], [2, 0], [2, 2]]);
    assert!(game.alive_cells().is_empty());
}

#[test]
fn a_row_of_three_on_the_top_edge_does_not_wrap() {
    let mut game = play(vec![[0, 0], [0, 1], [0, 2]], 3, 3);
    let changes = game.update_state();
    assert_eq!(changes.removed, vec![[0, 0], [0, 2]]);
    assert_eq!(changes.inserted, vec![[1, 1]]);
    assert_eq!(game.alive_cells(), &vec![[0, 1], [1, 1]]);
    game.update_state();
    assert!(game.alive_cells().is_empty());
}

#[test]
fn a_column_of_three_in_the_last_column_does_not_wrap() {
    let mut game = play(vec![[0, 3], [1, 3], [2, 3]], 3, 4);
    let changes = game.update_state();
    assert_eq!(changes.removed, vec![[0, 3], [2, 3]]);
    assert_eq!(changes.inserted, vec![[1, 2]]);
    assert_eq!(game.alive_cells(), &vec![[1, 3], [1, 2]]);
    assert_eq!(
        game.render_view(),
        &vec![vec![0, 0, 0, 0], vec![0, 0, 1, 1], vec![0, 0, 0, 0]]
    );
}

#[test]
fn glider_moves_one_cell_in_four_steps() {
    let mut game = play(vec![[0, 1], [1, 2], [2, 0], [2, 1], [2, 2]], 6, 6);
    let first = game.update_state();
    assert_eq!(first.removed, vec![[0, 1], [2, 0]]);
    assert_eq!(first.inserted, vec![[1, 0], [3, 1]]);
    assert_eq!(game.alive_cells(), &vec![[1, 2], [2, 1], [2, 2], [1, 0], [3, 1]]);
    game.update_state();
    game.update_state();
    let fourth = game.update_state();
    assert_eq!(fourth.removed, vec![[2, 2], [1, 1]]);
    assert_eq!(fourth.inserted, vec![[1, 2], [3, 3]]);
    assert_eq!(game.alive_cells(), &vec![[3, 1], [3, 2], [2, 3], [1, 2], [3, 3]]);
    assert_eq!(
        game.render_view(),
        &vec![
            vec![0, 0, 0, 0, 0, 0],
            vec![0, 0, 1, 0, 0, 0],
            vec![0, 0, 0, 1, 0, 0],
            vec![0, 1, 1, 1, 0, 0],
            vec![0, 0, 0, 0, 0, 0],
            vec![0, 0, 0, 0, 0, 0],
        ]
    );
}
