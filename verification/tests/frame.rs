use game_of_life::frame::{ALIVE, DEAD};
use game_of_life::game::Game;

fn picture(lines: &[&str]) -> String {
    let rows: Vec<String> = lines
        .iter()
        .map(|line| line.chars().map(|c| if c == '#' { ALIVE } else { DEAD }).collect())
        .collect();
    rows.join("\n")
}

#[test]
fn glyphs_are_a_full_block_and_a_light_shade() {
    assert_eq!(ALIVE, '\u{2588}');
    assert_eq!(DEAD, '\u{2591}');
}

#[test]
fn render_of_a_single_dead_cell() {
    let game = Game::new(vec![], 1, 1).unwrap();
    assert_eq!(game.render(), "\u{2591}");
}

#[test]
fn render_of_a_single_live_cell() {
    let game = Game::new(vec![[0, 0]], 1, 1).unwrap();
    assert_eq!(game.render(), "\u{2588}");
}

#[test]
fn render_breaks_between_rows_and_not_after_the_last() {
    let game = Game::new(vec![[0, 1]], 2, 3).unwrap();
    let text = game.render();
    assert_eq!(text, "\u{2591}\u{2588}\u{2591}\n\u{2591}\u{2591}\u{2591}");
    assert_eq!(text.chars().count(), 7);
    assert!(!text.ends_with('\n'));
}

#[test]
fn render_of_a_single_row_has_no_line_break() {
    let game = Game::new(vec![[0, 0], [0, 3]], 1, 4).unwrap();
    assert_eq!(game.render(), picture(&["#..#"]));
}

#[test]
fn render_of_a_single_column() {
    let game = Game::new(vec![[1, 0]], 3, 1).unwrap();
    assert_eq!(game.render(), picture(&[".", "#", "."]));
}

#[test]
fn render_follows_the_blinker() {
    let mut game = Game::new(vec![[2, 1], [2, 2], [2, 3]], 5, 5).unwrap();
    assert_eq!(
        game.render(),
        picture(&[".....", ".....", ".###.", ".....", "....."])
    );
    game.update_state();
    assert_eq!(
        game.render(),
        picture(&[".....", "..#..", "..#..", "..#..", "....."])
    );
    game.update_state();
    assert_eq!(
        game.render(),
        picture(&[".....", ".....", ".###.", ".....", "....."])
    );
}

#[test]
fn render_does_not_change_the_game() {
    let game = Game::new(vec![[0, 0], [1, 1]], 2, 2).unwrap();
    let once = game.render();
    let again = game.render();
    assert_eq!(once, again);
    assert_eq!(game.alive_cells(), &vec![[0, 0], [1, 1]]);
}
