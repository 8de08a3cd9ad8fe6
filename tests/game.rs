use bomb_chain::board::CellType::{Bomb, Tile};
use bomb_chain::board::{Board, Cell};
use bomb_chain::effects::{Lerp, Sound};
use bomb_chain::game::{particle_color, AnimatedBoard, Game, GameAction, VisibleState};
use bomb_chain::{HEIGHT, WIDTH};

fn row(bombs: &[usize]) -> [bomb_chain::board::CellType; WIDTH] {
    let mut r = [Tile; WIDTH];
    for &b in bombs {
        r[b] = Bomb;
    }
    r
}

/// Plays the board as a host does, a frame every 17 ms from `start`, until
/// nothing is playing; returns the time reached.
fn play_out(board: &mut AnimatedBoard, start: u64) -> u64 {
    let mut now = start;
    while board.is_animating() && now < start + 100_000 {
        now += 17;
        board.animate(now);
        board.frame();
    }
    now
}

#[test]
fn feed_schedules_a_rise_with_a_feed_cue() {
    let mut board = AnimatedBoard::new(0);
    assert!(!board.is_animating());
    board.feed(&row(&[1, 5]));
    assert!(board.is_animating());
    let (cells, sounds) = board.frame();
    assert_eq!(cells.len(), WIDTH);
    assert!(sounds.is_empty());
    // the new bottom row starts one row below the board
    assert_eq!(cells[0].y, Lerp { num: (HEIGHT as u128) * 10, den: 10 });
    board.animate(50);
    let (_, sounds) = board.frame();
    assert_eq!(sounds, vec![Sound::Feed]);
    board.animate(1000);
    assert!(!board.is_animating());
    let (cells, _) = board.frame();
    assert_eq!(cells[0].y, Lerp { num: (HEIGHT - 1) as u128, den: 1 });
}

#[test]
fn remove_counts_cells_and_bombs_and_releases_particles() {
    let mut board = AnimatedBoard::new(0);
    board.feed(&row(&[0, 1]));
    let now = play_out(&mut board, 0);
    // the bomb at column 0 reaches the bomb at column 1, which reaches the tile at column 2
    assert_eq!(board.remove(0, HEIGHT - 1), (3, 2));
    assert_eq!(board.remove(0, HEIGHT - 1), (0, 0));
    board.apply_gravity();
    assert_eq!(board.particles().len(), 0);
    let (cells, sounds) = board.frame();
    assert_eq!(sounds, vec![Sound::Break]);
    // five cells stay, three fade out
    assert_eq!(cells.len(), 8);
    let particles = board.particles();
    assert_eq!(particles.len(), 3);
    assert_eq!(particles[0].color, particle_color(0));
    assert_eq!(particles[2].color, "#FFFFFF");
    board.animate(now + 50);
    let (_, sounds) = board.frame();
    assert_eq!(sounds, vec![Sound::Break]);
}

#[test]
fn gravity_schedules_a_fall() {
    let mut board = AnimatedBoard::new(0);
    board.feed(&row(&[3, 4]));
    board.feed(&row(&[3, 4]));
    play_out(&mut board, 0);
    assert_eq!(board.remove(0, HEIGHT - 1), (1, 0));
    board.apply_gravity();
    assert_eq!(board.board.cells[0][HEIGHT - 1].map(|c| c.id), Some(0));
    assert!(board.board.cells[0][HEIGHT - 2].is_none());
}

#[test]
fn reset_empties_the_board() {
    let mut board = AnimatedBoard::new(0);
    board.feed(&row(&[2, 6]));
    board.reset();
    assert!(board.board.cells.iter().all(|c| c.iter().all(|s| s.is_none())));
    assert_eq!(board.board.generated_cells(), WIDTH);
}

#[test]
fn hidden_rows_show_only_the_bottom() {
    let mut board = AnimatedBoard::new(0);
    board.visible = VisibleState::Invisible;
    board.feed(&row(&[2, 6]));
    board.feed(&row(&[2, 6]));
    play_out(&mut board, 0);
    let (cells, _) = board.frame();
    assert_eq!(cells.len(), 2 * WIDTH);
    for c in cells.iter() {
        let shown = if c.y == (Lerp { num: (HEIGHT - 1) as u128, den: 1 }) { 1 } else { 0 };
        assert_eq!(c.opacity, Lerp { num: shown, den: 1 });
    }
}

#[test]
fn particle_colours_cycle_through_seven() {
    assert_eq!(particle_color(0), "#FF0000");
    assert_eq!(particle_color(6), "#FF00FF");
    assert_eq!(particle_color(7), "#FF0000");
}

fn game_with_bottom_row(cells: Vec<Option<Cell>>) -> Game {
    let mut game = Game::new(3, 0);
    let mut columns = vec![vec![None; HEIGHT]; WIDTH];
    for (x, c) in cells.into_iter().enumerate() {
        columns[x][HEIGHT - 1] = c;
    }
    game.board.board = Board::<WIDTH, HEIGHT>::from_cells(columns, 100);
    game
}

fn bottom_row() -> Vec<Option<Cell>> {
    let mut cells = vec![Some(Cell::new(1, Bomb))];
    for id in 2..=WIDTH {
        cells.push(Some(Cell::new(id, Tile)));
    }
    cells
}

#[test]
fn game_scores_triangular_numbers() {
    let mut game = game_with_bottom_row(bottom_row());
    assert!(!game.is_over());
    // the bomb and its one neighbour go: 1 + 2 points
    game.update(GameAction::Remove(0, HEIGHT - 1));
    assert_eq!(game.score, 3);
    assert_eq!(game.bombs_removed, 1);
    // the remaining tiles fell nowhere, and a new row came in
    assert_eq!(game.board.board.generated_cells(), 100 + WIDTH);
    assert_eq!(game.board.board.cells[2][HEIGHT - 2].map(|c| c.id), Some(3));
    // a single tile is worth one point
    game.update(GameAction::Remove(5, HEIGHT - 2));
    assert_eq!(game.score, 4);
    // an empty slot is worth nothing
    game.update(GameAction::Remove(0, 0));
    assert_eq!(game.score, 4);
}

#[test]
fn game_ends_when_filled_and_ignores_removals_then() {
    let mut game = Game::new(5, 0);
    for _ in 0..HEIGHT {
        game.update(GameAction::Feed);
    }
    assert!(game.is_over());
    let before = game.board.board.cells.clone();
    game.update(GameAction::Remove(0, HEIGHT - 1));
    assert_eq!(game.board.board.cells, before);
    assert_eq!(game.score, 0);
    game.update(GameAction::Retry(9, 0));
    assert!(!game.is_over());
    assert_eq!(game.board.board.generated_cells(), WIDTH);
}

#[test]
fn game_ends_at_the_bomb_limit() {
    let mut game = game_with_bottom_row(bottom_row());
    game.bombs_limit = 1;
    game.update(GameAction::Remove(0, HEIGHT - 1));
    assert!(game.is_over());
}

#[test]
fn score_counter_eases_toward_the_score() {
    let mut game = game_with_bottom_row(bottom_row());
    game.update(GameAction::Remove(0, HEIGHT - 1));
    assert_eq!(game.score, 3);
    // 17 ms is one virtual frame: (0 * 3 + 3 + 3) / 4
    game.update(GameAction::Animate(17));
    assert_eq!(game.score_animator.frame(), 1);
}
