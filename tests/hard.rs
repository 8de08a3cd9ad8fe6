use bomb_chain::animation::Animation;
use bomb_chain::board::CellType::Bomb;
use bomb_chain::effects::{Lerp, Sound};
use bomb_chain::game::GameAction;
use bomb_chain::hard::{
    isqrt, rank, single_frequency, GameHard, GradeAnimation, GradeManager, Timer, MASTER, S9,
};
use bomb_chain::{HEIGHT, WIDTH};

#[test]
fn integer_square_roots() {
    assert_eq!(isqrt(0), 0);
    assert_eq!(isqrt(8), 2);
    assert_eq!(isqrt(9), 3);
    assert_eq!(isqrt(27), 5);
    assert_eq!(isqrt(u64::MAX), 0xffff_ffff);
}

#[test]
fn ladder_ends_at_master() {
    assert_eq!(rank(0).grade, "C3");
    assert_eq!(rank(0).decay_rate, 120);
    assert_eq!(rank(S9).grade, "S9");
    assert_eq!(rank(S9).required_score, 250);
    assert_eq!(rank(MASTER).grade, "master");
    assert_eq!(single_frequency(0), 9999);
    assert_eq!(single_frequency(1), 9);
    assert_eq!(single_frequency(7), 3);
    assert_eq!(single_frequency(9), 2);
}

#[test]
fn chains_score_and_promote() {
    let mut g = GradeManager::new(0);
    // 8 bombs in section 0: sqrt(512) = 22 points
    assert!(!g.add(0, 8));
    assert_eq!(g.score, 22);
    assert_eq!(g.max_chain_per_section[0], 8);
    // 20 bombs in section 2: sqrt(8000) = 89, times 2
    assert!(g.add(2, 20));
    assert_eq!(g.current_grade, 2);
    assert_eq!(g.score, 22 + 178 - 75 - 75);
}

#[test]
fn score_decays_with_time_but_not_below_zero_at_the_bottom() {
    let mut g = GradeManager::new(0);
    g.add(0, 8);
    // two seconds are 120 frames: one point at C3
    g.decay(2_000);
    assert_eq!(g.score, 21);
    g.decay(1_000_000);
    assert_eq!(g.score, 0);
}

#[test]
fn timer_counts_after_its_lead_in() {
    let mut t = Timer::new(60);
    assert!(!t.is_started());
    t.advance_frames(60);
    assert!(t.is_started());
    assert_eq!(t.current_frame(), (0, 0, 0));
    t.advance_frames(3600 + 61 + 30);
    assert_eq!(t.current_frame(), (1, 1, 51));
}

#[test]
fn grade_zoom_shrinks_after_a_promotion() {
    let mut z = GradeAnimation::new();
    assert_eq!(z.current_frame(), Lerp { num: 30, den: 30 });
    z.promote();
    assert_eq!(z.current_frame(), Lerp { num: 60, den: 30 });
    z.advance_frames(15);
    assert_eq!(z.current_frame(), Lerp { num: 45, den: 30 });
}

#[test]
fn hard_game_starts_after_the_lead_in() {
    let mut game = GameHard::new(2, 0);
    assert!(!game.is_started);
    game.update(GameAction::Animate(500));
    assert!(!game.is_started);
    assert_eq!(game.board.board.generated_cells(), 0);
    game.update(GameAction::Animate(1_000));
    assert!(game.is_started);
    assert_eq!(game.board.board.generated_cells(), WIDTH);
    assert_eq!(game.level, 1);
    assert_eq!(game.grade(), "C3");
}

#[test]
fn hard_rows_turn_single_on_cadence() {
    let mut game = GameHard::new(6, 0);
    game.until_single = 1;
    game.single_frequency = 3;
    let bombs = |row: &[bomb_chain::board::CellType; WIDTH]| row.iter().filter(|&&c| c == Bomb).count();
    assert_eq!(bombs(&game.next_row()), 2);
    assert_eq!(bombs(&game.next_row()), 1);
    assert_eq!(game.until_single, 2);
    assert_eq!(bombs(&game.next_row()), 2);
    assert_eq!(game.level, 3);
}

#[test]
fn hard_removal_raises_the_level_by_the_bombs() {
    let mut game = GameHard::new(6, 0);
    game.update(GameAction::Feed);
    let bomb = (0..WIDTH)
        .find(|&x| game.board.board.cells[x][HEIGHT - 1].map(|c| c.cell_type) == Some(Bomb))
        .unwrap();
    let level = game.level;
    game.update(GameAction::Remove(bomb, HEIGHT - 1));
    // one or two bombs, then one more level for the next row
    assert!(game.level == level + 2 || game.level == level + 3);
    assert!(game.grade.score > 0);
    assert_eq!(game.sounds(), Vec::<Sound>::new());
    let (score, required) = game.grade_condition();
    assert_eq!(required, 75);
    assert!(score > 0);
}
