use bomb_chain::animation::Animation;
use bomb_chain::board::CellType;
use bomb_chain::effects::{
    CellAnimator, FloatingCell, Lerp, NumberAnimator, ParticleAnimator, Sound, SoundPlayer,
};

#[test]
fn cell_animator_interpolates_after_its_delay() {
    let mut a = CellAnimator::new(7, 2, (3, 5), (1, 0), 2, 4, CellType::Bomb);
    let frame = a.current_frame();
    assert_eq!(
        frame,
        FloatingCell {
            id: 7,
            x: 2,
            y: Lerp { num: 12, den: 4 },
            cell_type: CellType::Bomb,
            opacity: Lerp { num: 4, den: 4 },
        }
    );
    a.advance_frames(3);
    // one frame past the delay: y = (3 * 3 + 5 * 1) / 4
    let frame = a.current_frame();
    assert_eq!(frame.y, Lerp { num: 14, den: 4 });
    assert_eq!(frame.opacity, Lerp { num: 3, den: 4 });
    assert!(!a.is_over());
    a.advance_frames(3);
    assert!(a.is_over());
    assert_eq!(a.current_frame().y, Lerp { num: 20, den: 4 });
    a.advance_frames(100);
    assert_eq!(a.current_frame().y, Lerp { num: 20, den: 4 });
}

#[test]
fn cell_animator_without_duration_shows_its_end() {
    let mut a = CellAnimator::new(1, 0, (4, 9), (0, 1), 0, 0, CellType::Tile);
    assert!(a.is_over());
    assert_eq!(a.current_frame().y, Lerp { num: 9, den: 1 });
}

#[test]
fn particle_animator_expands_and_fades() {
    let mut p = ParticleAnimator::new(5, "#FF0000", CellType::Bomb, 1, 2, (0, 3), (1, 0), 0, 40);
    p.advance_frames(10);
    let f = p.current_frame();
    assert_eq!(f.expansion, Lerp { num: 30, den: 40 });
    assert_eq!(f.opacity, Lerp { num: 30, den: 40 });
    assert_eq!(f.color, "#FF0000");
    assert_eq!((f.x, f.y, f.id), (1, 2, 5));
    assert!(!p.is_over());
    p.advance_frames(30);
    assert!(p.is_over());
}

#[test]
fn number_animator_eases_toward_its_target() {
    let mut n = NumberAnimator::new(100);
    assert_eq!(n.current_frame(), 0);
    n.advance_frames(1);
    // (0 * 3 + 100 + 3) / 4
    assert_eq!(n.current_frame(), 25);
    n.advance_frames(1);
    // (25 * 3 + 100 + 3) / 4
    assert_eq!(n.current_frame(), 44);
    n.advance_frames(100);
    assert_eq!(n.current_frame(), 100);
    assert!(!n.is_over());
    n.set_target(40);
    n.advance_frames(1);
    assert_eq!(n.current_frame(), 85);
}

#[test]
fn number_animator_handles_the_largest_values() {
    let mut n = NumberAnimator::new(usize::MAX);
    n.advance_frames(200);
    assert_eq!(n.current_frame(), usize::MAX);
}

#[test]
fn sound_player_delivers_each_cue_once_in_order() {
    let mut s = SoundPlayer::new(vec![(5, Sound::Fall), (0, Sound::Break), (3, Sound::Feed)]);
    assert_eq!(s.current_frame(), vec![Sound::Break]);
    assert_eq!(s.current_frame(), vec![]);
    assert!(!s.is_over());
    s.advance_frames(2);
    assert_eq!(s.current_frame(), vec![]);
    s.advance_frames(4);
    assert!(!s.is_over());
    assert_eq!(s.current_frame(), vec![Sound::Feed, Sound::Fall]);
    assert!(s.is_over());
}

#[test]
fn sound_player_without_cues_is_over() {
    let s = SoundPlayer::new(vec![]);
    assert!(s.is_over());
}

#[test]
fn sound_player_keeps_the_order_of_simultaneous_cues() {
    // sorted latest first with equal offsets kept in order, then played from the end
    let mut s = SoundPlayer::new(vec![(2, Sound::Fall), (2, Sound::Feed), (1, Sound::Break)]);
    s.advance_frames(2);
    assert_eq!(s.current_frame(), vec![Sound::Break, Sound::Feed, Sound::Fall]);
}
