use bomb_chain::animation::{Animation, AnimationStream};
use bomb_chain::clock::FloatAnimator;
use bomb_chain::effects::NumberAnimator;

#[test]
fn clock_advances_by_the_elapsed_virtual_frames() {
    let mut clock = FloatAnimator::new(NumberAnimator::new(1000), 5_000);
    clock.animate(5_000);
    assert_eq!(clock.elapsed_frames, 0);
    assert_eq!(clock.frame(), 0);
    clock.animate(5_050);
    // 50 ms is 3 frames at 60 per second
    assert_eq!(clock.elapsed_frames, 3);
    clock.animate(6_000);
    assert_eq!(clock.elapsed_frames, 60);
}

#[test]
fn ticking_twice_at_the_same_time_advances_once() {
    let mut once = FloatAnimator::new(NumberAnimator::new(1000), 0);
    once.animate(100);
    let mut twice = FloatAnimator::new(NumberAnimator::new(1000), 0);
    twice.animate(100);
    twice.animate(100);
    assert_eq!(once.elapsed_frames, 6);
    assert_eq!(twice.elapsed_frames, 6);
    assert_eq!(once.frame(), twice.frame());
}

#[test]
fn clock_ignores_time_before_its_start() {
    let mut clock = FloatAnimator::new(NumberAnimator::new(1000), 1_000);
    clock.animate(10);
    assert_eq!(clock.elapsed_frames, 0);
    assert_eq!(clock.frame(), 0);
}

#[test]
fn clock_drives_an_empty_stream() {
    let mut clock = FloatAnimator::new(AnimationStream::<usize, NumberAnimator>::new(), 0);
    clock.animate(1_000);
    assert!(clock.is_over());
    assert_eq!(clock.frame(), None);
}
