use bomb_chain::animation::{
    Animation, AnimationChain, AnimationStream, AnimationZip, Animator, ConstantAnimation,
    EndlessAnimator, FrameAnimation, OneOf, SingleAnimation,
};

/// An animation of `duration` frames whose sample is twice the frames played.
fn double(duration: usize) -> FrameAnimation<usize, fn(usize) -> usize> {
    fn twice(e: usize) -> usize {
        e * 2
    }
    FrameAnimation::new(twice as fn(usize) -> usize, duration)
}

#[test]
fn animation_test_animator() {
    let mut animator = Animator::new(vec![
        OneOf::First(ConstantAnimation(2)),
        OneOf::Second(double(5)),
    ]);

    let mut frames = Vec::new();

    loop {
        frames.push(animator.current_frame());
        animator.advance_frames(1);
        if animator.is_over() {
            break;
        }
    }

    assert_eq!(
        frames,
        vec![vec![2, 0], vec![2, 2], vec![2, 4], vec![2, 6], vec![2, 8]]
    );
}

#[test]
fn chain_hands_leftover_frames_to_the_second() {
    let mut chain = AnimationChain::new(double(2), double(10));
    assert_eq!(chain.current_frame(), 0);
    chain.advance_frames(5);
    // two frames go to the first, three to the second
    assert_eq!(chain.current_frame(), 6);
    assert!(!chain.is_over());
    chain.advance_frames(7);
    assert!(chain.is_over());
}

#[test]
fn zip_pairs_samples_and_ends_when_both_end() {
    let mut zip = AnimationZip::new(double(1), ConstantAnimation(7u8));
    assert_eq!(zip.current_frame(), (0, 7));
    assert!(!zip.is_over());
    zip.advance_frames(3);
    assert_eq!(zip.current_frame(), (6, 7));
    assert!(zip.is_over());
}

fn stream_of(durations: &[usize]) -> AnimationStream<usize, FrameAnimation<usize, fn(usize) -> usize>> {
    let mut s = AnimationStream::new();
    for &d in durations {
        s.push(double(d));
    }
    s
}

#[test]
fn stream_catch_up_equals_single_steps() {
    for frames in 0..12 {
        let mut at_once = stream_of(&[2, 3, 4]);
        at_once.advance_frames(frames);
        let mut one_by_one = stream_of(&[2, 3, 4]);
        for _ in 0..frames {
            one_by_one.advance_frames(1);
        }
        assert_eq!(at_once.current_frame(), one_by_one.current_frame());
        assert_eq!(at_once.is_over(), one_by_one.is_over());
    }
}

#[test]
fn stream_plays_heads_in_turn() {
    let mut s = stream_of(&[2, 3]);
    assert_eq!(s.current_frame(), Some(0));
    s.advance_frames(2);
    assert_eq!(s.current_frame(), Some(0));
    s.advance_frames(1);
    assert_eq!(s.current_frame(), Some(2));
    s.advance_frames(2);
    assert_eq!(s.current_frame(), None);
    assert!(s.is_over());
}

#[test]
fn stream_ignores_finished_animations() {
    let mut s = AnimationStream::new();
    s.push(double(0));
    assert!(s.is_over());
    assert_eq!(s.current_frame(), None);
}

#[test]
fn endless_drops_finished_members_and_never_ends() {
    let mut pool = EndlessAnimator::new(vec![double(1), double(3)]);
    assert_eq!(pool.current_frame(), vec![0, 0]);
    pool.advance_frames(1);
    assert_eq!(pool.current_frame(), vec![2]);
    pool.push(double(5));
    pool.advance_frames(2);
    assert_eq!(pool.current_frame(), vec![4]);
    assert!(!pool.is_over());
}

#[test]
fn endless_holds_members_last_first() {
    let mut pool = EndlessAnimator::new(vec![double(4), double(9)]);
    pool.advance_frames(5);
    assert_eq!(pool.current_frame(), vec![10]);
    let mut pool = EndlessAnimator::new(vec![ConstantAnimation(1), ConstantAnimation(2)]);
    assert_eq!(pool.current_frame(), vec![2, 1]);
}

#[test]
fn single_hands_over_once() {
    let mut single = SingleAnimation::new(vec![1, 2, 3]);
    assert!(!single.is_over());
    single.advance_frames(4);
    assert_eq!(single.current_frame(), vec![1, 2, 3]);
    assert!(single.is_over());
    assert_eq!(single.current_frame(), Vec::<i32>::new());
}
