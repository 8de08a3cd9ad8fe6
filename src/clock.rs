//! The frame clock: turns wall-clock milliseconds into a fixed rate of
//! virtual frames and advances a schedule by exactly the frames that elapsed.
use crate::animation::Animation;
use std::marker::PhantomData;
use vstd::prelude::*;

verus! {

/// Virtual frames per second.
pub const FRAMES_PER_SECOND: u64 = 60;

/// The virtual frames that have elapsed between `begin_ms` and `now_ms`
/// (counted up to the largest `usize`).
pub open spec fn frames_between(begin_ms: u64, now_ms: u64) -> nat {
    if now_ms <= begin_ms {
        0
    } else {
        let f = (now_ms - begin_ms) * FRAMES_PER_SECOND / 1000;
        if f > usize::MAX {
            usize::MAX as nat
        } else {
            f as nat
        }
    }
}

/// The frame count and schedule model after a tick at `now_ms`: the schedule
/// advances by the frames elapsed since the last count, if there are any.
pub open spec fn ticked<T, A: Animation<T>>(begin_ms: u64, counted: usize, m: A::Model, now_ms: u64) -> (usize, A::Model) {
    let f = frames_between(begin_ms, now_ms);
    if f > counted {
        (f as usize, A::advanced(m, (f - counted) as nat))
    } else {
        (counted, m)
    }
}

/// Ticking twice at the same time advances the schedule no more than ticking
/// once.
pub proof fn lemma_tick_idempotent<T, A: Animation<T>>(begin_ms: u64, counted: usize, m: A::Model, now_ms: u64)
    ensures
        ({
            let once = ticked::<T, A>(begin_ms, counted, m, now_ms);
            ticked::<T, A>(begin_ms, once.0, once.1, now_ms) == once
        }),
{
}

/// A schedule driven by a clock: it records when it started and how many
/// virtual frames it has played.
pub struct FloatAnimator<T, A: Animation<T>> {
    pub begin_at: u64,
    pub elapsed_frames: usize,
    pub animation: A,
    pub phantom: PhantomData<T>,
}

impl<T, A: Animation<T>> FloatAnimator<T, A> {
    /// When the clock started, in milliseconds.
    pub open spec fn begin_ms(&self) -> u64 {
        self.begin_at
    }

    /// The virtual frames played so far.
    pub open spec fn counted(&self) -> usize {
        self.elapsed_frames
    }

    /// A clock started at `now_ms` around `animation`.
    pub fn new(animation: A, now_ms: u64) -> (r: Self)
        ensures
            r.begin_ms() == now_ms,
            r.counted() == 0,
            r.animation.model() == animation.model(),
    {
        FloatAnimator { begin_at: now_ms, elapsed_frames: 0, animation, phantom: PhantomData }
    }

    /// One tick at `now_ms`: advances the schedule by the virtual frames that
    /// have elapsed since the last recorded count, if any.
    pub fn animate(&mut self, now_ms: u64)
        ensures
            final(self).begin_ms() == old(self).begin_ms(),
            (final(self).counted(), final(self).animation.model()) == ticked::<T, A>(
                old(self).begin_ms(),
                old(self).counted(),
                old(self).animation.model(),
                now_ms,
            ),
    {
        if now_ms > self.begin_at {
            let elapsed = (now_ms - self.begin_at) as u128;
            let fps = FRAMES_PER_SECOND as u128;
            assert(fps == 60);
            let frames = elapsed * fps / 1000;
            let frames: usize = if frames > usize::MAX as u128 {
                usize::MAX
            } else {
                frames as usize
            };
            if frames > self.elapsed_frames {
                let delta = frames - self.elapsed_frames;
                self.animation.advance_frames(delta);
                self.elapsed_frames = frames;
            }
        }
    }

    /// The schedule's sample.
    pub fn frame(&mut self) -> (r: T)
        ensures
            A::sample_is(old(self).animation.model(), r),
            final(self).animation.model() == A::after_sample(old(self).animation.model()),
            final(self).begin_ms() == old(self).begin_ms(),
            final(self).counted() == old(self).counted(),
    {
        self.animation.current_frame()
    }

    /// Whether the schedule has finished.
    pub fn is_over(&self) -> (r: bool)
        ensures
            r == A::finished(self.animation.model()),
    {
        self.animation.is_over()
    }
}

} // verus!
