//! The scheduling contract shared by every animation, and the combinators
//! that compose animations: parallel groups, pairs, chains, serial queues and
//! open pools.
use std::marker::PhantomData;
use vstd::prelude::*;

verus! {

/// An animation: a state that advances frame by frame, can be sampled, and
/// may report itself finished. Its behaviour is stated over its model.
pub trait Animation<T>: Sized {
    /// What the behaviour is stated over.
    type Model;

    /// The model of this animation.
    spec fn model(&self) -> Self::Model;

    /// The model after `frames` more frames.
    spec fn advanced(m: Self::Model, frames: nat) -> Self::Model;

    /// Whether the model has finished.
    spec fn finished(m: Self::Model) -> bool;

    /// Whether `value` is what a sample of the model returns.
    spec fn sample_is(m: Self::Model, value: T) -> bool;

    /// The model after a sample (a sample may hand over what it reports).
    spec fn after_sample(m: Self::Model) -> Self::Model;

    fn advance_frames(&mut self, frames: usize)
        ensures
            final(self).model() == Self::advanced(old(self).model(), frames as nat),
    ;

    fn current_frame(&mut self) -> (r: T)
        ensures
            Self::sample_is(old(self).model(), r),
            final(self).model() == Self::after_sample(old(self).model()),
    ;

    fn is_over(&self) -> (r: bool)
        ensures
            r == Self::finished(self.model()),
    ;
}

/// The model of `a` after `frames` single-frame advances, one after another.
pub open spec fn frame_by_frame<T, A: Animation<T>>(m: A::Model, frames: nat) -> A::Model
    decreases frames,
{
    if frames == 0 {
        m
    } else {
        frame_by_frame::<T, A>(A::advanced(m, 1), (frames - 1) as nat)
    }
}

/// A value that never changes; it is finished from the start.
pub struct ConstantAnimation<T: Copy>(pub T);

impl<T: Copy> View for ConstantAnimation<T> {
    type V = T;

    open spec fn view(&self) -> T {
        self.0
    }
}

impl<T: Copy> Animation<T> for ConstantAnimation<T> {
    type Model = T;

    open spec fn model(&self) -> T {
        self@
    }

    open spec fn advanced(m: T, frames: nat) -> T {
        m
    }

    open spec fn finished(m: T) -> bool {
        true
    }

    open spec fn sample_is(m: T, value: T) -> bool {
        value == m
    }

    open spec fn after_sample(m: T) -> T {
        m
    }

    fn advance_frames(&mut self, _frames: usize) {
    }

    fn current_frame(&mut self) -> (r: T) {
        self.0
    }

    fn is_over(&self) -> (r: bool) {
        true
    }
}

/// `a + b`, held at the ceiling of `usize`.
pub open spec fn frames_after(a: usize, b: nat) -> usize {
    if a + b > usize::MAX {
        usize::MAX
    } else {
        (a + b) as usize
    }
}

/// A value computed from the frames played so far, lasting `duration` frames.
#[verifier::reject_recursive_types(T)]
pub struct FrameAnimation<T, F: Fn(usize) -> T> {
    f: F,
    elapsed: usize,
    duration: usize,
    phantom: PhantomData<T>,
}

impl<T, F: Fn(usize) -> T> FrameAnimation<T, F> {
    #[verifier::type_invariant]
    spec fn callable(self) -> bool {
        forall|e: usize| self.f.requires((e,))
    }

    /// An animation whose sample after `e` frames is `f(e)`.
    pub fn new(f: F, duration: usize) -> (r: Self)
        requires
            forall|e: usize| f.requires((e,)),
        ensures
            r.model() == (f, 0usize, duration),
    {
        FrameAnimation { f, elapsed: 0, duration, phantom: PhantomData }
    }
}

impl<T, F: Fn(usize) -> T> Animation<T> for FrameAnimation<T, F> {
    type Model = (F, usize, usize);

    closed spec fn model(&self) -> (F, usize, usize) {
        (self.f, self.elapsed, self.duration)
    }

    open spec fn advanced(m: (F, usize, usize), frames: nat) -> (F, usize, usize) {
        (m.0, frames_after(m.1, frames), m.2)
    }

    open spec fn finished(m: (F, usize, usize)) -> bool {
        m.1 >= m.2
    }

    open spec fn sample_is(m: (F, usize, usize), value: T) -> bool {
        m.0.ensures((m.1,), value)
    }

    open spec fn after_sample(m: (F, usize, usize)) -> (F, usize, usize) {
        m
    }

    fn advance_frames(&mut self, frames: usize) {
        proof {
            use_type_invariant(&*self);
        }
        self.elapsed = self.elapsed.saturating_add(frames);
    }

    fn current_frame(&mut self) -> (r: T) {
        proof {
            use_type_invariant(&*self);
        }
        (self.f)(self.elapsed)
    }

    fn is_over(&self) -> (r: bool) {
        self.elapsed >= self.duration
    }
}

/// One of two kinds of animation with the same payload, so that members of
/// different kinds can share a group.
pub enum OneOf<A1, A2> {
    First(A1),
    Second(A2),
}

impl<T, A1: Animation<T>, A2: Animation<T>> Animation<T> for OneOf<A1, A2> {
    type Model = OneOf<A1::Model, A2::Model>;

    open spec fn model(&self) -> OneOf<A1::Model, A2::Model> {
        match self {
            OneOf::First(a) => OneOf::First(a.model()),
            OneOf::Second(a) => OneOf::Second(a.model()),
        }
    }

    open spec fn advanced(m: OneOf<A1::Model, A2::Model>, frames: nat) -> OneOf<A1::Model, A2::Model> {
        match m {
            OneOf::First(a) => OneOf::First(A1::advanced(a, frames)),
            OneOf::Second(a) => OneOf::Second(A2::advanced(a, frames)),
        }
    }

    open spec fn finished(m: OneOf<A1::Model, A2::Model>) -> bool {
        match m {
            OneOf::First(a) => A1::finished(a),
            OneOf::Second(a) => A2::finished(a),
        }
    }

    open spec fn sample_is(m: OneOf<A1::Model, A2::Model>, value: T) -> bool {
        match m {
            OneOf::First(a) => A1::sample_is(a, value),
            OneOf::Second(a) => A2::sample_is(a, value),
        }
    }

    open spec fn after_sample(m: OneOf<A1::Model, A2::Model>) -> OneOf<A1::Model, A2::Model> {
        match m {
            OneOf::First(a) => OneOf::First(A1::after_sample(a)),
            OneOf::Second(a) => OneOf::Second(A2::after_sample(a)),
        }
    }

    fn advance_frames(&mut self, frames: usize) {
        match self {
            OneOf::First(a) => a.advance_frames(frames),
            OneOf::Second(a) => a.advance_frames(frames),
        }
    }

    fn current_frame(&mut self) -> (r: T) {
        match self {
            OneOf::First(a) => a.current_frame(),
            OneOf::Second(a) => a.current_frame(),
        }
    }

    fn is_over(&self) -> (r: bool) {
        match self {
            OneOf::First(a) => a.is_over(),
            OneOf::Second(a) => a.is_over(),
        }
    }
}

/// A parallel group: every member advances together; a sample lists the
/// members' samples in their order; finished when all members are.
pub struct Animator<T, A: Animation<T>> {
    animations: Vec<A>,
    phantom: PhantomData<T>,
}

impl<T, A: Animation<T>> View for Animator<T, A> {
    type V = Seq<A::Model>;

    closed spec fn view(&self) -> Seq<A::Model> {
        self.animations@.map_values(|a: A| a.model())
    }
}

impl<T, A: Animation<T>> Animator<T, A> {
    pub fn new(animations: Vec<A>) -> (r: Self)
        ensures
            r@ == animations@.map_values(|a: A| a.model()),
    {
        Animator { animations, phantom: PhantomData }
    }
}

impl<T, A: Animation<T>> Animation<Vec<T>> for Animator<T, A> {
    type Model = Seq<A::Model>;

    open spec fn model(&self) -> Seq<A::Model> {
        self@
    }

    open spec fn advanced(m: Seq<A::Model>, frames: nat) -> Seq<A::Model> {
        m.map_values(|a: A::Model| A::advanced(a, frames))
    }

    open spec fn finished(m: Seq<A::Model>) -> bool {
        forall|i: int| 0 <= i < m.len() ==> A::finished(#[trigger] m[i])
    }

    open spec fn sample_is(m: Seq<A::Model>, value: Vec<T>) -> bool {
        &&& value@.len() == m.len()
        &&& forall|i: int| 0 <= i < m.len() ==> A::sample_is(#[trigger] m[i], value@[i])
    }

    open spec fn after_sample(m: Seq<A::Model>) -> Seq<A::Model> {
        m.map_values(|a: A::Model| A::after_sample(a))
    }

    fn advance_frames(&mut self, frames: usize) {
        let ghost m0 = self@;
        let mut i: usize = 0;
        while i < self.animations.len()
            invariant
                m0 == old(self)@,
                self.animations@.len() == m0.len(),
                forall|j: int| 0 <= j < i ==> (#[trigger] self.animations@[j]).model() == A::advanced(m0[j], frames as nat),
                forall|j: int| i <= j < self.animations@.len() ==> (#[trigger] self.animations@[j]).model() == m0[j],
            decreases self.animations@.len() - i,
        {
            self.animations[i].advance_frames(frames);
            i += 1;
        }
        assert(self@ =~= Self::advanced(m0, frames as nat));
    }

    fn current_frame(&mut self) -> (r: Vec<T>) {
        let ghost m0 = self@;
        let mut frame: Vec<T> = Vec::new();
        let mut i: usize = 0;
        while i < self.animations.len()
            invariant
                m0 == old(self)@,
                self.animations@.len() == m0.len(),
                i <= m0.len(),
                frame@.len() == i,
                forall|j: int| 0 <= j < i ==> A::sample_is(m0[j], #[trigger] frame@[j]),
                forall|j: int| 0 <= j < i ==> (#[trigger] self.animations@[j]).model() == A::after_sample(m0[j]),
                forall|j: int| i <= j < self.animations@.len() ==> (#[trigger] self.animations@[j]).model() == m0[j],
            decreases self.animations@.len() - i,
        {
            let value = self.animations[i].current_frame();
            frame.push(value);
            i += 1;
        }
        assert(self@ =~= Self::after_sample(m0));
        assert forall|j: int| 0 <= j < m0.len() implies A::sample_is(#[trigger] m0[j], frame@[j]) by {}
        frame
    }

    fn is_over(&self) -> (r: bool) {
        let mut i: usize = 0;
        while i < self.animations.len()
            invariant
                i <= self.animations@.len(),
                forall|j: int| 0 <= j < i ==> A::finished(#[trigger] self@[j]),
            decreases self.animations@.len() - i,
        {
            if !self.animations[i].is_over() {
                assert(self@[i as int] == self.animations@[i as int].model());
                return false;
            }
            assert(self@[i as int] == self.animations@[i as int].model());
            i += 1;
        }
        true
    }
}

/// Two animations of different payloads side by side: both advance together,
/// a sample pairs their samples, finished when both are.
pub struct AnimationZip<T, U, A1: Animation<T>, A2: Animation<U>> {
    animation_1: A1,
    animation_2: A2,
    phantom: PhantomData<(T, U)>,
}

impl<T, U, A1: Animation<T>, A2: Animation<U>> View for AnimationZip<T, U, A1, A2> {
    type V = (A1::Model, A2::Model);

    closed spec fn view(&self) -> (A1::Model, A2::Model) {
        (self.animation_1.model(), self.animation_2.model())
    }
}

impl<T, U, A1: Animation<T>, A2: Animation<U>> AnimationZip<T, U, A1, A2> {
    pub fn new(animation_1: A1, animation_2: A2) -> (r: Self)
        ensures
            r@ == (animation_1.model(), animation_2.model()),
    {
        AnimationZip { animation_1, animation_2, phantom: PhantomData }
    }
}

impl<T, U, A1: Animation<T>, A2: Animation<U>> Animation<(T, U)> for AnimationZip<T, U, A1, A2> {
    type Model = (A1::Model, A2::Model);

    open spec fn model(&self) -> (A1::Model, A2::Model) {
        self@
    }

    open spec fn advanced(m: (A1::Model, A2::Model), frames: nat) -> (A1::Model, A2::Model) {
        (A1::advanced(m.0, frames), A2::advanced(m.1, frames))
    }

    open spec fn finished(m: (A1::Model, A2::Model)) -> bool {
        A1::finished(m.0) && A2::finished(m.1)
    }

    open spec fn sample_is(m: (A1::Model, A2::Model), value: (T, U)) -> bool {
        A1::sample_is(m.0, value.0) && A2::sample_is(m.1, value.1)
    }

    open spec fn after_sample(m: (A1::Model, A2::Model)) -> (A1::Model, A2::Model) {
        (A1::after_sample(m.0), A2::after_sample(m.1))
    }

    fn advance_frames(&mut self, frames: usize) {
        self.animation_1.advance_frames(frames);
        self.animation_2.advance_frames(frames);
    }

    fn current_frame(&mut self) -> (r: (T, U)) {
        let first = self.animation_1.current_frame();
        let second = self.animation_2.current_frame();
        (first, second)
    }

    fn is_over(&self) -> (r: bool) {
        self.animation_1.is_over() && self.animation_2.is_over()
    }
}

/// One frame of a chain: the first animation advances until it has finished,
/// then the second.
pub open spec fn chain_step<T, A1: Animation<T>, A2: Animation<T>>(m: (A1::Model, A2::Model)) -> (A1::Model, A2::Model) {
    if A1::finished(m.0) {
        (m.0, A2::advanced(m.1, 1))
    } else {
        (A1::advanced(m.0, 1), m.1)
    }
}

/// `frames` frames of a chain, one at a time.
pub open spec fn chain_run<T, A1: Animation<T>, A2: Animation<T>>(m: (A1::Model, A2::Model), frames: nat) -> (
    A1::Model,
    A2::Model,
)
    decreases frames,
{
    if frames == 0 {
        m
    } else {
        chain_run::<T, A1, A2>(chain_step::<T, A1, A2>(m), (frames - 1) as nat)
    }
}

/// Two animations in sequence: the second starts within the very frame
/// budget in which the first finishes.
pub struct AnimationChain<T, A1: Animation<T>, A2: Animation<T>> {
    animation_1: A1,
    animation_2: A2,
    phantom: PhantomData<T>,
}

impl<T, A1: Animation<T>, A2: Animation<T>> View for AnimationChain<T, A1, A2> {
    type V = (A1::Model, A2::Model);

    closed spec fn view(&self) -> (A1::Model, A2::Model) {
        (self.animation_1.model(), self.animation_2.model())
    }
}

impl<T, A1: Animation<T>, A2: Animation<T>> AnimationChain<T, A1, A2> {
    pub fn new(animation_1: A1, animation_2: A2) -> (r: Self)
        ensures
            r@ == (animation_1.model(), animation_2.model()),
    {
        AnimationChain { animation_1, animation_2, phantom: PhantomData }
    }
}

impl<T, A1: Animation<T>, A2: Animation<T>> Animation<T> for AnimationChain<T, A1, A2> {
    type Model = (A1::Model, A2::Model);

    open spec fn model(&self) -> (A1::Model, A2::Model) {
        self@
    }

    open spec fn advanced(m: (A1::Model, A2::Model), frames: nat) -> (A1::Model, A2::Model) {
        chain_run::<T, A1, A2>(m, frames)
    }

    open spec fn finished(m: (A1::Model, A2::Model)) -> bool {
        A1::finished(m.0) && A2::finished(m.1)
    }

    open spec fn sample_is(m: (A1::Model, A2::Model), value: T) -> bool {
        if A1::finished(m.0) {
            A2::sample_is(m.1, value)
        } else {
            A1::sample_is(m.0, value)
        }
    }

    open spec fn after_sample(m: (A1::Model, A2::Model)) -> (A1::Model, A2::Model) {
        if A1::finished(m.0) {
            (m.0, A2::after_sample(m.1))
        } else {
            (A1::after_sample(m.0), m.1)
        }
    }

    fn advance_frames(&mut self, frames: usize) {
        let mut i: usize = 0;
        while i < frames
            invariant
                i <= frames,
                chain_run::<T, A1, A2>(self@, (frames - i) as nat) == chain_run::<T, A1, A2>(
                    old(self)@,
                    frames as nat,
                ),
            decreases frames - i,
        {
            if self.animation_1.is_over() {
                self.animation_2.advance_frames(1);
            } else {
                self.animation_1.advance_frames(1);
            }
            i += 1;
        }
    }

    fn current_frame(&mut self) -> (r: T) {
        if self.animation_1.is_over() {
            self.animation_2.current_frame()
        } else {
            self.animation_1.current_frame()
        }
    }

    fn is_over(&self) -> (r: bool) {
        self.animation_1.is_over() && self.animation_2.is_over()
    }
}

/// One frame of a serial queue: the head advances by one frame and leaves the
/// queue once it has finished.
pub open spec fn stream_step<T, A: Animation<T>>(q: Seq<A::Model>) -> Seq<A::Model> {
    if q.len() == 0 {
        q
    } else {
        let head = A::advanced(q[0], 1);
        if A::finished(head) {
            q.drop_first()
        } else {
            q.update(0, head)
        }
    }
}

/// `frames` frames of a serial queue, one at a time.
pub open spec fn stream_run<T, A: Animation<T>>(q: Seq<A::Model>, frames: nat) -> Seq<A::Model>
    decreases frames,
{
    if frames == 0 {
        q
    } else {
        stream_run::<T, A>(stream_step::<T, A>(q), (frames - 1) as nat)
    }
}

proof fn lemma_stream_run_empty<T, A: Animation<T>>(q: Seq<A::Model>, frames: nat)
    requires
        q.len() == 0,
    ensures
        stream_run::<T, A>(q, frames) == q,
    decreases frames,
{
    if frames > 0 {
        lemma_stream_run_empty::<T, A>(q, (frames - 1) as nat);
    }
}

/// A serial queue: a first-in first-out line of animations in which only the
/// head plays, one frame at a time, handing the rest of a frame budget on to
/// the next once it finishes; a sample is the head's, or none when empty.
pub struct AnimationStream<T, A: Animation<T>> {
    animations: Vec<A>,
    phantom: PhantomData<T>,
}

impl<T, A: Animation<T>> View for AnimationStream<T, A> {
    type V = Seq<A::Model>;

    closed spec fn view(&self) -> Seq<A::Model> {
        self.animations@.map_values(|a: A| a.model())
    }
}

impl<T, A: Animation<T>> AnimationStream<T, A> {
    pub fn new() -> (r: Self)
        ensures
            r@ == Seq::<A::Model>::empty(),
    {
        let r = AnimationStream { animations: Vec::new(), phantom: PhantomData };
        assert(r@ =~= Seq::<A::Model>::empty());
        r
    }

    /// Appends `animation` unless it has already finished.
    pub fn push(&mut self, animation: A)
        ensures
            final(self)@ == if A::finished(animation.model()) {
                old(self)@
            } else {
                old(self)@.push(animation.model())
            },
    {
        if !animation.is_over() {
            self.animations.push(animation);
            assert(self@ =~= old(self)@.push(animation.model()));
        }
    }
}

impl<T, A: Animation<T>> Animation<Option<T>> for AnimationStream<T, A> {
    type Model = Seq<A::Model>;

    open spec fn model(&self) -> Seq<A::Model> {
        self@
    }

    open spec fn advanced(m: Seq<A::Model>, frames: nat) -> Seq<A::Model> {
        stream_run::<T, A>(m, frames)
    }

    open spec fn finished(m: Seq<A::Model>) -> bool {
        m.len() == 0
    }

    open spec fn sample_is(m: Seq<A::Model>, value: Option<T>) -> bool {
        if m.len() == 0 {
            value.is_none()
        } else {
            value.is_some() && A::sample_is(m[0], value.unwrap())
        }
    }

    open spec fn after_sample(m: Seq<A::Model>) -> Seq<A::Model> {
        if m.len() == 0 {
            m
        } else {
            m.update(0, A::after_sample(m[0]))
        }
    }

    fn advance_frames(&mut self, frames: usize) {
        let mut i: usize = 0;
        while i < frames && self.animations.len() > 0
            invariant
                i <= frames,
                stream_run::<T, A>(self@, (frames - i) as nat) == stream_run::<T, A>(
                    old(self)@,
                    frames as nat,
                ),
            decreases frames - i,
        {
            let ghost q = self@;
            self.animations[0].advance_frames(1);
            if self.animations[0].is_over() {
                self.animations.remove(0);
                assert(self@ =~= stream_step::<T, A>(q));
            } else {
                assert(self@ =~= stream_step::<T, A>(q));
            }
            i += 1;
        }
        if i < frames {
            proof {
                lemma_stream_run_empty::<T, A>(self@, (frames - i) as nat);
            }
        }
    }

    fn current_frame(&mut self) -> (r: Option<T>) {
        if self.animations.len() == 0 {
            None
        } else {
            let ghost q = self@;
            let value = self.animations[0].current_frame();
            assert(self@ =~= Self::after_sample(q));
            Some(value)
        }
    }

    fn is_over(&self) -> (r: bool) {
        self.animations.len() == 0
    }
}

/// Advancing a serial queue by a number of frames in one call ends in the same
/// state, and so gives the same sample, as advancing it one frame at a time.
pub proof fn lemma_stream_catch_up<T, A: Animation<T>>(q: Seq<A::Model>, frames: nat)
    ensures
        AnimationStream::<T, A>::advanced(q, frames) == frame_by_frame::<Option<T>, AnimationStream<T, A>>(
            q,
            frames,
        ),
        forall|v: Option<T>|
            AnimationStream::<T, A>::sample_is(AnimationStream::<T, A>::advanced(q, frames), v)
                == AnimationStream::<T, A>::sample_is(
                frame_by_frame::<Option<T>, AnimationStream<T, A>>(q, frames),
                v,
            ),
    decreases frames,
{
    if frames > 0 {
        lemma_stream_catch_up::<T, A>(stream_step::<T, A>(q), (frames - 1) as nat);
        assert(stream_run::<T, A>(stream_step::<T, A>(q), 0) == stream_step::<T, A>(q));
        assert(AnimationStream::<T, A>::advanced(q, 1) == stream_step::<T, A>(q));
    }
}

/// The members of `m` that have not finished, in their order.
pub open spec fn live<T, A: Animation<T>>(m: Seq<A::Model>) -> Seq<A::Model> {
    m.filter(|a: A::Model| !A::finished(a))
}

/// An open pool of animations that run side by side; members may join at any
/// time and leave once finished. It never reports itself finished: its host
/// decides when it is done.
pub struct EndlessAnimator<T, A: Animation<T>> {
    animations: Vec<A>,
    phantom: PhantomData<T>,
}

impl<T, A: Animation<T>> View for EndlessAnimator<T, A> {
    type V = Seq<A::Model>;

    closed spec fn view(&self) -> Seq<A::Model> {
        self.animations@.map_values(|a: A| a.model())
    }
}

impl<T, A: Animation<T>> EndlessAnimator<T, A> {
    /// A pool of `animations`, held last first.
    pub fn new(animations: Vec<A>) -> (r: Self)
        ensures
            r@ == animations@.map_values(|a: A| a.model()).reverse(),
    {
        let mut source = animations;
        let ghost s0 = source@.map_values(|a: A| a.model());
        let mut held: Vec<A> = Vec::new();
        while source.len() > 0
            invariant
                s0 == animations@.map_values(|a: A| a.model()),
                source@.len() <= s0.len(),
                forall|j: int| 0 <= j < source@.len() ==> (#[trigger] source@[j]).model() == s0[j],
                held@.len() == s0.len() - source@.len(),
                forall|t: int| 0 <= t < held@.len() ==> (#[trigger] held@[t]).model() == s0[s0.len() - 1 - t],
            decreases source@.len(),
        {
            let a = source.pop().unwrap();
            held.push(a);
        }
        let r = EndlessAnimator { animations: held, phantom: PhantomData };
        assert(r@ =~= s0.reverse());
        r
    }

    /// Adds `animation` to the pool.
    pub fn push(&mut self, animation: A)
        ensures
            final(self)@ == old(self)@.push(animation.model()),
    {
        self.animations.push(animation);
        assert(self@ =~= old(self)@.push(animation.model()));
    }
}

impl<T, A: Animation<T>> Animation<Vec<T>> for EndlessAnimator<T, A> {
    type Model = Seq<A::Model>;

    open spec fn model(&self) -> Seq<A::Model> {
        self@
    }

    open spec fn advanced(m: Seq<A::Model>, frames: nat) -> Seq<A::Model> {
        live::<T, A>(m.map_values(|a: A::Model| A::advanced(a, frames)))
    }

    open spec fn finished(m: Seq<A::Model>) -> bool {
        false
    }

    open spec fn sample_is(m: Seq<A::Model>, value: Vec<T>) -> bool {
        &&& value@.len() == m.len()
        &&& forall|i: int| 0 <= i < m.len() ==> A::sample_is(#[trigger] m[i], value@[i])
    }

    open spec fn after_sample(m: Seq<A::Model>) -> Seq<A::Model> {
        m.map_values(|a: A::Model| A::after_sample(a))
    }

    fn advance_frames(&mut self, frames: usize) {
        let ghost m0 = self@;
        let mut i: usize = 0;
        while i < self.animations.len()
            invariant
                m0 == old(self)@,
                self.animations@.len() == m0.len(),
                forall|j: int| 0 <= j < i ==> (#[trigger] self.animations@[j]).model() == A::advanced(m0[j], frames as nat),
                forall|j: int| i <= j < self.animations@.len() ==> (#[trigger] self.animations@[j]).model() == m0[j],
            decreases self.animations@.len() - i,
        {
            self.animations[i].advance_frames(frames);
            i += 1;
        }
        let ghost m1 = m0.map_values(|a: A::Model| A::advanced(a, frames as nat));
        assert(self@ =~= m1);
        let mut k: usize = 0;
        let ghost mut j: int = 0;
        while k < self.animations.len()
            invariant
                0 <= j <= m1.len(),
                k <= self.animations@.len(),
                k == live::<T, A>(m1.subrange(0, j)).len(),
                self@ == live::<T, A>(m1.subrange(0, j)) + m1.subrange(j, m1.len() as int),
            decreases self.animations@.len() - k,
        {
            let ghost before = self@;
            let ghost lj = live::<T, A>(m1.subrange(0, j));
            proof {
                assert(m1.subrange(0, j + 1).drop_last() =~= m1.subrange(0, j));
                assert(m1.subrange(0, j + 1).last() == m1[j]);
                assert(before[k as int] == m1[j]);
                assert(live::<T, A>(m1.subrange(0, j + 1)) == if A::finished(m1[j]) {
                    lj
                } else {
                    lj.push(m1[j])
                }) by {
                    reveal(Seq::filter);
                }
            }
            if self.animations[k].is_over() {
                assert(A::finished(m1[j]));
                self.animations.remove(k);
                proof {
                    assert(live::<T, A>(m1.subrange(0, j + 1)) == lj);
                    let rhs = lj + m1.subrange(j + 1, m1.len() as int);
                    let tail = m1.subrange(j, m1.len() as int);
                    assert(before == lj + tail);
                    assert(lj.len() == k);
                    assert(self.animations@.len() + 1 == before.len());
                    assert(self@.len() + 1 == before.len());
                    assert(j < m1.len());
                    assert forall|t: int| 0 <= t < self@.len() implies #[trigger] self@[t] == rhs[t] by {
                        if t >= k {
                            assert((lj + tail)[t + 1] == tail[t + 1 - k]);
                            assert(tail[t + 1 - k] == m1[j + t + 1 - k]);
                            assert(rhs[t] == m1.subrange(j + 1, m1.len() as int)[t - k]);
                        } else {
                            assert((lj + tail)[t] == lj[t]);
                        }
                    }
                    assert(self@.len() == rhs.len());
                    assert forall|t: int| 0 <= t < self@.len() implies #[trigger] self@[t] == (if t < k {
                        before[t]
                    } else {
                        before[t + 1]
                    }) by {}
                    assert(self@ =~= live::<T, A>(m1.subrange(0, j + 1)) + m1.subrange(j + 1, m1.len() as int));
                    j = j + 1;
                }
            } else {
                k += 1;
                proof {
                    assert(self@ =~= live::<T, A>(m1.subrange(0, j + 1)) + m1.subrange(j + 1, m1.len() as int));
                    j = j + 1;
                }
            }
        }
        proof {
            assert(m1.subrange(j, m1.len() as int).len() == 0);
            assert(m1.subrange(0, j) =~= m1);
            assert(self@ =~= live::<T, A>(m1));
        }
    }

    fn current_frame(&mut self) -> (r: Vec<T>) {
        let ghost m0 = self@;
        let mut frame: Vec<T> = Vec::new();
        let mut i: usize = 0;
        while i < self.animations.len()
            invariant
                m0 == old(self)@,
                self.animations@.len() == m0.len(),
                i <= m0.len(),
                frame@.len() == i,
                forall|j: int| 0 <= j < i ==> A::sample_is(m0[j], #[trigger] frame@[j]),
                forall|j: int| 0 <= j < i ==> (#[trigger] self.animations@[j]).model() == A::after_sample(m0[j]),
                forall|j: int| i <= j < self.animations@.len() ==> (#[trigger] self.animations@[j]).model() == m0[j],
            decreases self.animations@.len() - i,
        {
            let value = self.animations[i].current_frame();
            frame.push(value);
            i += 1;
        }
        assert(self@ =~= Self::after_sample(m0));
        assert forall|j: int| 0 <= j < m0.len() implies A::sample_is(#[trigger] m0[j], frame@[j]) by {}
        frame
    }

    fn is_over(&self) -> (r: bool) {
        false
    }
}

/// A value handed over once: the first sample takes it, later samples are
/// empty; finished once it has been taken.
pub struct SingleAnimation<T> {
    target: Vec<T>,
}

impl<T> View for SingleAnimation<T> {
    type V = Seq<T>;

    closed spec fn view(&self) -> Seq<T> {
        self.target@
    }
}

impl<T> SingleAnimation<T> {
    pub fn new(target: Vec<T>) -> (r: Self)
        ensures
            r@ == target@,
    {
        SingleAnimation { target }
    }
}

impl<T> Animation<Vec<T>> for SingleAnimation<T> {
    type Model = Seq<T>;

    open spec fn model(&self) -> Seq<T> {
        self@
    }

    open spec fn advanced(m: Seq<T>, frames: nat) -> Seq<T> {
        m
    }

    open spec fn finished(m: Seq<T>) -> bool {
        m.len() == 0
    }

    open spec fn sample_is(m: Seq<T>, value: Vec<T>) -> bool {
        value@ == m
    }

    open spec fn after_sample(m: Seq<T>) -> Seq<T> {
        Seq::empty()
    }

    fn advance_frames(&mut self, _frames: usize) {
    }

    fn current_frame(&mut self) -> (r: Vec<T>) {
        let mut taken: Vec<T> = Vec::new();
        std::mem::swap(&mut taken, &mut self.target);
        assert(self@ =~= Seq::<T>::empty());
        taken
    }

    fn is_over(&self) -> (r: bool) {
        self.target.len() == 0
    }
}

} // verus!
