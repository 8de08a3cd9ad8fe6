//! The animation primitives: linear transforms of a cell or a particle, a
//! number easing toward its target, and a sequencer of sound cues.
use crate::animation::Animation;
use crate::board::CellType;
use vstd::prelude::*;

verus! {

/// An interpolated quantity, worth `num / den`.
#[derive(Clone, Copy, Debug, PartialEq, Eq, Structural)]
pub struct Lerp {
    pub num: u128,
    pub den: u64,
}

/// How far into its interpolation an effect is after `elapsed` frames: the
/// frames past the delay, at most the duration.
pub open spec fn progress(elapsed: int, delay: int, duration: int) -> int {
    if elapsed <= delay {
        0
    } else if elapsed - delay >= duration {
        duration
    } else {
        elapsed - delay
    }
}

/// The value between `from` and `to` at `p` frames of `duration`; with no
/// duration, the value is `to` at once.
pub open spec fn lerp(from: u64, to: u64, p: int, duration: int) -> Lerp {
    if duration == 0 {
        Lerp { num: to as u128, den: 1 }
    } else {
        Lerp { num: (from * (duration - p) + to * p) as u128, den: duration as u64 }
    }
}

/// `a + b`, held at the ceiling of `usize`.
pub open spec fn sat_add(a: usize, b: nat) -> usize {
    if a + b > usize::MAX {
        usize::MAX
    } else {
        (a + b) as usize
    }
}

fn progress_of(elapsed: usize, delay: usize, duration: usize) -> (p: usize)
    ensures
        p == progress(elapsed as int, delay as int, duration as int),
{
    if elapsed <= delay {
        0
    } else if elapsed - delay >= duration {
        duration
    } else {
        elapsed - delay
    }
}

fn lerp_of(from: u64, to: u64, p: usize, duration: usize) -> (r: Lerp)
    requires
        p <= duration,
        duration <= u64::MAX,
    ensures
        r == lerp(from, to, p as int, duration as int),
{
    if duration == 0 {
        Lerp { num: to as u128, den: 1 }
    } else {
        let d = duration as u128;
        let q = p as u128;
        let a = from as u128;
        let b = to as u128;
        proof {
            let m: int = if from > to { from as int } else { to as int };
            assert(a * (d - q) <= m * (d - q)) by (nonlinear_arith)
                requires
                    a <= m,
                    q <= d,
            ;
            assert(b * q <= m * q) by (nonlinear_arith)
                requires
                    b <= m,
                    0 <= q,
            ;
            assert(m * (d - q) + m * q == m * d) by (nonlinear_arith);
            assert(m * d <= 0xffff_ffff_ffff_ffff * 0xffff_ffff_ffff_ffff) by (nonlinear_arith)
                requires
                    0 <= m <= 0xffff_ffff_ffff_ffff,
                    0 <= d <= 0xffff_ffff_ffff_ffff,
            ;
        }
        Lerp { num: a * (d - q) + b * q, den: duration as u64 }
    }
}

/// A cell as drawn in one frame.
#[derive(Clone, Copy, Debug, PartialEq, Eq, Structural)]
pub struct FloatingCell {
    pub id: usize,
    pub x: usize,
    pub y: Lerp,
    pub cell_type: CellType,
    pub opacity: Lerp,
}

/// A cell moving linearly from one row and opacity to another over
/// `duration` frames, after `delay` frames.
#[derive(Clone, Copy, Debug)]
pub struct CellAnimator {
    id: usize,
    x: usize,
    y: (u64, u64),
    opacity: (u64, u64),
    delay: usize,
    duration: usize,
    elapsed: usize,
    cell_type: CellType,
}

impl View for CellAnimator {
    type V = CellAnimator;

    open spec fn view(&self) -> CellAnimator {
        *self
    }
}

impl CellAnimator {
    /// The frames played so far.
    pub closed spec fn elapsed(&self) -> usize {
        self.elapsed
    }

    /// The frames waited before the change starts.
    pub closed spec fn delay(&self) -> usize {
        self.delay
    }

    /// The frames the change lasts.
    pub closed spec fn duration(&self) -> usize {
        self.duration
    }

    /// Advancing adds to the frames played (held at the ceiling of `usize`)
    /// and keeps delay, duration and every frame; the animator is done once
    /// the frames played reach its delay and duration.
    pub proof fn lemma_played(&self, frames: nat)
        ensures
            self.played(frames).elapsed() == sat_add(self.elapsed(), frames),
            self.played(frames).delay() == self.delay(),
            self.played(frames).duration() == self.duration(),
            forall|e: int| #[trigger] self.played(frames).frame_at(e) == self.frame_at(e),
            self.done() <==> self.elapsed() >= self.delay() + self.duration(),
    {
    }

    /// The frame this animator shows after `elapsed` frames.
    pub closed spec fn frame_at(&self, elapsed: int) -> FloatingCell {
        let p = progress(elapsed, self.delay as int, self.duration as int);
        FloatingCell {
            id: self.id,
            x: self.x,
            y: lerp(self.y.0, self.y.1, p, self.duration as int),
            cell_type: self.cell_type,
            opacity: lerp(self.opacity.0, self.opacity.1, p, self.duration as int),
        }
    }

    /// This animator `frames` frames later.
    pub closed spec fn played(&self, frames: nat) -> CellAnimator {
        CellAnimator { elapsed: sat_add(self.elapsed, frames), ..*self }
    }

    /// Whether the delay and the duration have both run out.
    pub closed spec fn done(&self) -> bool {
        self.elapsed >= self.delay + self.duration
    }

    pub fn new(
        id: usize,
        x: usize,
        y: (u64, u64),
        opacity: (u64, u64),
        delay: usize,
        duration: usize,
        cell_type: CellType,
    ) -> (r: Self)
        ensures
            r.elapsed() == 0,
            forall|e: int|
                #[trigger] r.frame_at(e) == (FloatingCell {
                    id,
                    x,
                    y: lerp(y.0, y.1, progress(e, delay as int, duration as int), duration as int),
                    cell_type,
                    opacity: lerp(opacity.0, opacity.1, progress(e, delay as int, duration as int), duration as int),
                }),
            r.done() <==> delay + duration == 0,
            r.delay() == delay,
            r.duration() == duration,
    {
        CellAnimator { id, x, y, opacity, delay, duration, cell_type, elapsed: 0 }
    }
}

impl Animation<FloatingCell> for CellAnimator {
    type Model = CellAnimator;

    open spec fn model(&self) -> CellAnimator {
        self@
    }

    open spec fn advanced(m: CellAnimator, frames: nat) -> CellAnimator {
        m.played(frames)
    }

    open spec fn finished(m: CellAnimator) -> bool {
        m.done()
    }

    open spec fn sample_is(m: CellAnimator, value: FloatingCell) -> bool {
        value == m.frame_at(m.elapsed() as int)
    }

    open spec fn after_sample(m: CellAnimator) -> CellAnimator {
        m
    }

    fn advance_frames(&mut self, frames: usize) {
        self.elapsed = self.elapsed.saturating_add(frames);
    }

    fn current_frame(&mut self) -> (r: FloatingCell) {
        let p = progress_of(self.elapsed, self.delay, self.duration);
        FloatingCell {
            id: self.id,
            x: self.x,
            y: lerp_of(self.y.0, self.y.1, p, self.duration),
            cell_type: self.cell_type,
            opacity: lerp_of(self.opacity.0, self.opacity.1, p, self.duration),
        }
    }

    fn is_over(&self) -> (r: bool) {
        self.elapsed >= self.delay && self.elapsed - self.delay >= self.duration
    }
}

/// A particle as drawn in one frame.
#[derive(Clone, Copy, Debug, PartialEq, Eq)]
pub struct FloatingParticle {
    pub id: usize,
    pub color: &'static str,
    pub cell_type: CellType,
    pub x: usize,
    pub y: usize,
    pub expansion: Lerp,
    pub opacity: Lerp,
}

/// A particle at a fixed slot whose expansion and opacity change linearly
/// over `duration` frames, after `delay` frames.
#[derive(Clone, Copy, Debug)]
pub struct ParticleAnimator {
    id: usize,
    color: &'static str,
    cell_type: CellType,
    x: usize,
    y: usize,
    expansion: (u64, u64),
    opacity: (u64, u64),
    delay: usize,
    duration: usize,
    elapsed: usize,
}

impl View for ParticleAnimator {
    type V = ParticleAnimator;

    open spec fn view(&self) -> ParticleAnimator {
        *self
    }
}

impl ParticleAnimator {
    /// The frames played so far.
    pub closed spec fn elapsed(&self) -> usize {
        self.elapsed
    }

    /// The frames waited before the change starts.
    pub closed spec fn delay(&self) -> usize {
        self.delay
    }

    /// The frames the change lasts.
    pub closed spec fn duration(&self) -> usize {
        self.duration
    }

    /// Advancing adds to the frames played (held at the ceiling of `usize`)
    /// and keeps delay, duration and every frame; the animator is done once
    /// the frames played reach its delay and duration.
    pub proof fn lemma_played(&self, frames: nat)
        ensures
            self.played(frames).elapsed() == sat_add(self.elapsed(), frames),
            self.played(frames).delay() == self.delay(),
            self.played(frames).duration() == self.duration(),
            forall|e: int| #[trigger] self.played(frames).frame_at(e) == self.frame_at(e),
            self.done() <==> self.elapsed() >= self.delay() + self.duration(),
    {
    }

    /// The frame this animator shows after `elapsed` frames.
    pub closed spec fn frame_at(&self, elapsed: int) -> FloatingParticle {
        let p = progress(elapsed, self.delay as int, self.duration as int);
        FloatingParticle {
            id: self.id,
            color: self.color,
            cell_type: self.cell_type,
            x: self.x,
            y: self.y,
            expansion: lerp(self.expansion.0, self.expansion.1, p, self.duration as int),
            opacity: lerp(self.opacity.0, self.opacity.1, p, self.duration as int),
        }
    }

    /// This animator `frames` frames later.
    pub closed spec fn played(&self, frames: nat) -> ParticleAnimator {
        ParticleAnimator { elapsed: sat_add(self.elapsed, frames), ..*self }
    }

    /// Whether the delay and the duration have both run out.
    pub closed spec fn done(&self) -> bool {
        self.elapsed >= self.delay + self.duration
    }

    pub fn new(
        id: usize,
        color: &'static str,
        cell_type: CellType,
        x: usize,
        y: usize,
        expansion: (u64, u64),
        opacity: (u64, u64),
        delay: usize,
        duration: usize,
    ) -> (r: Self)
        ensures
            r.elapsed() == 0,
            forall|e: int|
                #[trigger] r.frame_at(e) == (FloatingParticle {
                    id,
                    color,
                    cell_type,
                    x,
                    y,
                    expansion: lerp(expansion.0, expansion.1, progress(e, delay as int, duration as int), duration as int),
                    opacity: lerp(opacity.0, opacity.1, progress(e, delay as int, duration as int), duration as int),
                }),
            r.done() <==> delay + duration == 0,
            r.delay() == delay,
            r.duration() == duration,
    {
        ParticleAnimator { id, color, cell_type, x, y, expansion, opacity, delay, duration, elapsed: 0 }
    }
}

impl Animation<FloatingParticle> for ParticleAnimator {
    type Model = ParticleAnimator;

    open spec fn model(&self) -> ParticleAnimator {
        self@
    }

    open spec fn advanced(m: ParticleAnimator, frames: nat) -> ParticleAnimator {
        m.played(frames)
    }

    open spec fn finished(m: ParticleAnimator) -> bool {
        m.done()
    }

    open spec fn sample_is(m: ParticleAnimator, value: FloatingParticle) -> bool {
        value == m.frame_at(m.elapsed() as int)
    }

    open spec fn after_sample(m: ParticleAnimator) -> ParticleAnimator {
        m
    }

    fn advance_frames(&mut self, frames: usize) {
        self.elapsed = self.elapsed.saturating_add(frames);
    }

    fn current_frame(&mut self) -> (r: FloatingParticle) {
        let p = progress_of(self.elapsed, self.delay, self.duration);
        FloatingParticle {
            id: self.id,
            color: self.color,
            cell_type: self.cell_type,
            x: self.x,
            y: self.y,
            expansion: lerp_of(self.expansion.0, self.expansion.1, p, self.duration),
            opacity: lerp_of(self.opacity.0, self.opacity.1, p, self.duration),
        }
    }

    fn is_over(&self) -> (r: bool) {
        self.elapsed >= self.delay && self.elapsed - self.delay >= self.duration
    }
}

/// One frame of easing: a quarter of the way from `current` to `target`,
/// rounded up.
pub open spec fn ease_step(current: usize, target: usize) -> usize {
    ((current * 3 + target + 3) / 4) as usize
}

/// `frames` frames of easing.
pub open spec fn ease(current: usize, target: usize, frames: nat) -> usize
    decreases frames,
{
    if frames == 0 {
        current
    } else {
        ease(ease_step(current, target), target, (frames - 1) as nat)
    }
}

/// A number that chases its target a quarter of the remaining way each
/// frame; it never finishes.
#[derive(Clone, Copy, Debug)]
pub struct NumberAnimator {
    target: usize,
    current: usize,
}

impl View for NumberAnimator {
    type V = (usize, usize);

    closed spec fn view(&self) -> (usize, usize) {
        (self.current, self.target)
    }
}

impl NumberAnimator {
    pub fn new(target: usize) -> (r: Self)
        ensures
            r@ == (0usize, target),
    {
        NumberAnimator { target, current: 0 }
    }

    pub fn set_target(&mut self, target: usize)
        ensures
            final(self)@ == (old(self)@.0, target),
    {
        self.target = target;
    }
}

impl Animation<usize> for NumberAnimator {
    type Model = (usize, usize);

    open spec fn model(&self) -> (usize, usize) {
        self@
    }

    open spec fn advanced(m: (usize, usize), frames: nat) -> (usize, usize) {
        (ease(m.0, m.1, frames), m.1)
    }

    open spec fn finished(m: (usize, usize)) -> bool {
        false
    }

    open spec fn sample_is(m: (usize, usize), value: usize) -> bool {
        value == m.0
    }

    open spec fn after_sample(m: (usize, usize)) -> (usize, usize) {
        m
    }

    fn advance_frames(&mut self, frames: usize) {
        let mut i: usize = 0;
        while i < frames
            invariant
                i <= frames,
                self.target == old(self).target,
                ease(self.current, self.target, (frames - i) as nat) == ease(
                    old(self).current,
                    old(self).target,
                    frames as nat,
                ),
            decreases frames - i,
        {
            let c = self.current as u128;
            let t = self.target as u128;
            let next = (c * 3 + t + 3) / 4;
            assert(next <= if c > t { c } else { t });
            self.current = next as usize;
            i += 1;
        }
    }

    fn current_frame(&mut self) -> (r: usize) {
        self.current
    }

    fn is_over(&self) -> (r: bool) {
        false
    }
}

/// A sound cue.
#[derive(Clone, Copy, Debug, PartialEq, Eq, Structural)]
pub enum Sound {
    Break,
    Fall,
    Feed,
    Stuck,
    LevelUp,
}

/// Offsets that never increase along `events`.
pub open spec fn descending(events: Seq<(usize, Sound)>) -> bool {
    forall|i: int, j: int| 0 <= i <= j < events.len() ==> (#[trigger] events[i]).0 >= (#[trigger] events[j]).0
}

/// Moves the cues of `pending` due by frame `t` (its tail) into `ready`, in
/// the order of their offsets.
pub open spec fn drain(pending: Seq<(usize, Sound)>, ready: Seq<Sound>, t: usize) -> (Seq<(usize, Sound)>, Seq<Sound>)
    decreases pending.len(),
{
    if pending.len() > 0 && pending.last().0 <= t {
        drain(pending.drop_last(), ready.push(pending.last().1), t)
    } else {
        (pending, ready)
    }
}

/// The number of entries of `s` whose offset is at least `v`.
pub open spec fn count_at_least(s: Seq<(usize, Sound)>, v: usize) -> nat
    decreases s.len(),
{
    if s.len() == 0 {
        0
    } else {
        count_at_least(s.drop_last(), v) + if s.last().0 >= v { 1nat } else { 0nat }
    }
}

/// `events` sorted by descending offset, keeping the order of equal offsets:
/// each event in turn goes after every earlier one whose offset is at least
/// its own.
pub open spec fn sorted_desc(events: Seq<(usize, Sound)>) -> Seq<(usize, Sound)>
    decreases events.len(),
{
    if events.len() == 0 {
        events
    } else {
        let s = sorted_desc(events.drop_last());
        s.insert(count_at_least(s, events.last().0) as int, events.last())
    }
}

proof fn lemma_count_at_least(s: Seq<(usize, Sound)>, v: usize, k: int)
    requires
        descending(s),
        0 <= k <= s.len(),
        forall|j: int| k <= j < s.len() ==> (#[trigger] s[j]).0 < v,
        k > 0 ==> s[k - 1].0 >= v,
    ensures
        count_at_least(s, v) == k,
    decreases s.len(),
{
    if s.len() > 0 {
        let t = s.drop_last();
        assert(descending(t)) by {
            assert forall|i: int, j: int| 0 <= i <= j < t.len() implies (#[trigger] t[i]).0 >= (
            #[trigger] t[j]).0 by {
                assert(s[i].0 >= s[j].0);
            }
        }
        if k < s.len() {
            assert(s.last() == s[s.len() - 1]);
            lemma_count_at_least(t, v, k);
        } else {
            if k > 1 {
                assert(s[k - 2].0 >= s[k - 1].0);
            }
            lemma_count_at_least(t, v, k - 1);
        }
    }
}

/// `events` sorted by descending offset, keeping the order of equal offsets.
fn sort_descending(events: Vec<(usize, Sound)>) -> (r: Vec<(usize, Sound)>)
    ensures
        descending(r@),
        r@.to_multiset() == events@.to_multiset(),
        r@ == sorted_desc(events@),
{
    let mut sorted: Vec<(usize, Sound)> = Vec::new();
    assert(events@.subrange(0, 0) =~= sorted@);
    let mut i: usize = 0;
    while i < events.len()
        invariant
            i <= events@.len(),
            descending(sorted@),
            sorted@.to_multiset() == events@.subrange(0, i as int).to_multiset(),
            sorted@ == sorted_desc(events@.subrange(0, i as int)),
        decreases events@.len() - i,
    {
        let e = events[i];
        let mut k: usize = sorted.len();
        while k > 0 && sorted[k - 1].0 < e.0
            invariant
                k <= sorted@.len(),
                forall|j: int| k <= j < sorted@.len() ==> (#[trigger] sorted@[j]).0 < e.0,
            decreases k,
        {
            k -= 1;
        }
        let ghost before = sorted@;
        sorted.insert(k, e);
        proof {
            broadcast use vstd::seq_lib::group_to_multiset_ensures;
            assert(sorted@ =~= before.insert(k as int, e));
            assert(events@.subrange(0, i + 1) =~= events@.subrange(0, i as int).push(e));
            assert forall|a: int, b: int| 0 <= a <= b < sorted@.len() implies (#[trigger] sorted@[a]).0
                >= (#[trigger] sorted@[b]).0 by {
                if a < k && b > k {
                    assert(sorted@[a] == before[a]);
                    assert(sorted@[b] == before[b - 1]);
                } else if a < k && b == k {
                    assert(before[a].0 >= before[k - 1].0);
                } else if a < k {
                    assert(sorted@[a] == before[a]);
                    assert(sorted@[b] == before[b]);
                } else if a > k {
                    assert(sorted@[a] == before[a - 1]);
                    assert(sorted@[b] == before[b - 1]);
                } else if b > k {
                    assert(sorted@[b] == before[b - 1]);
                }
            }
            before.insert_ensures(k as int, e);
            vstd::seq_lib::to_multiset_insert(before, k as int, e);
            lemma_count_at_least(before, e.0, k as int);
            assert(events@.subrange(0, i + 1).drop_last() =~= events@.subrange(0, i as int));
            assert(events@.subrange(0, i + 1).last() == e);
        }
        i += 1;
    }
    assert(events@.subrange(0, i as int) =~= events@);
    sorted
}

/// A sequencer of sound cues, each due a number of frames after the start.
/// Advancing moves the due cues to a ready list; a sample hands the ready
/// list over, so each cue is delivered once.
pub struct SoundPlayer {
    frames_elapsed: usize,
    events: Vec<(usize, Sound)>,
    current: Vec<Sound>,
}

impl View for SoundPlayer {
    /// The frames played, the pending cues (latest first) and the ready cues.
    type V = (usize, Seq<(usize, Sound)>, Seq<Sound>);

    closed spec fn view(&self) -> (usize, Seq<(usize, Sound)>, Seq<Sound>) {
        (self.frames_elapsed, self.events@, self.current@)
    }
}

/// `m` is a fresh sequencer of the cues `cues`: they are sorted latest
/// first (cues due at the same frame keep their order), and those due at
/// frame 0 are ready.
pub open spec fn plays(m: (usize, Seq<(usize, Sound)>, Seq<Sound>), cues: Seq<(usize, Sound)>) -> bool {
    &&& m.0 == 0
    &&& exists|sorted: Seq<(usize, Sound)>|
        descending(sorted) && sorted.to_multiset() == cues.to_multiset() && sorted == sorted_desc(cues)
            && (m.1, m.2) == drain(
            sorted,
            Seq::empty(),
            0,
        )
}

proof fn lemma_drain_keeps_late(pending: Seq<(usize, Sound)>, ready: Seq<Sound>, t: usize)
    requires
        descending(pending),
        pending.len() > 0,
        pending[0].0 > t,
    ensures
        drain(pending, ready, t).0.len() > 0,
    decreases pending.len(),
{
    if pending.last().0 <= t {
        if pending.len() == 1 {
            assert(pending.last() == pending[0]);
        } else {
            assert(pending.drop_last()[0] == pending[0]);
            assert(descending(pending.drop_last())) by {
                assert forall|i: int, j: int| 0 <= i <= j < pending.drop_last().len() implies (
                #[trigger] pending.drop_last()[i]).0 >= (#[trigger] pending.drop_last()[j]).0 by {
                    assert(pending[i].0 >= pending[j].0);
                }
            }
            lemma_drain_keeps_late(pending.drop_last(), ready.push(pending.last().1), t);
        }
    }
}

/// A sequencer fresh from a cue list with a cue due after frame 0 has not
/// finished.
pub proof fn lemma_plays_pending(m: (usize, Seq<(usize, Sound)>, Seq<Sound>), cues: Seq<(usize, Sound)>, i: int)
    requires
        plays(m, cues),
        0 <= i < cues.len(),
        cues[i].0 > 0,
    ensures
        m.1.len() > 0,
{
    broadcast use vstd::seq_lib::group_to_multiset_ensures;
    let sorted = choose|sorted: Seq<(usize, Sound)>|
        descending(sorted) && sorted.to_multiset() == cues.to_multiset() && (m.1, m.2) == drain(
            sorted,
            Seq::empty(),
            0,
        );
    assert(cues.contains(cues[i]));
    assert(sorted.to_multiset().count(cues[i]) > 0);
    assert(sorted.contains(cues[i]));
    let j = choose|j: int| 0 <= j < sorted.len() && sorted[j] == cues[i];
    assert(sorted[0].0 >= sorted[j].0);
    lemma_drain_keeps_late(sorted, Seq::empty(), 0);
}

impl SoundPlayer {
    /// A sequencer for `events`, sorted latest first; the cues due at frame 0
    /// are ready at once.
    pub fn new(events: Vec<(usize, Sound)>) -> (r: Self)
        ensures
            plays(r@, events@),
    {
        let sorted = sort_descending(events);
        let ghost s = sorted@;
        let mut player = SoundPlayer { events: sorted, frames_elapsed: 0, current: Vec::new() };
        assert(player.current@ =~= Seq::<Sound>::empty());
        player.advance_frames(0);
        assert((player@.1, player@.2) == drain(s, Seq::empty(), 0));
        player
    }
}

impl Animation<Vec<Sound>> for SoundPlayer {
    type Model = (usize, Seq<(usize, Sound)>, Seq<Sound>);

    open spec fn model(&self) -> (usize, Seq<(usize, Sound)>, Seq<Sound>) {
        self@
    }

    open spec fn advanced(
        m: (usize, Seq<(usize, Sound)>, Seq<Sound>),
        frames: nat,
    ) -> (usize, Seq<(usize, Sound)>, Seq<Sound>) {
        let t = sat_add(m.0, frames);
        let d = drain(m.1, m.2, t);
        (t, d.0, d.1)
    }

    open spec fn finished(m: (usize, Seq<(usize, Sound)>, Seq<Sound>)) -> bool {
        m.1.len() == 0 && m.2.len() == 0
    }

    open spec fn sample_is(m: (usize, Seq<(usize, Sound)>, Seq<Sound>), value: Vec<Sound>) -> bool {
        value@ == m.2
    }

    open spec fn after_sample(m: (usize, Seq<(usize, Sound)>, Seq<Sound>)) -> (
        usize,
        Seq<(usize, Sound)>,
        Seq<Sound>,
    ) {
        (m.0, m.1, Seq::empty())
    }

    fn advance_frames(&mut self, frames: usize) {
        self.frames_elapsed = self.frames_elapsed.saturating_add(frames);
        let t = self.frames_elapsed;
        while self.events.len() > 0 && self.events[self.events.len() - 1].0 <= t
            invariant
                t == self.frames_elapsed,
                t == sat_add(old(self).frames_elapsed, frames as nat),
                drain(self.events@, self.current@, t) == drain(old(self).events@, old(self).current@, t),
            decreases self.events@.len(),
        {
            let (_, sound) = self.events.pop().unwrap();
            self.current.push(sound);
        }
    }

    fn current_frame(&mut self) -> (r: Vec<Sound>) {
        let mut taken: Vec<Sound> = Vec::new();
        std::mem::swap(&mut taken, &mut self.current);
        assert(self.current@ =~= Seq::<Sound>::empty());
        taken
    }

    fn is_over(&self) -> (r: bool) {
        self.events.len() == 0 && self.current.len() == 0
    }
}

} // verus!
