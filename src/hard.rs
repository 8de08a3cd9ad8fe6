//! Hard mode: rows of one or two bombs from the load-balancing generator, a
//! level that rises with every row and every bomb, and a grade ladder whose
//! score decays with time.
use crate::animation::Animation;
use crate::board::CellType;
use crate::clock::FloatAnimator;
use crate::effects::{Lerp, Sound};
use crate::game::{AnimatedBoard, GameAction, VisibleState};
use crate::generator::{bumped, SpreadBombGenerator};
use crate::WIDTH;
use vstd::prelude::*;

verus! {

/// The number of grades on the ladder.
pub const GRADES: usize = 19;

/// The index of grade S9, the last before master.
pub const S9: usize = 17;

/// The index of the master grade.
pub const MASTER: usize = 18;

/// A rung of the grade ladder: its name, how many frames it takes to lose a
/// point, and the points it takes to move up.
#[derive(Clone, Copy, Debug)]
pub struct Grade {
    pub grade: &'static str,
    pub decay_rate: u64,
    pub required_score: i64,
}

/// The grade at rung `i` of the ladder, as a table.
pub open spec fn ladder(i: usize) -> Grade {
    let (grade, decay_rate, required_score): (&'static str, u64, i64) = if i == 0 {
        ("C3", 120, 75)
    } else if i == 1 {
        ("C2", 90, 75)
    } else if i == 2 {
        ("C1", 90, 100)
    } else if i == 3 {
        ("B3", 75, 85)
    } else if i == 4 {
        ("B2", 75, 85)
    } else if i == 5 {
        ("B1", 75, 130)
    } else if i == 6 {
        ("A3", 60, 100)
    } else if i == 7 {
        ("A2", 60, 100)
    } else if i == 8 {
        ("A1", 60, 200)
    } else if i == 9 {
        ("S1", 50, 150)
    } else if i == 10 {
        ("S2", 45, 150)
    } else if i == 11 {
        ("S3", 40, 150)
    } else if i == 12 {
        ("S4", 35, 150)
    } else if i == 13 {
        ("S5", 30, 150)
    } else if i == 14 {
        ("S6", 25, 150)
    } else if i == 15 {
        ("S7", 20, 200)
    } else if i == 16 {
        ("S8", 15, 200)
    } else if i == 17 {
        ("S9", 10, 250)
    } else {
        ("master", 10, 1000000)
    };
    Grade { grade, decay_rate, required_score }
}

/// The grade at rung `i` of the ladder.
pub fn rank(i: usize) -> (r: Grade)
    requires
        i < GRADES,
    ensures
        r == ladder(i),
        r.decay_rate > 0,
        r.required_score > 0,
{
    let (grade, decay_rate, required_score) = if i == 0 {
        ("C3", 120, 75)
    } else if i == 1 {
        ("C2", 90, 75)
    } else if i == 2 {
        ("C1", 90, 100)
    } else if i == 3 {
        ("B3", 75, 85)
    } else if i == 4 {
        ("B2", 75, 85)
    } else if i == 5 {
        ("B1", 75, 130)
    } else if i == 6 {
        ("A3", 60, 100)
    } else if i == 7 {
        ("A2", 60, 100)
    } else if i == 8 {
        ("A1", 60, 200)
    } else if i == 9 {
        ("S1", 50, 150)
    } else if i == 10 {
        ("S2", 45, 150)
    } else if i == 11 {
        ("S3", 40, 150)
    } else if i == 12 {
        ("S4", 35, 150)
    } else if i == 13 {
        ("S5", 30, 150)
    } else if i == 14 {
        ("S6", 25, 150)
    } else if i == 15 {
        ("S7", 20, 200)
    } else if i == 16 {
        ("S8", 15, 200)
    } else if i == 17 {
        ("S9", 10, 250)
    } else {
        ("master", 10, 1000000)
    };
    Grade { grade, decay_rate, required_score }
}

/// The rows between single-bomb rows in each section of a hard game.
pub fn single_frequency(section: usize) -> (r: usize)
    ensures
        r == if section == 0 {
            9999
        } else if section <= 7 {
            10 - section
        } else {
            2
        },
        r >= 2,
{
    if section == 0 {
        9999
    } else if section <= 7 {
        10 - section
    } else {
        2
    }
}

/// The largest `r` with `r * r <= n`.
pub fn isqrt(n: u64) -> (r: u64)
    ensures
        r * r <= n < (r + 1) * (r + 1),
        r <= 0xffff_ffff,
{
    let mut r: u64 = 0;
    let mut next_square: u128 = 1;
    while next_square <= n as u128
        invariant
            r * r <= n,
            r <= n,
            r <= 0xffff_ffff,
            next_square == (r + 1) * (r + 1),
        decreases n - r,
    {
        proof {
            assert((r + 1) <= (r + 1) * (r + 1)) by (nonlinear_arith);
            assert(r + 1 <= 0xffff_ffff) by (nonlinear_arith)
                requires
                    (r + 1) * (r + 1) <= n,
                    n <= 0xffff_ffff_ffff_ffff,
            ;
        }
        r += 1;
        let next = r as u128 + 1;
        proof {
            assert(next * next <= 0x1_0000_0000 * 0x1_0000_0000) by (nonlinear_arith)
                requires
                    next <= 0x1_0000_0000,
            ;
        }
        next_square = next * next;
    }
    r
}

/// The time not yet charged after adding the milliseconds from `last_ms` to
/// `now_ms` (three fiftieths of a frame each), held at the ceiling of `u64`.
pub open spec fn charged(pending: u64, last_ms: u64, now_ms: u64) -> u64 {
    if now_ms > last_ms {
        let units: int = if now_ms - last_ms > u64::MAX / 3 { u64::MAX as int } else { (now_ms - last_ms) * 3 };
        if pending + units > u64::MAX {
            u64::MAX
        } else {
            (pending + units) as u64
        }
    } else {
        pending
    }
}

/// The points lost over the time `pending` at a decay of a point per `rate`
/// frames.
pub open spec fn points_lost(pending: u64, rate: u64) -> int {
    (pending / 50 / rate) as int
}

/// `score` less `lost` points (held at the floor of `i64`), and never below
/// zero at the lowest grade.
pub open spec fn decayed(score: i64, lost: int, lowest: bool) -> i64 {
    let l: int = if lost > i64::MAX { i64::MAX as int } else { lost };
    let s: i64 = if score < i64::MIN + l { i64::MIN } else { (score - l) as i64 };
    if lowest && s < 0 {
        0
    } else {
        s
    }
}

/// A chain of five bombs or more in each of the first nine sections.
pub open spec fn chains_ok(m: Seq<usize>) -> bool {
    forall|i: int| 0 <= i < 9 ==> #[trigger] m[i] >= 5
}

/// The longest chains `m` after a chain of `bombs` in `section`.
pub open spec fn with_chain(m: Seq<usize>, section: int, bombs: usize) -> Seq<usize> {
    if m[section] < bombs {
        m.update(section, bombs)
    } else {
        m
    }
}

/// `r` is the integer square root of `n`.
pub open spec fn root_of(n: int, r: int) -> bool {
    0 <= r && r * r <= n < (r + 1) * (r + 1)
}

/// The bombs of a chain as scored: at most 2^21 - 1.
pub open spec fn capped(bombs: usize) -> int {
    if bombs > 0x1f_ffff {
        0x1f_ffff
    } else {
        bombs as int
    }
}

/// `score` plus `gain`, held at the ceiling of `i64`.
pub open spec fn plus_gain(score: i64, gain: int) -> int {
    if score > i64::MAX - gain {
        i64::MAX as int
    } else {
        score + gain
    }
}

/// The score and grade after climbing from grade `g` with `score` points:
/// each grade's points are spent to reach the next, up to master; S9 moves
/// on only in the last section with the chain condition `ok`.
pub open spec fn climb(score: int, g: int, section: usize, ok: bool) -> (int, int)
    decreases MASTER - g,
{
    if 0 <= g < MASTER && score >= ladder(g as usize).required_score {
        if g == S9 && (section < 9 || !ok) {
            (score, g)
        } else {
            climb(score - ladder(g as usize).required_score, g + 1, section, ok)
        }
    } else {
        (score, g)
    }
}

/// The grade ladder: the score toward the next grade, the grade reached, the
/// longest chain in each section, and the time not yet charged as decay (in
/// fiftieths of a frame).
pub struct GradeManager {
    pub score: i64,
    pub current_grade: usize,
    pub max_chain_per_section: Vec<usize>,
    pub pending: u64,
    pub last_timestamp: u64,
}

impl GradeManager {
    pub open spec fn wf(&self) -> bool {
        &&& self.current_grade < GRADES
        &&& self.max_chain_per_section@.len() == 10
    }

    pub fn new(now_ms: u64) -> (r: Self)
        ensures
            r.wf(),
            r.score == 0,
            r.current_grade == 0,
    {
        GradeManager {
            score: 0,
            current_grade: 0,
            max_chain_per_section: vec![0, 0, 0, 0, 0, 0, 0, 0, 0, 0],
            pending: 0,
            last_timestamp: now_ms,
        }
    }

    pub fn current_grade(&self) -> (r: Grade)
        requires
            self.wf(),
        ensures
            r == ladder(self.current_grade),
            r.decay_rate > 0,
            r.required_score > 0,
    {
        rank(self.current_grade)
    }

    /// Charges the time since the last call: a point for every `decay_rate`
    /// frames at the current grade; the lowest grade never goes below zero.
    pub fn decay(&mut self, now_ms: u64)
        requires
            old(self).wf(),
        ensures
            final(self).wf(),
            final(self).current_grade == old(self).current_grade,
            final(self).max_chain_per_section == old(self).max_chain_per_section,
            final(self).last_timestamp == now_ms,
            ({
                let p = charged(old(self).pending, old(self).last_timestamp, now_ms);
                let rate = ladder(old(self).current_grade).decay_rate;
                &&& final(self).pending == p - points_lost(p, rate) * rate * 50
                &&& final(self).score == decayed(
                    old(self).score,
                    points_lost(p, rate),
                    old(self).current_grade == 0,
                )
            }),
    {
        if now_ms > self.last_timestamp {
            let ms = now_ms - self.last_timestamp;
            let units = if ms > u64::MAX / 3 { u64::MAX } else { ms * 3 };
            self.pending = self.pending.saturating_add(units);
        }
        self.last_timestamp = now_ms;
        let rate = self.current_grade().decay_rate;
        let frames = self.pending / 50;
        let decay = frames / rate;
        proof {
            assert(decay * rate <= frames) by (nonlinear_arith)
                requires
                    decay == frames / rate,
                    rate > 0,
            ;
            assert(frames * 50 <= self.pending) by (nonlinear_arith)
                requires
                    frames == self.pending / 50,
            ;
        }
        self.pending = self.pending - decay * rate * 50;
        let lost: i64 = if decay > i64::MAX as u64 { i64::MAX } else { decay as i64 };
        self.score = if self.score < i64::MIN + lost { i64::MIN } else { self.score - lost };
        if self.current_grade == 0 && self.score < 0 {
            self.score = 0;
        }
    }

    /// Whether the master grade is earned: S9 with its points, and a chain of
    /// five bombs or more in each of the first nine sections.
    pub fn fulfills_master_condition(&self) -> (r: bool)
        requires
            self.wf(),
        ensures
            r == (self.current_grade == S9 && self.score >= 250 && forall|i: int|
                0 <= i < 9 ==> #[trigger] self.max_chain_per_section@[i] >= 5),
    {
        let mut i: usize = 0;
        while i < 9
            invariant
                self.wf(),
                i <= 9,
                forall|j: int| 0 <= j < i ==> #[trigger] self.max_chain_per_section@[j] >= 5,
            decreases 9 - i,
        {
            if self.max_chain_per_section[i] < 5 {
                return false;
            }
            i += 1;
        }
        self.current_grade == S9 && self.score >= 250
    }

    /// Scores a chain of `bombs` bombs in `section`: the square root of the
    /// cube of the bombs, times one more than half the section. Moves up the
    /// ladder while the points suffice; S9 moves to master only in the last
    /// section with the master condition met. Returns whether the points
    /// reached the next grade.
    pub fn add(&mut self, section: usize, bombs: usize) -> (promoted: bool)
        requires
            old(self).wf(),
            section < 10,
        ensures
            final(self).wf(),
            final(self).current_grade >= old(self).current_grade,
            final(self).pending == old(self).pending,
            final(self).last_timestamp == old(self).last_timestamp,
            if old(self).current_grade == S9 && section == 9 && old(self).max_chain_per_section@[9] > 0 {
                &&& !promoted
                &&& final(self).score == old(self).score
                &&& final(self).current_grade == old(self).current_grade
                &&& final(self).max_chain_per_section@ == old(self).max_chain_per_section@
            } else {
                &&& final(self).max_chain_per_section@ == with_chain(
                    old(self).max_chain_per_section@,
                    section as int,
                    bombs,
                )
                &&& exists|root: int|
                    #[trigger] root_of(capped(bombs) * capped(bombs) * capped(bombs), root) && (
                    final(self).score as int,
                    final(self).current_grade as int,
                ) == climb(
                    plus_gain(old(self).score, root * (section / 2 + 1)),
                    old(self).current_grade as int,
                    section,
                    chains_ok(final(self).max_chain_per_section@),
                ) && promoted == (plus_gain(old(self).score, root * (section / 2 + 1)) >= ladder(
                    old(self).current_grade,
                ).required_score && !(final(self).current_grade == S9 && final(self).score >= 250))
            },
    {
        if self.current_grade == S9 && section == 9 && self.max_chain_per_section[9] > 0 {
            return false;
        }
        let b: u64 = if bombs > 0x1f_ffff { 0x1f_ffff } else { bombs as u64 };
        proof {
            assert(b * b <= 0x1f_ffff * 0x1f_ffff) by (nonlinear_arith)
                requires
                    b <= 0x1f_ffff,
            ;
            assert(b * b * b <= 0x1f_ffff * 0x1f_ffff * 0x1f_ffff) by (nonlinear_arith)
                requires
                    b <= 0x1f_ffff,
            ;
        }
        let root = isqrt(b * b * b);
        let factor = (section / 2 + 1) as u64;
        proof {
            assert(root * factor <= 0xffff_ffff * 5) by (nonlinear_arith)
                requires
                    root <= 0xffff_ffff,
                    factor <= 5,
            ;
        }
        let gain = root * factor;
        let gain: i64 = if gain > i64::MAX as u64 { i64::MAX } else { gain as i64 };
        assert(gain == root * factor);
        assert(capped(bombs) == b);
        self.score = if self.score > i64::MAX - gain { i64::MAX } else { self.score + gain };
        let ghost s1 = self.score as int;
        assert(s1 == plus_gain(old(self).score, root * (section / 2 + 1)));
        if self.max_chain_per_section[section] < bombs {
            self.max_chain_per_section.set(section, bombs);
        }
        let ghost chains = self.max_chain_per_section@;
        assert(chains =~= with_chain(old(self).max_chain_per_section@, section as int, bombs));
        let ghost ok = chains_ok(chains);
        let promoted = self.score >= self.current_grade().required_score;
        assert(root_of(capped(bombs) * capped(bombs) * capped(bombs), root as int));
        while self.current_grade < MASTER && self.score >= self.current_grade().required_score
            invariant
                self.wf(),
                self.current_grade >= old(self).current_grade,
                section < 10,
                self.max_chain_per_section@ == chains,
                ok == chains_ok(chains),
                old(self).max_chain_per_section@.len() == 10,
                !(old(self).current_grade == S9 && section == 9 && old(self).max_chain_per_section@[9] > 0),
                s1 == plus_gain(old(self).score, root * (section / 2 + 1)),
                root_of(capped(bombs) * capped(bombs) * capped(bombs), root as int),
                chains == with_chain(old(self).max_chain_per_section@, section as int, bombs),
                promoted == (s1 >= ladder(old(self).current_grade).required_score),
                self.pending == old(self).pending,
                self.last_timestamp == old(self).last_timestamp,
                climb(self.score as int, self.current_grade as int, section, ok) == climb(
                    s1,
                    old(self).current_grade as int,
                    section,
                    ok,
                ),
            decreases MASTER - self.current_grade,
        {
            let ghost sc = self.score as int;
            let ghost g = self.current_grade as int;
            assert(self.score >= ladder(self.current_grade).required_score);
            let stuck = if self.current_grade == S9 {
                if section < 9 {
                    true
                } else {
                    let master = self.fulfills_master_condition();
                    assert(ladder(S9).required_score == 250);
                    assert(master == chains_ok(chains));
                    !master
                }
            } else {
                false
            };
            if stuck {
                assert(ladder(S9).required_score == 250);
                assert(climb(sc, g, section, ok) == (sc, g));
                assert((self.score as int, self.current_grade as int) == climb(
                    s1,
                    old(self).current_grade as int,
                    section,
                    chains_ok(self.max_chain_per_section@),
                ));
                assert(root_of(capped(bombs) * capped(bombs) * capped(bombs), root as int));
                assert(self.current_grade == S9 && self.score >= 250);
                assert(self.max_chain_per_section@ == with_chain(old(self).max_chain_per_section@, section as int, bombs));
                return false;
            }
            assert(!(g == S9 && (section < 9 || !ok)));
            let required = self.current_grade().required_score;
            self.score = self.score - required;
            self.current_grade += 1;
            assert(climb(sc, g, section, ok) == climb(sc - required, g + 1, section, ok));
        }
        assert(ladder(S9).required_score == 250);
        assert(climb(self.score as int, self.current_grade as int, section, ok) == (
            self.score as int,
            self.current_grade as int,
        ));
        assert(!(self.current_grade == S9 && self.score >= 250));
        assert(root_of(capped(bombs) * capped(bombs) * capped(bombs), root as int));
        promoted
    }
}

/// The zoom of the grade label, which jumps on a promotion and shrinks back
/// over thirty frames.
#[derive(Clone, Copy, Debug)]
pub struct GradeAnimation {
    frame_since_promotion: usize,
}

impl GradeAnimation {
    pub fn new() -> (r: Self)
        ensures
            r.model() == 30,
    {
        GradeAnimation { frame_since_promotion: 30 }
    }

    pub fn promote(&mut self)
        ensures
            final(self).model() == 0,
    {
        self.frame_since_promotion = 0;
    }
}

impl Animation<Lerp> for GradeAnimation {
    type Model = usize;

    closed spec fn model(&self) -> usize {
        self.frame_since_promotion
    }

    open spec fn advanced(m: usize, frames: nat) -> usize {
        crate::effects::sat_add(m, frames)
    }

    open spec fn finished(m: usize) -> bool {
        false
    }

    /// Twice the size at a promotion, shrinking linearly to the normal size.
    open spec fn sample_is(m: usize, value: Lerp) -> bool {
        value == (Lerp { num: (60 - if m < 30 { m as int } else { 30 }) as u128, den: 30 })
    }

    open spec fn after_sample(m: usize) -> usize {
        m
    }

    fn advance_frames(&mut self, frames: usize) {
        self.frame_since_promotion = self.frame_since_promotion.saturating_add(frames);
    }

    fn current_frame(&mut self) -> (r: Lerp) {
        let f = if self.frame_since_promotion < 30 { self.frame_since_promotion } else { 30 };
        Lerp { num: (60 - f) as u128, den: 30 }
    }

    fn is_over(&self) -> (r: bool) {
        false
    }
}

/// The play clock: it starts after a lead-in and shows minutes, seconds and
/// hundredths of a second.
#[derive(Clone, Copy, Debug)]
pub struct Timer {
    pre_timer_frames: usize,
    elapsed_frames: usize,
}

/// Minutes, seconds and hundredths of a second after `frames` frames,
/// minutes wrapping at an hour.
pub open spec fn clock_face(frames: int) -> (usize, usize, usize) {
    ((frames / 3600 % 60) as usize, (frames / 60 % 60) as usize, (frames % 60 * 100 / 60) as usize)
}

impl Timer {
    pub fn new(pre_timer_frames: usize) -> (r: Self)
        ensures
            r.model() == (pre_timer_frames, 0usize),
    {
        Timer { pre_timer_frames, elapsed_frames: 0 }
    }

    pub fn is_started(&self) -> (r: bool)
        ensures
            r == (self.model().1 >= self.model().0),
    {
        self.elapsed_frames >= self.pre_timer_frames
    }
}

impl Animation<(usize, usize, usize)> for Timer {
    type Model = (usize, usize);

    closed spec fn model(&self) -> (usize, usize) {
        (self.pre_timer_frames, self.elapsed_frames)
    }

    open spec fn advanced(m: (usize, usize), frames: nat) -> (usize, usize) {
        (m.0, crate::effects::sat_add(m.1, frames))
    }

    open spec fn finished(m: (usize, usize)) -> bool {
        false
    }

    open spec fn sample_is(m: (usize, usize), value: (usize, usize, usize)) -> bool {
        value == clock_face(if m.1 > m.0 { m.1 - m.0 } else { 0 })
    }

    open spec fn after_sample(m: (usize, usize)) -> (usize, usize) {
        m
    }

    fn advance_frames(&mut self, frames: usize) {
        self.elapsed_frames = self.elapsed_frames.saturating_add(frames);
    }

    fn current_frame(&mut self) -> (r: (usize, usize, usize)) {
        let frames = if self.elapsed_frames > self.pre_timer_frames {
            self.elapsed_frames - self.pre_timer_frames
        } else {
            0
        };
        (frames / 3600 % 60, frames / 60 % 60, frames % 60 * 100 / 60)
    }

    fn is_over(&self) -> (r: bool) {
        false
    }
}

/// `row` is a hard-mode row dealt with `until` rows left before a single:
/// one bomb when `until` is 0, else two in distinct columns; the counts go
/// from `before` to `after` by one placement in each bomb column.
pub open spec fn hard_row(row: Seq<CellType>, until: usize, before: Seq<u64>, after: Seq<u64>) -> bool {
    if until == 0 {
        exists|a: int|
            0 <= a < WIDTH && row == #[trigger] crate::online::row_of(set![a]) && after == before.update(
                a,
                bumped(before[a]),
            )
    } else {
        exists|a: int, b: int|
            0 <= a < WIDTH && 0 <= b < WIDTH && a != b && row == #[trigger] crate::online::row_of(set![a, b])
                && after == before.update(a, bumped(before[a])).update(b, bumped(before[b]))
    }
}

/// The section after the level reaches `level`: the level's hundreds, at
/// most 9, never below `section`.
pub open spec fn section_after(section: usize, level: usize) -> usize {
    let s: usize = if level / 100 < 9 { (level / 100) as usize } else { 9 };
    if section < s {
        s
    } else {
        section
    }
}

/// The rows left before a single-bomb row, after dealing a row.
pub open spec fn next_until(until: usize, frequency: usize) -> usize {
    if until == 0 {
        (frequency - 1) as usize
    } else {
        (until - 1) as usize
    }
}

/// A hard game: the animated board, the load-balancing generator, the grade
/// ladder, the level and its section, the single-bomb cadence, the play
/// clock, the pending level-up cues and the grade zoom.
pub struct GameHard {
    pub board: AnimatedBoard,
    pub generator: SpreadBombGenerator,
    pub grade: GradeManager,
    pub until_single: usize,
    pub single_frequency: usize,
    pub section: usize,
    pub level: usize,
    pub level_limit: usize,
    pub timer: FloatAnimator<(usize, usize, usize), Timer>,
    pub is_started: bool,
    pub sounds: Vec<Sound>,
    pub grade_animation: FloatAnimator<Lerp, GradeAnimation>,
}

impl GameHard {
    pub open spec fn wf(&self) -> bool {
        &&& self.board.board.wf()
        &&& self.generator.wf()
        &&& self.grade.wf()
        &&& self.section < 10
        &&& self.single_frequency >= 1
    }

    /// Whether the board is filled or the level limit is reached.
    pub open spec fn over(&self) -> bool {
        (exists|x: int| 0 <= x < WIDTH && (#[trigger] self.board.board.slot(x, 0)).is_some())
            || self.level >= self.level_limit
    }

    /// A game seeded by `seed` whose clocks start at `now_ms`; the play clock
    /// waits a second before the first row comes.
    pub fn new(seed: u64, now_ms: u64) -> (r: Self)
        ensures
            r.wf(),
            r.level == 0,
            r.section == 0,
            !r.is_started,
    {
        GameHard {
            board: AnimatedBoard::new(now_ms),
            generator: SpreadBombGenerator::new(seed),
            grade: GradeManager::new(now_ms),
            until_single: 999,
            single_frequency: 999,
            section: 0,
            level: 0,
            level_limit: 999,
            timer: FloatAnimator::new(Timer::new(60), now_ms),
            is_started: false,
            sounds: Vec::new(),
            grade_animation: FloatAnimator::new(GradeAnimation::new(), now_ms),
        }
    }

    pub fn is_over(&self) -> (r: bool)
        requires
            self.wf(),
        ensures
            r == self.over(),
    {
        let filled = self.board.is_filled();
        filled || self.level >= self.level_limit
    }

    /// Whether the grade shown is "master" (and not the grand title).
    pub open spec fn master_title(&self) -> bool {
        self.grade.current_grade == MASTER && !(self.level >= self.level_limit && !(exists|x: int|
            0 <= x < WIDTH && (#[trigger] self.board.board.slot(x, 0)).is_some()))
    }

    fn is_master_title(&self) -> (r: bool)
        requires
            self.wf(),
        ensures
            r == self.master_title(),
    {
        self.grade.current_grade == MASTER && !(self.level >= self.level_limit && !self.board.is_filled())
    }

    /// The grade shown: the ladder's, or "Grandmaster" for a master who
    /// reached the level limit without filling the board.
    pub fn grade(&self) -> (r: &'static str)
        requires
            self.wf(),
        ensures
            r == if self.grade.current_grade == MASTER && self.level >= self.level_limit && !crate::game::filled(
                self.board.board,
            ) {
                "Grandmaster"
            } else {
                ladder(self.grade.current_grade).grade
            },
    {
        if self.grade.current_grade == MASTER && self.level >= self.level_limit && !self.board.is_filled() {
            "Grandmaster"
        } else {
            self.grade.current_grade().grade
        }
    }

    /// The points toward the next grade, and the points it takes.
    pub fn grade_condition(&self) -> (r: (i64, i64))
        requires
            self.wf(),
        ensures
            r.0 == self.grade.score,
    {
        (self.grade.score, self.grade.current_grade().required_score)
    }

    /// Hands over the pending level-up cues.
    pub fn sounds(&mut self) -> (r: Vec<Sound>)
        ensures
            r@ == old(self).sounds@,
            final(self).sounds@.len() == 0,
    {
        let mut taken: Vec<Sound> = Vec::new();
        std::mem::swap(&mut taken, &mut self.sounds);
        taken
    }

    /// The zoom of the grade label.
    pub fn grade_zoom_rate(&mut self) -> Lerp {
        self.grade_animation.frame()
    }

    /// The next row. The level rises by one, except at the last level of a
    /// hundred, at 998 and for a master. Every `single_frequency` rows the
    /// row has one bomb; the others have two in distinct columns.
    pub fn next_row(&mut self) -> (row: [CellType; WIDTH])
        requires
            old(self).wf(),
        ensures
            final(self).wf(),
            final(self).board == old(self).board,
            final(self).section == old(self).section,
            final(self).level_limit == old(self).level_limit,
            final(self).single_frequency == old(self).single_frequency,
            final(self).grade.current_grade == old(self).grade.current_grade,
            final(self).level == if old(self).level % 100 != 99 && old(self).level != 998
                && !old(self).master_title() {
                crate::effects::sat_add(old(self).level, 1)
            } else {
                old(self).level
            },
            old(self).until_single == 0 ==> final(self).until_single == (old(self).single_frequency - 1) as usize
                && exists|a: int|
                0 <= a < WIDTH && row@ == #[trigger] crate::online::row_of(set![a])
                    && final(self).generator.counts() == old(self).generator.counts().update(
                    a,
                    bumped(old(self).generator.counts()[a]),
                ),
            old(self).until_single > 0 ==> final(self).until_single == old(self).until_single - 1
                && exists|a: int, b: int|
                0 <= a < WIDTH && 0 <= b < WIDTH && a != b && row@ == #[trigger] crate::online::row_of(set![a, b])
                    && final(self).generator.counts() == old(self).generator.counts().update(
                    a,
                    bumped(old(self).generator.counts()[a]),
                ).update(b, bumped(old(self).generator.counts()[b])),
    {
        if self.level % 100 != 99 && self.level != 998 && !self.is_master_title() {
            self.level = self.level.saturating_add(1);
        }
        let mut row = [CellType::Tile; WIDTH];
        if self.until_single == 0 {
            self.until_single = self.single_frequency - 1;
            let bomb = self.generator.next_single();
            row[bomb] = CellType::Bomb;
            assert(row@ =~= crate::online::row_of(set![bomb as int]));
        } else {
            let bombs = self.generator.next_double();
            row[bombs.0] = CellType::Bomb;
            row[bombs.1] = CellType::Bomb;
            assert(row@ =~= crate::online::row_of(set![bombs.0 as int, bombs.1 as int]));
            self.until_single = self.until_single - 1;
        }
        row
    }

    /// Feeds the next row, unless the id counter is spent.
    fn feed_next(&mut self)
        requires
            old(self).wf(),
        ensures
            final(self).wf(),
            final(self).level_limit == old(self).level_limit,
            final(self).grade.current_grade == old(self).grade.current_grade,
            final(self).board.visible == old(self).board.visible,
            final(self).section == old(self).section,
            old(self).board.board.next_id() + WIDTH <= usize::MAX ==> (exists|row: Seq<CellType>|
                final(self).board.board@ == crate::board::fed(
                    old(self).board.board@,
                    old(self).board.board.next_id() as int,
                    row,
                ) && #[trigger] hard_row(row, old(self).until_single, old(self).generator.counts(), final(self).generator.counts()))
                && final(self).until_single == next_until(old(self).until_single, old(self).single_frequency),
            old(self).board.board.next_id() + WIDTH > usize::MAX ==> final(self).board.board@ == old(self).board.board@
                && final(self).until_single == old(self).until_single,
    {
        if self.board.board.generated_cells() <= usize::MAX - WIDTH {
            let ghost until = self.until_single;
            let ghost counts = self.generator.counts();
            let row = self.next_row();
            assert(hard_row(row@, until, counts, self.generator.counts()));
            self.board.feed(&row);
        }
    }

    /// Applies `action`. A removal on a finished game does nothing. One that
    /// removes cells raises the level by the bombs removed, scores the chain
    /// on the grade ladder, enters a new section if the level reached one
    /// (a master entering the last section starts it over on a hidden,
    /// cleared board), lets the cells fall and feeds a row. Advancing the
    /// clocks charges grade decay and starts the game once the lead-in ends.
    #[verifier::rlimit(60)]
    pub fn update(&mut self, action: GameAction)
        requires
            old(self).wf(),
        ensures
            final(self).wf(),
            match action {
                GameAction::Remove(x, y) => if old(self).over() {
                    final(self).board.board@ == old(self).board.board@ && final(self).level == old(self).level
                } else {
                    exists|mid: Seq<Seq<Option<crate::board::Cell>>>, removed: Seq<crate::board::Removal>|
                        #[trigger] crate::board::chain_removal(
                            old(self).board.board@,
                            mid,
                            x as int,
                            y as int,
                            removed,
                            WIDTH as int,
                            crate::HEIGHT as int,
                        ) && (removed.len() == 0 ==> final(self).board.board@ == old(self).board.board@
                            && final(self).level == old(self).level) && (removed.len() > 0 ==> final(self).section
                            == section_after(old(self).section, crate::effects::sat_add(old(self).level, crate::board::bomb_count(removed))))
                },
                GameAction::Retry(_, _) => final(self).level == 0 && !final(self).is_started,
                GameAction::Feed => final(self).grade.current_grade == old(self).grade.current_grade && (old(self).board.board.next_id() + WIDTH <= usize::MAX ==> (exists|row: Seq<CellType>|
                    final(self).board.board@ == crate::board::fed(
                        old(self).board.board@,
                        old(self).board.board.next_id() as int,
                        row,
                    ) && #[trigger] hard_row(row, old(self).until_single, old(self).generator.counts(), final(self).generator.counts()))
                    && final(self).until_single == next_until(old(self).until_single, old(self).single_frequency)),
                GameAction::Animate(now_ms) => final(self).grade.current_grade == old(self).grade.current_grade
                    && (old(self).is_started ==> final(self).board.board == old(self).board.board
                    && (final(self).board.animator.counted(), final(self).board.animator.animation.model())
                    == crate::clock::ticked::<Option<crate::game::SceneFrame>, crate::animation::AnimationStream<crate::game::SceneFrame, crate::game::Transition>>(
                    old(self).board.animator.begin_ms(),
                    old(self).board.animator.counted(),
                    old(self).board.animator.animation.model(),
                    now_ms,
                ) && (final(self).grade_animation.counted(), final(self).grade_animation.animation.model())
                    == crate::clock::ticked::<Lerp, GradeAnimation>(
                    old(self).grade_animation.begin_ms(),
                    old(self).grade_animation.counted(),
                    old(self).grade_animation.animation.model(),
                    now_ms,
                )),
            },
    {
        match action {
            GameAction::Remove(x, y) => {
                if self.is_over() {
                    return;
                }
                let ghost before = self.board.board@;
                let (removed_cells, removed_bombs) = self.board.remove(x, y);
                let ghost mid = self.board.board@;
                let ghost removed = choose|removed: Seq<crate::board::Removal>|
                    crate::board::chain_removal(before, mid, x as int, y as int, removed, WIDTH as int, crate::HEIGHT as int)
                        && removed_cells == removed.len() && removed_bombs == crate::board::bomb_count(removed);
                if removed_cells > 0 {
                    self.level = self.level.saturating_add(removed_bombs);
                    let section = if self.level / 100 < 9 { self.level / 100 } else { 9 };
                    let promoted = self.grade.add(section, removed_bombs);
                    if self.section < section {
                        self.section = section;
                        self.single_frequency = single_frequency(section);
                        self.until_single = self.single_frequency;
                        if self.section == 9 && self.is_master_title() {
                            self.level = 900;
                            self.board.reset();
                            self.generator.reset();
                            self.board.visible = VisibleState::Invisible;
                        }
                    }
                    self.board.apply_gravity();
                    self.feed_next();
                    let grand = self.grade.current_grade == MASTER && self.level >= self.level_limit
                        && !self.board.is_filled();
                    if promoted || grand {
                        self.sounds.push(Sound::LevelUp);
                        self.grade_animation.animation.promote();
                    }
                    if self.is_over() && self.board.visible == VisibleState::Invisible {
                        self.board.visible = VisibleState::InvisibleWhileAnimation;
                    }
                }
                assert(crate::board::chain_removal(before, mid, x as int, y as int, removed, WIDTH as int, crate::HEIGHT as int));
            },
            GameAction::Feed => {
                self.feed_next();
            },
            GameAction::Animate(now_ms) => {
                self.board.animate(now_ms);
                self.grade_animation.animate(now_ms);
                self.grade.decay(now_ms);
                if !self.is_over() || self.board.is_animating() {
                    self.timer.animate(now_ms);
                }
                if !self.is_started && self.timer.animation.is_started() {
                    self.is_started = true;
                    self.feed_next();
                }
            },
            GameAction::Retry(seed, now_ms) => {
                *self = GameHard::new(seed, now_ms);
            },
        }
    }
}

} // verus!
