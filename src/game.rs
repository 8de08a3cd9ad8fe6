//! The controller: turns board transitions into scheduled animations, keeps
//! the clocks, and plays the normal game (score and bomb limit).
use crate::animation::{
    Animation, AnimationStream, AnimationZip, Animator, EndlessAnimator, SingleAnimation,
};
use crate::board::{
    board_falls, bomb_count, chain_removal, fed, settle_all, Board, Cell, CellType, Removal,
};
use crate::clock::{ticked, FloatAnimator};
use crate::effects::{
    lerp, plays, lemma_plays_pending, progress, sat_add, CellAnimator, FloatingCell, FloatingParticle, Lerp, NumberAnimator, ParticleAnimator, Sound,
    SoundPlayer,
};
use crate::generator::{bag_wf, full_bag, BombGenerator};
use crate::{HEIGHT, WIDTH};
use std::collections::BTreeMap;
use vstd::prelude::*;

verus! {

/// What the schedule shows in one frame: the cells and the due sound cues,
/// and the particles that the frame releases.
pub type SceneFrame = ((Vec<FloatingCell>, Vec<Sound>), Vec<ParticleAnimator>);

/// The cells of one transition together with its sound cues.
pub type CellGroup = AnimationZip<
    Vec<FloatingCell>,
    Vec<Sound>,
    Animator<FloatingCell, CellAnimator>,
    SoundPlayer,
>;

/// One board transition as played on screen.
pub type Transition = AnimationZip<
    (Vec<FloatingCell>, Vec<Sound>),
    Vec<ParticleAnimator>,
    CellGroup,
    SingleAnimation<ParticleAnimator>,
>;

/// Whether the cells above the bottom row are shown.
#[derive(Clone, Copy, Debug, PartialEq, Eq, Structural)]
pub enum VisibleState {
    Visible,
    Invisible,
    InvisibleWhileAnimation,
}

/// The colour of a bomb particle in blast layer `layer`, cycling through seven.
pub open spec fn palette(layer: usize) -> &'static str {
    let k = layer % 7;
    if k == 0 {
        "#FF0000"
    } else if k == 1 {
        "#FF8800"
    } else if k == 2 {
        "#FFFF00"
    } else if k == 3 {
        "#00FF00"
    } else if k == 4 {
        "#00FFFF"
    } else if k == 5 {
        "#0000FF"
    } else {
        "#FF00FF"
    }
}

/// `a * k`, held at the ceiling of `usize`.
pub open spec fn scaled(a: usize, k: usize) -> usize {
    if a * k > usize::MAX {
        usize::MAX
    } else {
        (a * k) as usize
    }
}

/// The model of a scheduled transition: its cell animators, its sound
/// sequencer and the particles it releases.
pub type TransitionModel = ((Seq<CellAnimator>, (usize, Seq<(usize, Sound)>, Seq<Sound>)), Seq<ParticleAnimator>);

/// `p` is the fresh particle of a cell `id` of kind `cell_type` at column
/// `x`, row `y`: a bomb bursts three wide over 40 frames in the colour of
/// `layer`, a tile one wide over 10 frames in white, both fading out after
/// `delay` frames.
pub open spec fn particle_of(
    p: ParticleAnimator,
    id: usize,
    cell_type: CellType,
    x: usize,
    y: usize,
    layer: usize,
    delay: usize,
) -> bool {
    let bomb = cell_type == CellType::Bomb;
    let duration: int = if bomb { 40 } else { 10 };
    &&& p.elapsed() == 0
    &&& forall|e: int|
        #[trigger] p.frame_at(e) == (FloatingParticle {
            id: id.wrapping_add(1_000_000),
            color: if bomb { palette(layer) } else { "#FFFFFF" },
            cell_type,
            x,
            y,
            expansion: lerp(0, if bomb { 3 } else { 1 }, progress(e, delay as int, duration), duration),
            opacity: lerp(1, 0, progress(e, delay as int, duration), duration),
        })
}

/// `p` is the particle the removal `d` leaves, delayed three frames a layer.
pub open spec fn bursts_from(p: ParticleAnimator, d: Removal) -> bool {
    particle_of(p, d.0, d.4, d.2, d.3, d.1, scaled(d.1, 3))
}

/// `a` fades the removed cell `d` out in place over 10 frames, after three
/// frames a layer.
pub open spec fn fades_out(a: CellAnimator, d: Removal) -> bool {
    let delay = scaled(d.1, 3) as int;
    &&& a.elapsed() == 0
    &&& forall|e: int|
        #[trigger] a.frame_at(e) == (FloatingCell {
            id: d.0,
            x: d.2,
            y: lerp(d.3 as u64, d.3 as u64, progress(e, delay, 10), 10),
            cell_type: d.4,
            opacity: lerp(1, 0, progress(e, delay, 10), 10),
        })
}

/// The break cues of the removals `r`: one at three frames a layer for the
/// first layer and for each removal that is a bomb, skipping a cue that
/// repeats the one before it (the removals come layer by layer, so this
/// leaves one cue per distinct delay).
pub open spec fn break_cues(r: Seq<Removal>) -> Seq<(usize, Sound)>
    decreases r.len(),
{
    if r.len() == 0 {
        Seq::empty()
    } else {
        let c = break_cues(r.drop_last());
        let d = r.last();
        if d.4 == CellType::Bomb || d.1 == 0 {
            let off = scaled(d.1, 3);
            if c.len() == 0 || c.last().0 != off {
                c.push((off, Sound::Break))
            } else {
                c
            }
        } else {
            c
        }
    }
}

/// `a` raises the cell of slot `s` from the row below into its slot over 10
/// frames: shown throughout if the board is `visible` or the slot is on the
/// bottom row, fading out on the row above it, hidden elsewhere.
pub open spec fn rises(a: CellAnimator, s: (usize, usize, Cell), visible: bool) -> bool {
    let o: (u64, u64) = if visible || s.1 == HEIGHT - 1 {
        (1, 1)
    } else if s.1 == HEIGHT - 2 {
        (1, 0)
    } else {
        (0, 0)
    };
    &&& a.elapsed() == 0
    &&& forall|e: int|
        #[trigger] a.frame_at(e) == (FloatingCell {
            id: s.2.id,
            x: s.0,
            y: lerp((s.1 + 1) as u64, s.1 as u64, progress(e, 0, 10), 10),
            cell_type: s.2.cell_type,
            opacity: lerp(o.0, o.1, progress(e, 0, 10), 10),
        })
}

/// A grid with every slot empty.
pub open spec fn empty_grid() -> Seq<Seq<Option<Cell>>> {
    Seq::new(WIDTH as nat, |x: int| Seq::new(HEIGHT as nat, |y: int| None::<Cell>))
}

/// Whether the state `v` shows every row.
pub open spec fn shown(v: VisibleState) -> bool {
    v == VisibleState::Visible
}

/// The occupied slots of `b` before column `x`, row `y`, column by column.
pub open spec fn slots_upto(b: Board<WIDTH, HEIGHT>, x: int, y: int) -> Seq<(usize, usize, Cell)> {
    slots_board(b, x) + slots_column(b, x, y)
}

/// `a` holds the cell of slot `s` in place for one frame, hidden above the
/// bottom row unless the board is `visible`.
pub open spec fn holds_still(a: CellAnimator, s: (usize, usize, Cell), visible: bool) -> bool {
    let o: u64 = if !visible && s.1 != HEIGHT - 1 { 0 } else { 1 };
    &&& a.elapsed() == 0
    &&& forall|e: int|
        #[trigger] a.frame_at(e) == (FloatingCell {
            id: s.2.id,
            x: s.0,
            y: lerp(s.1 as u64, s.1 as u64, progress(e, 0, 1), 1),
            cell_type: s.2.cell_type,
            opacity: lerp(o, o, progress(e, 0, 1), 1),
        })
}

/// `t` shows the blast that removed `removed` from a board whose remaining
/// occupied slots are `still`: its cells first hold the remaining cells
/// still, then fade the removed ones out; it releases one particle per
/// removed cell, and it sounds the break cues.
pub open spec fn blast_shows(
    t: TransitionModel,
    removed: Seq<Removal>,
    still: Seq<(usize, usize, Cell)>,
    visible: bool,
) -> bool {
    &&& t.1.len() == removed.len()
    &&& forall|i: int| 0 <= i < removed.len() ==> bursts_from(t.1[i], #[trigger] removed[i])
    &&& t.0.0.len() == still.len() + removed.len()
    &&& forall|i: int| 0 <= i < still.len() ==> holds_still(t.0.0[i], #[trigger] still[i], visible)
    &&& forall|i: int|
        0 <= i < removed.len() ==> fades_out(t.0.0[t.0.0.len() - removed.len() + i], #[trigger] removed[i])
    &&& plays(t.0.1, break_cues(removed))
}

/// A cell at rest at column `x`, row `y`: shown unless the board is hidden
/// and the row is not the bottom one.
pub open spec fn at_rest(c: Cell, x: usize, y: usize, visible: VisibleState) -> FloatingCell {
    FloatingCell {
        id: c.id,
        x,
        y: Lerp { num: y as u128, den: 1 },
        cell_type: c.cell_type,
        opacity: Lerp {
            num: if visible == VisibleState::Invisible && y != HEIGHT - 1 { 0 } else { 1 },
            den: 1,
        },
    }
}

/// The cells at rest of rows `0..y` of column `x` of `b`, top first.
pub open spec fn rest_column(b: Board<WIDTH, HEIGHT>, visible: VisibleState, x: int, y: int) -> Seq<FloatingCell>
    decreases y,
{
    if y <= 0 {
        Seq::empty()
    } else {
        let prev = rest_column(b, visible, x, y - 1);
        match b.slot(x, y - 1) {
            Some(c) => prev.push(at_rest(c, x as usize, (y - 1) as usize, visible)),
            None => prev,
        }
    }
}

/// The cells at rest of columns `0..x` of `b`, column by column.
pub open spec fn rest_board(b: Board<WIDTH, HEIGHT>, visible: VisibleState, x: int) -> Seq<FloatingCell>
    decreases x,
{
    if x <= 0 {
        Seq::empty()
    } else {
        rest_board(b, visible, x - 1) + rest_column(b, visible, x - 1, HEIGHT as int)
    }
}

/// How far the cell `id` fell by the fall map `falls` (0 when it is absent).
pub open spec fn fallen(falls: Map<usize, usize>, id: usize) -> usize {
    if falls.contains_key(id) {
        falls[id]
    } else {
        0
    }
}

/// Some cell of `b` in a slot before column `x`, row `y` (column by column)
/// fell `d` rows by the fall map `falls`.
pub open spec fn fall_seen(b: Board<WIDTH, HEIGHT>, falls: Map<usize, usize>, d: usize, x: int, y: int) -> bool {
    exists|i: int, j: int|
        0 <= i < WIDTH && 0 <= j < HEIGHT && (i < x || (i == x && j < y)) && (#[trigger] b.slot(i, j)).is_some()
            && fallen(falls, b.slot(i, j).unwrap().id) == d
}

/// The frames a fall of `d` rows takes: five a row, and one more.
pub open spec fn fall_time(d: usize) -> usize {
    if scaled(d, 5) < usize::MAX {
        (scaled(d, 5) + 1) as usize
    } else {
        usize::MAX
    }
}

/// `a` slides the cell of slot `s` down `d` rows into its slot, in five
/// frames a row and one more: shown throughout if the board is `visible` or
/// it starts on the bottom row, appearing when it lands on the bottom row,
/// hidden elsewhere.
pub open spec fn slides(a: CellAnimator, s: (usize, usize, Cell), d: usize, visible: bool) -> bool {
    let top: usize = if d <= s.1 { (s.1 - d) as usize } else { 0 };
    let o: (u64, u64) = if visible || top == HEIGHT - 1 {
        (1, 1)
    } else if s.1 == HEIGHT - 1 {
        (0, 1)
    } else {
        (0, 0)
    };
    &&& a.elapsed() == 0
    &&& forall|e: int|
        #[trigger] a.frame_at(e) == (FloatingCell {
            id: s.2.id,
            x: s.0,
            y: lerp(top as u64, s.1 as u64, progress(e, 0, fall_time(d) as int), fall_time(d) as int),
            cell_type: s.2.cell_type,
            opacity: lerp(o.0, o.1, progress(e, 0, fall_time(d) as int), fall_time(d) as int),
        })
}

/// `t` shows the fall into the board `b` by the fall map `falls`: each cell
/// of `b` slides down by its fall distance, there are no particles, and one
/// fall cue sounds for each of the distinct distances `ds` that a cell of
/// `b` fell.
pub open spec fn fall_shows(
    t: TransitionModel,
    ds: Seq<usize>,
    b: Board<WIDTH, HEIGHT>,
    falls: Map<usize, usize>,
    visible: bool,
) -> bool {
    &&& t.0.0.len() == slots_board(b, WIDTH as int).len()
    &&& forall|i: int|
        0 <= i < t.0.0.len() ==> slides(
            t.0.0[i],
            #[trigger] slots_board(b, WIDTH as int)[i],
            fallen(falls, slots_board(b, WIDTH as int)[i].2.id),
            visible,
        )
    &&& t.1.len() == 0
    &&& ds.no_duplicates()
    &&& forall|d: usize| #[trigger] ds.contains(d) <==> d > 0 && fall_seen(b, falls, d, WIDTH as int, 0)
    &&& plays(t.0.1, ds.map_values(|d: usize| (fall_time(d), Sound::Fall)))
}

/// The occupied slots of rows `0..y` of column `x` of `b`, top first, each
/// as column, row and cell.
pub open spec fn slots_column(b: Board<WIDTH, HEIGHT>, x: int, y: int) -> Seq<(usize, usize, Cell)>
    decreases y,
{
    if y <= 0 {
        Seq::empty()
    } else {
        let prev = slots_column(b, x, y - 1);
        match b.slot(x, y - 1) {
            Some(c) => prev.push((x as usize, (y - 1) as usize, c)),
            None => prev,
        }
    }
}

/// The occupied slots of columns `0..x` of `b`, column by column.
pub open spec fn slots_board(b: Board<WIDTH, HEIGHT>, x: int) -> Seq<(usize, usize, Cell)>
    decreases x,
{
    if x <= 0 {
        Seq::empty()
    } else {
        slots_board(b, x - 1) + slots_column(b, x - 1, HEIGHT as int)
    }
}

/// `a` dissolves the cell of slot `s` in place over 10 frames, ten frames
/// later for each row above the bottom.
pub open spec fn dissolves(a: CellAnimator, s: (usize, usize, Cell)) -> bool {
    let delay = (HEIGHT - 1 - s.1) * 10;
    &&& a.elapsed() == 0
    &&& forall|e: int|
        #[trigger] a.frame_at(e) == (FloatingCell {
            id: s.2.id,
            x: s.0,
            y: lerp(s.1 as u64, s.1 as u64, progress(e, delay, 10), 10),
            cell_type: s.2.cell_type,
            opacity: lerp(1, 0, progress(e, delay, 10), 10),
        })
}

/// `t` shows the dissolution of the occupied slots `slots`: no cues, and for
/// each slot its cell dissolving and its particle.
pub open spec fn reset_shows(t: TransitionModel, slots: Seq<(usize, usize, Cell)>) -> bool {
    &&& plays(t.0.1, Seq::empty())
    &&& t.0.0.len() == slots.len()
    &&& t.1.len() == slots.len()
    &&& forall|i: int|
        0 <= i < slots.len() ==> dissolves(t.0.0[i], #[trigger] slots[i]) && particle_of(
            t.1[i],
            slots[i].2.id,
            slots[i].2.cell_type,
            slots[i].0,
            slots[i].1,
            (HEIGHT - 1 - slots[i].1) as usize,
            ((HEIGHT - 1 - slots[i].1) * 10) as usize,
        )
}

/// Whether some column of `b` has a cell in its top row.
pub open spec fn filled(b: Board<WIDTH, HEIGHT>) -> bool {
    exists|x: int| 0 <= x < WIDTH && (#[trigger] b.slot(x, 0)).is_some()
}

/// The cues of a feed: the feed sound at frame 3, and the stuck sound at
/// frame 10 when the board is filled.
pub open spec fn feed_cues(is_filled: bool) -> Seq<(usize, Sound)> {
    if is_filled {
        seq![(3usize, Sound::Feed), (10usize, Sound::Stuck)]
    } else {
        seq![(3usize, Sound::Feed)]
    }
}

/// The colour of a bomb particle by blast layer, cycling through seven.
pub fn particle_color(layer: usize) -> (r: &'static str)
    ensures
        r == palette(layer),
{
    let k = layer % 7;
    if k == 0 {
        "#FF0000"
    } else if k == 1 {
        "#FF8800"
    } else if k == 2 {
        "#FFFF00"
    } else if k == 3 {
        "#00FF00"
    } else if k == 4 {
        "#00FFFF"
    } else if k == 5 {
        "#0000FF"
    } else {
        "#FF00FF"
    }
}

/// `a * k`, held at the ceiling of `usize`.
fn times(a: usize, k: usize) -> (r: usize)
    requires
        k > 0,
    ensures
        r == scaled(a, k),
{
    if a <= usize::MAX / k {
        proof {
            assert(a * k <= usize::MAX) by (nonlinear_arith)
                requires
                    a <= usize::MAX / k,
                    k > 0,
            ;
        }
        a * k
    } else {
        proof {
            assert(a * k > usize::MAX) by (nonlinear_arith)
                requires
                    a > usize::MAX / k,
                    k > 0,
            ;
        }
        usize::MAX
    }
}

fn contains_value(values: &Vec<usize>, v: usize) -> (r: bool)
    ensures
        r == values@.contains(v),
{
    let mut i: usize = 0;
    while i < values.len()
        invariant
            i <= values@.len(),
            forall|j: int| 0 <= j < i ==> values@[j] != v,
        decreases values@.len() - i,
    {
        if values[i] == v {
            return true;
        }
        i += 1;
    }
    false
}

/// The particle left by a removed cell: bombs burst wide and slow in their
/// layer's colour, tiles small and quick in white.
fn burst(id: usize, cell_type: CellType, x: usize, y: usize, layer: usize, delay: usize) -> (r: ParticleAnimator)
    ensures
        particle_of(r, id, cell_type, x, y, layer, delay),
{
    if cell_type == CellType::Bomb {
        ParticleAnimator::new(id.wrapping_add(1_000_000), particle_color(layer), cell_type, x, y, (0, 3), (1, 0), delay, 40)
    } else {
        ParticleAnimator::new(id.wrapping_add(1_000_000), "#FFFFFF", cell_type, x, y, (0, 1), (1, 0), delay, 10)
    }
}

fn transition(cells: Vec<CellAnimator>, sounds: Vec<(usize, Sound)>, particles: Vec<ParticleAnimator>) -> (r: Transition)
    ensures
        r.model().0.0 == cells@.map_values(|a: CellAnimator| a.model()),
        plays(r.model().0.1, sounds@),
        r.model().1 == particles@,
{
    AnimationZip::new(
        AnimationZip::new(Animator::new(cells), SoundPlayer::new(sounds)),
        SingleAnimation::new(particles),
    )
}

/// How many of the removals `dists` are bombs.
fn count_bombs(dists: &Vec<Removal>) -> (r: usize)
    ensures
        r == bomb_count(dists@),
{
    let mut bombs: usize = 0;
    let mut i: usize = 0;
    while i < dists.len()
        invariant
            i <= dists@.len(),
            bombs == bomb_count(dists@.subrange(0, i as int)),
            bombs <= i,
        decreases dists@.len() - i,
    {
        proof {
            assert(dists@.subrange(0, i + 1).drop_last() =~= dists@.subrange(0, i as int));
        }
        if dists[i].4 == CellType::Bomb {
            bombs += 1;
        }
        i += 1;
    }
    assert(dists@.subrange(0, i as int) =~= dists@);
    bombs
}

/// The animation of a blast that removed `dists` from what is now `board`:
/// remaining cells hold still (hidden above the bottom row unless
/// `visible`), removed cells fade layer by layer and each leaves a particle,
/// and a break cue sounds for the first layer and for each layer holding a
/// bomb.
fn blast_transition(board: &Board<WIDTH, HEIGHT>, dists: &Vec<Removal>, visible: bool) -> (r: Transition)
    requires
        board.wf(),
    ensures
        blast_shows(r.model(), dists@, slots_board(*board, WIDTH as int), visible),
{
    let mut particles: Vec<ParticleAnimator> = Vec::new();
    let mut cells: Vec<CellAnimator> = Vec::new();
    let mut cx: usize = 0;
    while cx < WIDTH
        invariant
            cx <= WIDTH,
            board.wf(),
            cells@.len() == slots_board(*board, cx as int).len(),
            forall|i: int|
                0 <= i < cells@.len() ==> holds_still(cells@[i], #[trigger] slots_board(*board, cx as int)[i], visible),
        decreases WIDTH - cx,
    {
        let mut cy: usize = 0;
        while cy < HEIGHT
            invariant
                cy <= HEIGHT,
                board.wf(),
                cx < WIDTH,
                cells@.len() == slots_upto(*board, cx as int, cy as int).len(),
                forall|i: int|
                    0 <= i < cells@.len() ==> holds_still(
                        cells@[i],
                        #[trigger] slots_upto(*board, cx as int, cy as int)[i],
                        visible,
                    ),
            decreases HEIGHT - cy,
        {
            let ghost before = slots_upto(*board, cx as int, cy as int);
            let ghost after = slots_upto(*board, cx as int, cy + 1);
            if let Some(c) = board.get(cx, cy) {
                let o: u64 = if !visible && cy != HEIGHT - 1 { 0 } else { 1 };
                cells.push(CellAnimator::new(c.id, cx, (cy as u64, cy as u64), (o, o), 0, 1, c.cell_type));
                assert(after =~= before.push((cx, cy, c)));
                assert(after[before.len() as int] == (cx, cy, c));
            } else {
                assert(after =~= before);
            }
            proof {
                assert forall|i: int| 0 <= i < before.len() implies after[i] == before[i] by {}
            }
            cy += 1;
        }
        assert(slots_board(*board, cx + 1) =~= slots_upto(*board, cx as int, HEIGHT as int));
        cx += 1;
    }
    let mut sounds: Vec<(usize, Sound)> = Vec::new();
    let ghost k = cells@.len();
    let ghost still = slots_board(*board, WIDTH as int);
    let mut i: usize = 0;
    assert(dists@.subrange(0, 0) =~= Seq::<Removal>::empty());
    while i < dists.len()
        invariant
            i <= dists@.len(),
            cells@.len() == k + i,
            k == still.len(),
            forall|j: int| 0 <= j < k ==> holds_still(cells@[j], #[trigger] still[j], visible),
            particles@.len() == i,
            forall|j: int| 0 <= j < i ==> fades_out(cells@[k + j], #[trigger] dists@[j]),
            forall|j: int| 0 <= j < i ==> bursts_from(particles@[j], #[trigger] dists@[j]),
            sounds@ == break_cues(dists@.subrange(0, i as int)),
        decreases dists@.len() - i,
    {
        proof {
            assert(dists@.subrange(0, i + 1).drop_last() =~= dists@.subrange(0, i as int));
            assert(dists@.subrange(0, i + 1).last() == dists@[i as int]);
        }
        let (id, dist, rx, ry, cell_type) = dists[i];
        let delay = times(dist, 3);
        particles.push(burst(id, cell_type, rx, ry, dist, delay));
        cells.push(CellAnimator::new(id, rx, (ry as u64, ry as u64), (1, 0), delay, 10, cell_type));
        if cell_type == CellType::Bomb || dist == 0 {
            if sounds.len() == 0 || sounds[sounds.len() - 1].0 != delay {
                sounds.push((delay, Sound::Break));
            }
        }
        i += 1;
    }
    assert(dists@.subrange(0, i as int) =~= dists@);
    let r = transition(cells, sounds, particles);
    proof {
        let t = r.model();
        assert forall|j: int| 0 <= j < still.len() implies holds_still(t.0.0[j], #[trigger] still[j], visible) by {
            assert(t.0.0[j] == cells@[j]);
        }
        assert forall|j: int| 0 <= j < dists@.len() implies fades_out(
            t.0.0[t.0.0.len() - dists@.len() + j],
            #[trigger] dists@[j],
        ) by {
            assert(t.0.0[k + j] == cells@[k + j]);
        }
    }
    r
}

/// A board with its animation schedule and particle pool, each on a clock.
pub struct AnimatedBoard {
    pub board: Board<WIDTH, HEIGHT>,
    pub visible: VisibleState,
    pub animator: FloatAnimator<Option<SceneFrame>, AnimationStream<SceneFrame, Transition>>,
    pub particles: FloatAnimator<Vec<FloatingParticle>, EndlessAnimator<FloatingParticle, ParticleAnimator>>,
}

impl AnimatedBoard {
    /// An empty, visible board whose clocks start at `now_ms`.
    pub fn new(now_ms: u64) -> (r: Self)
        ensures
            r.board.wf(),
            r.board.next_id() == 0,
            forall|x: int, y: int| 0 <= x < WIDTH && 0 <= y < HEIGHT ==> r.board.slot(x, y).is_none(),
            r.board@ == empty_grid(),
            r.visible == VisibleState::Visible,
            r.animator.animation.model().len() == 0,
            r.particles.animation.model().len() == 0,
            r.animator.begin_ms() == now_ms,
            r.animator.counted() == 0,
            r.particles.begin_ms() == now_ms,
            r.particles.counted() == 0,
    {
        AnimatedBoard {
            board: Board::new(),
            visible: VisibleState::Visible,
            animator: FloatAnimator::new(AnimationStream::new(), now_ms),
            particles: FloatAnimator::new(EndlessAnimator::new(Vec::new()), now_ms),
        }
    }

    /// Feeds one row and schedules its animation: every cell rises one row,
    /// the cells above the bottom row fading as visibility asks; a feed cue,
    /// and a stuck cue when the board is filled.
    pub fn feed(&mut self, row: &[CellType; WIDTH])
        requires
            old(self).board.wf(),
            old(self).board.next_id() + WIDTH <= usize::MAX,
        ensures
            final(self).board.wf(),
            final(self).board@ == fed(old(self).board@, old(self).board.next_id() as int, row@),
            final(self).board.next_id() == old(self).board.next_id() + WIDTH,
            exists|t: TransitionModel|
                final(self).animator.animation.model() == old(self).animator.animation.model().push(t)
                    && t.1.len() == 0 && #[trigger] plays(t.0.1, feed_cues(filled(final(self).board)))
                    && t.0.0.len() == slots_board(final(self).board, WIDTH as int).len() && forall|i: int|
                    0 <= i < t.0.0.len() ==> rises(
                        t.0.0[i],
                        #[trigger] slots_board(final(self).board, WIDTH as int)[i],
                        shown(final(self).visible),
                    ),
            final(self).visible == old(self).visible,
            final(self).particles == old(self).particles,
            final(self).animator.begin_ms() == old(self).animator.begin_ms(),
            final(self).animator.counted() == old(self).animator.counted(),
    {
        self.board.feed(row);
        let visible = self.visible == VisibleState::Visible;
        let mut cells: Vec<CellAnimator> = Vec::new();
        let mut x: usize = 0;
        while x < WIDTH
            invariant
                x <= WIDTH,
                self.board.wf(),
                cells@.len() == slots_board(self.board, x as int).len(),
                forall|i: int|
                    0 <= i < cells@.len() ==> rises(cells@[i], #[trigger] slots_board(self.board, x as int)[i], visible),
            decreases WIDTH - x,
        {
            let mut y: usize = 0;
            while y < HEIGHT
                invariant
                    y <= HEIGHT,
                    self.board.wf(),
                    x < WIDTH,
                    cells@.len() == slots_upto(self.board, x as int, y as int).len(),
                    forall|i: int|
                        0 <= i < cells@.len() ==> rises(
                            cells@[i],
                            #[trigger] slots_upto(self.board, x as int, y as int)[i],
                            visible,
                        ),
                decreases HEIGHT - y,
            {
                let ghost before = slots_upto(self.board, x as int, y as int);
                let ghost after = slots_upto(self.board, x as int, y + 1);
                if let Some(c) = self.board.get(x, y) {
                    let opacity = if visible || y == HEIGHT - 1 {
                        (1, 1)
                    } else if y == HEIGHT - 2 {
                        (1, 0)
                    } else {
                        (0, 0)
                    };
                    cells.push(CellAnimator::new(c.id, x, ((y + 1) as u64, y as u64), opacity, 0, 10, c.cell_type));
                    assert(after =~= before.push((x, y, c)));
                    assert(after[before.len() as int] == (x, y, c));
                } else {
                    assert(after =~= before);
                }
                proof {
                    assert forall|i: int| 0 <= i < before.len() implies after[i] == before[i] by {}
                }
                y += 1;
            }
            assert(slots_board(self.board, x + 1) =~= slots_upto(self.board, x as int, HEIGHT as int));
            x += 1;
        }
        let ghost slots = slots_board(self.board, WIDTH as int);
        let stuck = self.is_filled();
        let mut sounds: Vec<(usize, Sound)> = Vec::new();
        sounds.push((3, Sound::Feed));
        if stuck {
            sounds.push((10, Sound::Stuck));
        }
        assert(sounds@ =~= feed_cues(stuck));
        let scheduled = transition(cells, sounds, Vec::new());
        let ghost t = scheduled.model();
        proof {
            lemma_plays_pending(t.0.1, feed_cues(stuck), 0);
            assert forall|i: int| 0 <= i < t.0.0.len() implies rises(t.0.0[i], #[trigger] slots[i], visible) by {
                assert(t.0.0[i] == cells@[i]);
            }
        }
        self.animator.animation.push(scheduled);
        assert(t.1 =~= Seq::<ParticleAnimator>::empty());
        assert(visible == shown(self.visible));
        assert(stuck == filled(self.board));
        assert(self.animator.animation.model() == old(self).animator.animation.model().push(t));
        assert(plays(t.0.1, feed_cues(filled(self.board))));
        assert(t.0.0.len() == slots_board(self.board, WIDTH as int).len());
    }

    /// Detonates column `x`, row `y` and schedules the blast: remaining cells
    /// hold still, removed cells fade layer by layer, each removed cell
    /// leaves a particle, and a break cue sounds for the first layer and for
    /// each layer holding a bomb. Returns how many cells and how many bombs
    /// were removed.
    #[verifier::rlimit(40)]
    pub fn remove(&mut self, x: usize, y: usize) -> (r: (usize, usize))
        requires
            old(self).board.wf(),
        ensures
            final(self).board.wf(),
            final(self).board.next_id() == old(self).board.next_id(),
            final(self).visible == old(self).visible,
            final(self).particles == old(self).particles,
            final(self).animator.begin_ms() == old(self).animator.begin_ms(),
            final(self).animator.counted() == old(self).animator.counted(),
            exists|removed: Seq<Removal>|
                chain_removal(old(self).board@, final(self).board@, x as int, y as int, removed, WIDTH as int, HEIGHT as int)
                    && r.0 == removed.len() && r.1 == bomb_count(removed) && (removed.len() == 0
                    ==> final(self).animator.animation.model() == old(self).animator.animation.model()) && (
                removed.len() > 0 ==> exists|t: TransitionModel|
                    final(self).animator.animation.model() == old(self).animator.animation.model().push(t)
                        && #[trigger] blast_shows(
                        t,
                        removed,
                        slots_board(final(self).board, WIDTH as int),
                        shown(final(self).visible),
                    )),
    {
        let dists = self.board.remove(x, y);
        if dists.len() == 0 {
            return (0, 0);
        }
        let visible = self.visible == VisibleState::Visible;
        let blast = blast_transition(&self.board, &dists, visible);
        let ghost t = blast.model();
        assert(!<Transition as Animation<SceneFrame>>::finished(t));
        self.animator.animation.push(blast);
        let bombs = count_bombs(&dists);
        assert(visible == shown(self.visible));
        assert(blast_shows(t, dists@, slots_board(self.board, WIDTH as int), shown(self.visible)));
        assert(self.animator.animation.model() == old(self).animator.animation.model().push(t));
        (dists.len(), bombs)
    }

    /// Lets the cells fall and schedules the fall: each cell slides down by
    /// its fall distance in five frames a row, with a fall cue per distinct
    /// distance.
    pub fn apply_gravity(&mut self)
        requires
            old(self).board.wf(),
        ensures
            final(self).board.wf(),
            final(self).board@ == settle_all(old(self).board@),
            final(self).board.next_id() == old(self).board.next_id(),
            final(self).visible == old(self).visible,
            exists|t: TransitionModel, ds: Seq<usize>|
                #[trigger] fall_shows(
                    t,
                    ds,
                    final(self).board,
                    board_falls(old(self).board@, Map::empty()),
                    shown(final(self).visible),
                )
                    && final(self).animator.animation.model() == if <Transition as Animation<
                    SceneFrame,
                >>::finished(t) {
                    old(self).animator.animation.model()
                } else {
                    old(self).animator.animation.model().push(t)
                },
    {
        let falls: BTreeMap<usize, usize> = self.board.apply_gravity();
        let ghost fm = falls@;
        let visible = self.visible == VisibleState::Visible;
        let mut cells: Vec<CellAnimator> = Vec::new();
        let mut distances: Vec<usize> = Vec::new();
        let mut x: usize = 0;
        while x < WIDTH
            invariant
                x <= WIDTH,
                self.board.wf(),
                falls@ == fm,
                distances@.no_duplicates(),
                forall|d: usize| #[trigger] distances@.contains(d) <==> d > 0 && fall_seen(self.board, fm, d, x as int, 0),
                cells@.len() == slots_board(self.board, x as int).len(),
                forall|i: int|
                    0 <= i < cells@.len() ==> slides(
                        cells@[i],
                        #[trigger] slots_board(self.board, x as int)[i],
                        fallen(fm, slots_board(self.board, x as int)[i].2.id),
                        visible,
                    ),
            decreases WIDTH - x,
        {
            let mut y: usize = 0;
            while y < HEIGHT
                invariant
                    y <= HEIGHT,
                    x < WIDTH,
                    self.board.wf(),
                    falls@ == fm,
                    distances@.no_duplicates(),
                    forall|d: usize|
                        #[trigger] distances@.contains(d) <==> d > 0 && fall_seen(self.board, fm, d, x as int, y as int),
                    cells@.len() == slots_upto(self.board, x as int, y as int).len(),
                    forall|i: int|
                        0 <= i < cells@.len() ==> slides(
                            cells@[i],
                            #[trigger] slots_upto(self.board, x as int, y as int)[i],
                            fallen(fm, slots_upto(self.board, x as int, y as int)[i].2.id),
                            visible,
                        ),
                decreases HEIGHT - y,
            {
                let ghost seen = distances@;
                let ghost before = slots_upto(self.board, x as int, y as int);
                let ghost after = slots_upto(self.board, x as int, y + 1);
                let slot = self.board.get(x, y);
                if let Some(c) = slot {
                    let d: usize = match falls.get(&c.id) {
                        Some(d) => *d,
                        None => 0,
                    };
                    assert(d == fallen(fm, c.id));
                    let top = if d <= y { y - d } else { 0 };
                    let opacity = if visible || top == HEIGHT - 1 {
                        (1, 1)
                    } else if y == HEIGHT - 1 {
                        (0, 1)
                    } else {
                        (0, 0)
                    };
                    let duration = times(d, 5).saturating_add(1);
                    cells.push(CellAnimator::new(c.id, x, (top as u64, y as u64), opacity, 0, duration, c.cell_type));
                    assert(after =~= before.push((x, y, c)));
                    assert(after[before.len() as int] == (x, y, c));
                    proof {
                        assert forall|i: int| 0 <= i < before.len() implies after[i] == before[i] by {}
                    }
                    if d > 0 && !contains_value(&distances, d) {
                        distances.push(d);
                        proof {
                            assert forall|i: int, j: int| 0 <= i < j < distances@.len() implies distances@[i]
                                != distances@[j] by {
                                if j == seen.len() {
                                    assert(seen.contains(seen[i]));
                                }
                            }
                        }
                    }
                    proof {
                        assert forall|e: usize| #[trigger] distances@.contains(e) <==> e > 0 && fall_seen(
                            self.board,
                            fm,
                            e,
                            x as int,
                            y + 1,
                        ) by {
                            vstd::seq_lib::lemma_seq_contains_after_push(seen, d, e);
                            if fall_seen(self.board, fm, e, x as int, y + 1) && e != d {
                                let (i, j) = choose|i: int, j: int|
                                    0 <= i < WIDTH && 0 <= j < HEIGHT && (i < x || (i == x && j < y + 1))
                                        && (#[trigger] self.board.slot(i, j)).is_some() && fallen(
                                        fm,
                                        self.board.slot(i, j).unwrap().id,
                                    ) == e;
                                assert(i != x || j != y);
                                assert(fall_seen(self.board, fm, e, x as int, y as int));
                            }
                            if e == d && d > 0 {
                                assert(self.board.slot(x as int, y as int).is_some());
                            }
                            if seen.contains(e) {
                                let (i, j) = choose|i: int, j: int|
                                    0 <= i < WIDTH && 0 <= j < HEIGHT && (i < x || (i == x && j < y))
                                        && (#[trigger] self.board.slot(i, j)).is_some() && fallen(
                                        fm,
                                        self.board.slot(i, j).unwrap().id,
                                    ) == e;
                                assert(fall_seen(self.board, fm, e, x as int, y + 1));
                            }
                        }
                    }
                } else {
                    assert(after =~= before);
                    proof {
                        assert forall|e: usize| #[trigger] distances@.contains(e) <==> e > 0 && fall_seen(
                            self.board,
                            fm,
                            e,
                            x as int,
                            y + 1,
                        ) by {
                            if fall_seen(self.board, fm, e, x as int, y + 1) {
                                let (i, j) = choose|i: int, j: int|
                                    0 <= i < WIDTH && 0 <= j < HEIGHT && (i < x || (i == x && j < y + 1))
                                        && (#[trigger] self.board.slot(i, j)).is_some() && fallen(
                                        fm,
                                        self.board.slot(i, j).unwrap().id,
                                    ) == e;
                                assert(i != x || j != y);
                                assert(fall_seen(self.board, fm, e, x as int, y as int));
                            }
                            if fall_seen(self.board, fm, e, x as int, y as int) {
                                let (i, j) = choose|i: int, j: int|
                                    0 <= i < WIDTH && 0 <= j < HEIGHT && (i < x || (i == x && j < y))
                                        && (#[trigger] self.board.slot(i, j)).is_some() && fallen(
                                        fm,
                                        self.board.slot(i, j).unwrap().id,
                                    ) == e;
                                assert(fall_seen(self.board, fm, e, x as int, y + 1));
                            }
                        }
                    }
                }
                y += 1;
            }
            proof {
                assert forall|e: usize| #[trigger] distances@.contains(e) <==> e > 0 && fall_seen(
                    self.board,
                    fm,
                    e,
                    x + 1,
                    0,
                ) by {
                    if fall_seen(self.board, fm, e, x + 1, 0) {
                        let (i, j) = choose|i: int, j: int|
                            0 <= i < WIDTH && 0 <= j < HEIGHT && (i < x + 1 || (i == x + 1 && j < 0))
                                && (#[trigger] self.board.slot(i, j)).is_some() && fallen(
                                fm,
                                self.board.slot(i, j).unwrap().id,
                            ) == e;
                        assert(fall_seen(self.board, fm, e, x as int, HEIGHT as int));
                    }
                    if fall_seen(self.board, fm, e, x as int, HEIGHT as int) {
                        let (i, j) = choose|i: int, j: int|
                            0 <= i < WIDTH && 0 <= j < HEIGHT && (i < x || (i == x && j < HEIGHT))
                                && (#[trigger] self.board.slot(i, j)).is_some() && fallen(
                                fm,
                                self.board.slot(i, j).unwrap().id,
                            ) == e;
                        assert(fall_seen(self.board, fm, e, x + 1, 0));
                    }
                }
            }
            assert(slots_board(self.board, x + 1) =~= slots_upto(self.board, x as int, HEIGHT as int));
            x += 1;
        }
        let mut sounds: Vec<(usize, Sound)> = Vec::new();
        let mut i: usize = 0;
        while i < distances.len()
            invariant
                i <= distances@.len(),
                sounds@ == distances@.subrange(0, i as int).map_values(|d: usize| (fall_time(d), Sound::Fall)),
            decreases distances@.len() - i,
        {
            sounds.push((times(distances[i], 5).saturating_add(1), Sound::Fall));
            i += 1;
            assert(sounds@ =~= distances@.subrange(0, i as int).map_values(|d: usize| (fall_time(d), Sound::Fall)));
        }
        assert(distances@.subrange(0, i as int) =~= distances@);
        let scheduled = transition(cells, sounds, Vec::new());
        let ghost t = scheduled.model();
        self.animator.animation.push(scheduled);
        assert(t.1 =~= Seq::<ParticleAnimator>::empty());
        proof {
            let slots = slots_board(self.board, WIDTH as int);
            assert forall|i: int| 0 <= i < t.0.0.len() implies slides(
                t.0.0[i],
                #[trigger] slots[i],
                fallen(fm, slots[i].2.id),
                visible,
            ) by {
                assert(t.0.0[i] == cells@[i]);
            }
        }
        assert(visible == shown(self.visible));
        assert(fall_shows(t, distances@, self.board, fm, shown(self.visible)));
    }

    /// Clears the board and schedules its dissolution row by row from the
    /// bottom, each cell leaving a particle.
    pub fn reset(&mut self)
        requires
            old(self).board.wf(),
        ensures
            final(self).board.wf(),
            final(self).board.next_id() == old(self).board.next_id(),
            forall|x: int, y: int| 0 <= x < WIDTH && 0 <= y < HEIGHT ==> final(self).board.slot(x, y).is_none(),
            final(self).visible == old(self).visible,
            exists|t: TransitionModel|
                #[trigger] reset_shows(t, slots_board(old(self).board, WIDTH as int))
                    && final(self).animator.animation.model() == if <Transition as Animation<
                    SceneFrame,
                >>::finished(t) {
                    old(self).animator.animation.model()
                } else {
                    old(self).animator.animation.model().push(t)
                },
    {
        let mut particles: Vec<ParticleAnimator> = Vec::new();
        let mut cells: Vec<CellAnimator> = Vec::new();
        let mut x: usize = 0;
        while x < WIDTH
            invariant
                x <= WIDTH,
                self.board.wf(),
                self.board == old(self).board,
                cells@.len() == slots_board(self.board, x as int).len(),
                particles@.len() == slots_board(self.board, x as int).len(),
                forall|i: int|
                    0 <= i < cells@.len() ==> dissolves(cells@[i], #[trigger] slots_board(self.board, x as int)[i])
                        && particle_of(
                        particles@[i],
                        slots_board(self.board, x as int)[i].2.id,
                        slots_board(self.board, x as int)[i].2.cell_type,
                        slots_board(self.board, x as int)[i].0,
                        slots_board(self.board, x as int)[i].1,
                        (HEIGHT - 1 - slots_board(self.board, x as int)[i].1) as usize,
                        ((HEIGHT - 1 - slots_board(self.board, x as int)[i].1) * 10) as usize,
                    ),
            decreases WIDTH - x,
        {
            let mut y: usize = 0;
            while y < HEIGHT
                invariant
                    y <= HEIGHT,
                    x < WIDTH,
                    self.board.wf(),
                    self.board == old(self).board,
                    cells@.len() == (slots_board(self.board, x as int) + slots_column(self.board, x as int, y as int)).len(),
                    particles@.len() == cells@.len(),
                    forall|i: int|
                        0 <= i < cells@.len() ==> dissolves(
                            cells@[i],
                            #[trigger] (slots_board(self.board, x as int) + slots_column(self.board, x as int, y as int))[i],
                        ) && particle_of(
                            particles@[i],
                            (slots_board(self.board, x as int) + slots_column(self.board, x as int, y as int))[i].2.id,
                            (slots_board(self.board, x as int) + slots_column(self.board, x as int, y as int))[i].2.cell_type,
                            (slots_board(self.board, x as int) + slots_column(self.board, x as int, y as int))[i].0,
                            (slots_board(self.board, x as int) + slots_column(self.board, x as int, y as int))[i].1,
                            (HEIGHT - 1 - (slots_board(self.board, x as int) + slots_column(self.board, x as int, y as int))[i].1) as usize,
                            ((HEIGHT - 1 - (slots_board(self.board, x as int) + slots_column(self.board, x as int, y as int))[i].1) * 10) as usize,
                        ),
                decreases HEIGHT - y,
            {
                let ghost before = slots_board(self.board, x as int) + slots_column(self.board, x as int, y as int);
                let ghost after = slots_board(self.board, x as int) + slots_column(self.board, x as int, y + 1);
                if let Some(c) = self.board.get(x, y) {
                    let from_bottom = HEIGHT - y - 1;
                    let delay = from_bottom * 10;
                    particles.push(burst(c.id, c.cell_type, x, y, from_bottom, delay));
                    cells.push(CellAnimator::new(c.id, x, (y as u64, y as u64), (1, 0), delay, 10, c.cell_type));
                    assert(after =~= before.push((x, y, c)));
                    assert(after[before.len() as int] == (x, y, c));
                } else {
                    assert(after =~= before);
                }
                proof {
                    assert forall|i: int| 0 <= i < before.len() implies after[i] == before[i] by {}
                }
                y += 1;
            }
            assert(slots_board(self.board, x + 1) =~= slots_board(self.board, x as int) + slots_column(
                self.board,
                x as int,
                HEIGHT as int,
            ));
            x += 1;
        }
        let ghost slots = slots_board(self.board, WIDTH as int);
        let scheduled = transition(cells, Vec::new(), particles);
        let ghost t = scheduled.model();
        proof {
            assert forall|i: int| 0 <= i < slots.len() implies t.0.0[i] == cells@[i] by {}
        }
        assert(reset_shows(t, slots));
        self.animator.animation.push(scheduled);
        self.board.clear();
    }

    /// Whether some column has a cell in its top row.
    pub fn is_filled(&self) -> (r: bool)
        requires
            self.board.wf(),
        ensures
            r == filled(self.board),
    {
        self.board.is_filled()
    }

    /// Advances the schedule and the particles to the time `now_ms`.
    pub fn animate(&mut self, now_ms: u64)
        ensures
            final(self).board == old(self).board,
            final(self).visible == old(self).visible,
            final(self).animator.begin_ms() == old(self).animator.begin_ms(),
            (final(self).animator.counted(), final(self).animator.animation.model()) == ticked::<
                Option<SceneFrame>,
                AnimationStream<SceneFrame, Transition>,
            >(
                old(self).animator.begin_ms(),
                old(self).animator.counted(),
                old(self).animator.animation.model(),
                now_ms,
            ),
            final(self).particles.begin_ms() == old(self).particles.begin_ms(),
            (final(self).particles.counted(), final(self).particles.animation.model()) == ticked::<
                Vec<FloatingParticle>,
                EndlessAnimator<FloatingParticle, ParticleAnimator>,
            >(
                old(self).particles.begin_ms(),
                old(self).particles.counted(),
                old(self).particles.animation.model(),
                now_ms,
            ),
    {
        self.animator.animate(now_ms);
        self.particles.animate(now_ms);
    }

    /// The cells and sound cues of this frame: the playing transition's, or
    /// the board at rest when nothing plays. Particles released by the frame
    /// join the particle pool.
    pub fn frame(&mut self) -> (r: (Vec<FloatingCell>, Vec<Sound>))
        requires
            old(self).board.wf(),
        ensures
            final(self).board == old(self).board,
            final(self).visible == old(self).visible,
            old(self).animator.animation.model().len() > 0 ==> <CellGroup as Animation<
                (Vec<FloatingCell>, Vec<Sound>),
            >>::sample_is(old(self).animator.animation.model()[0].0, r),
            old(self).animator.animation.model().len() > 0 ==> final(self).particles.animation.model()
                == old(self).particles.animation.model() + old(self).animator.animation.model()[0].1,
            old(self).animator.animation.model().len() == 0 ==> r.1@.len() == 0 && r.0@ == rest_board(
                old(self).board,
                old(self).visible,
                WIDTH as int,
            ),
    {
        match self.animator.frame() {
            Some((frame, released)) => {
                let ghost pool = self.particles.animation.model();
                let mut i: usize = 0;
                assert(released@.subrange(0, 0) =~= Seq::<ParticleAnimator>::empty());
                assert(pool + released@.subrange(0, 0) =~= pool);
                while i < released.len()
                    invariant
                        i <= released@.len(),
                        self.particles.animation.model() == pool + released@.subrange(0, i as int),
                        self.board == old(self).board,
                        self.visible == old(self).visible,
                    decreases released@.len() - i,
                {
                    self.particles.animation.push(released[i]);
                    i += 1;
                    assert(self.particles.animation.model() =~= pool + released@.subrange(0, i as int));
                }
                assert(released@.subrange(0, i as int) =~= released@);
                frame
            },
            None => {
                let mut cells: Vec<FloatingCell> = Vec::new();
                let mut x: usize = 0;
                while x < WIDTH
                    invariant
                        x <= WIDTH,
                        self.board.wf(),
                        self.board == old(self).board,
                        self.visible == old(self).visible,
                        cells@ == rest_board(self.board, self.visible, x as int),
                    decreases WIDTH - x,
                {
                    let mut y: usize = 0;
                    while y < HEIGHT
                        invariant
                            y <= HEIGHT,
                            self.board.wf(),
                            self.board == old(self).board,
                            self.visible == old(self).visible,
                            x < WIDTH,
                            cells@ == rest_board(self.board, self.visible, x as int) + rest_column(
                                self.board,
                                self.visible,
                                x as int,
                                y as int,
                            ),
                        decreases HEIGHT - y,
                    {
                        if let Some(c) = self.board.get(x, y) {
                            let o: u128 = if self.visible == VisibleState::Invisible && y != HEIGHT - 1 { 0 } else { 1 };
                            cells.push(FloatingCell {
                                id: c.id,
                                x,
                                y: Lerp { num: y as u128, den: 1 },
                                cell_type: c.cell_type,
                                opacity: Lerp { num: o, den: 1 },
                            });
                        }
                        y += 1;
                        proof {
                            assert(cells@ =~= rest_board(self.board, self.visible, x as int) + rest_column(
                                self.board,
                                self.visible,
                                x as int,
                                y as int,
                            ));
                        }
                    }
                    x += 1;
                }
                (cells, Vec::new())
            },
        }
    }

    /// The particles of this frame.
    pub fn particles(&mut self) -> (r: Vec<FloatingParticle>)
        ensures
            <EndlessAnimator<FloatingParticle, ParticleAnimator> as Animation<Vec<FloatingParticle>>>::sample_is(
                old(self).particles.animation.model(),
                r,
            ),
            final(self).board == old(self).board,
    {
        self.particles.frame()
    }

    /// Whether a transition is still playing.
    pub fn is_animating(&self) -> (r: bool)
        ensures
            r == (self.animator.animation.model().len() > 0),
    {
        !self.animator.is_over()
    }
}

/// What the player or the host asks of a game.
#[derive(Clone, Copy, Debug, PartialEq, Eq, Structural)]
pub enum GameAction {
    /// Feed a row.
    Feed,
    /// Detonate a slot.
    Remove(usize, usize),
    /// Advance the clocks to a time in milliseconds.
    Animate(u64),
    /// Start over, with a new seed, at a time in milliseconds.
    Retry(u64, u64),
}

/// The triangular number of `n`: the score for removing `n` cells at once,
/// held at the ceiling of `usize`.
pub open spec fn chain_score(n: nat) -> usize {
    if (n + 1) * n / 2 > usize::MAX {
        usize::MAX
    } else {
        ((n + 1) * n / 2) as usize
    }
}

fn triangle(n: usize) -> (r: usize)
    ensures
        r == chain_score(n as nat),
{
    let m = n as u128;
    proof {
        assert((m + 1) * m <= 0x1_0000_0000_0000_0000 * 0xffff_ffff_ffff_ffff) by (nonlinear_arith)
            requires
                m <= 0xffff_ffff_ffff_ffff,
        ;
    }
    let t = (m + 1) * m / 2;
    if t > usize::MAX as u128 {
        usize::MAX
    } else {
        t as usize
    }
}

/// A row of tiles with bombs in columns `a` and `b`.
pub open spec fn row_with_bombs(a: int, b: int) -> Seq<CellType> {
    Seq::new(WIDTH as nat, |i: int| if i == a || i == b { CellType::Bomb } else { CellType::Tile })
}

/// The bag `after` is `before` once the pair `(a, b)` has been dealt: the
/// last pair of the bag, or of a fresh full bag when it was empty.
pub open spec fn dealt(before: Seq<(usize, usize)>, after: Seq<(usize, usize)>, a: int, b: int) -> bool {
    if before.len() > 0 {
        a == before.last().0 && b == before.last().1 && after == before.drop_last()
    } else {
        exists|fresh: Seq<(usize, usize)>|
            full_bag(fresh) && a == fresh.last().0 && b == fresh.last().1 && after == #[trigger] fresh.drop_last()
    }
}

/// The grid `after` is `before` fed with the row the bag deals (ids from
/// `next_id`), the bag going from `bag` to `bag_after`; when the id counter
/// has no room left, nothing changes.
pub open spec fn feeds_next(
    before: Seq<Seq<Option<Cell>>>,
    next_id: usize,
    after: Seq<Seq<Option<Cell>>>,
    bag: Seq<(usize, usize)>,
    bag_after: Seq<(usize, usize)>,
) -> bool {
    if next_id + WIDTH <= usize::MAX {
        exists|a: int, b: int|
            0 <= a < b < WIDTH && #[trigger] dealt(bag, bag_after, a, b) && after == fed(
                before,
                next_id as int,
                row_with_bombs(a, b),
            )
    } else {
        after == before && bag_after == bag
    }
}

/// The normal game: rows with two bombs from the uniform-cycle generator, a
/// score of the triangular number of each chain's size, and a limit on the
/// bombs removed.
pub struct Game {
    pub board: AnimatedBoard,
    pub generator: BombGenerator,
    pub score: usize,
    pub bombs_removed: usize,
    pub bombs_limit: usize,
    pub score_animator: FloatAnimator<usize, NumberAnimator>,
}

impl Game {
    /// The board is well formed and the generator's bag deals valid pairs.
    pub open spec fn wf(&self) -> bool {
        self.board.board.wf() && bag_wf(self.generator.bag())
    }

    /// Whether the board is filled or the bomb limit is reached.
    pub open spec fn over(&self) -> bool {
        (exists|x: int| 0 <= x < WIDTH && (#[trigger] self.board.board.slot(x, 0)).is_some())
            || self.bombs_limit <= self.bombs_removed
    }

    /// A game with an empty board, whose generator is seeded by `seed` and
    /// whose clocks start at `now_ms`.
    pub fn new(seed: u64, now_ms: u64) -> (r: Self)
        ensures
            r.wf(),
            r.score == 0,
            r.bombs_removed == 0,
            r.bombs_limit == 999,
            r.board.board.next_id() == 0,
            r.board.board@ == empty_grid(),
            r.board.visible == VisibleState::Visible,
            full_bag(r.generator.bag()),
            r.board.animator.begin_ms() == now_ms,
            r.board.animator.counted() == 0,
            r.board.particles.begin_ms() == now_ms,
            r.board.particles.counted() == 0,
            r.score_animator.begin_ms() == now_ms,
            r.score_animator.counted() == 0,
            r.score_animator.animation.model() == (0usize, 0usize),
    {
        let generator = BombGenerator::new(seed);
        proof {
            crate::generator::lemma_full_bag_wf(generator.bag());
        }
        Game {
            board: AnimatedBoard::new(now_ms),
            generator,
            score: 0,
            bombs_removed: 0,
            bombs_limit: 999,
            score_animator: FloatAnimator::new(NumberAnimator::new(0), now_ms),
        }
    }

    pub fn is_over(&self) -> (r: bool)
        requires
            self.wf(),
        ensures
            r == self.over(),
    {
        let filled = self.board.is_filled();
        filled || self.bombs_limit <= self.bombs_removed
    }

    /// The next row: tiles, with bombs in the two columns the generator deals.
    pub fn next_row(&mut self) -> (row: [CellType; WIDTH])
        requires
            old(self).wf(),
        ensures
            final(self).wf(),
            final(self).board == old(self).board,
            final(self).score == old(self).score,
            final(self).bombs_removed == old(self).bombs_removed,
            final(self).bombs_limit == old(self).bombs_limit,
            final(self).score_animator == old(self).score_animator,
            exists|a: int, b: int| 0 <= a < b < WIDTH && row@ == #[trigger] row_with_bombs(a, b),
            old(self).generator.bag().len() > 0 ==> row@ == row_with_bombs(
                old(self).generator.bag().last().0 as int,
                old(self).generator.bag().last().1 as int,
            ) && final(self).generator.bag() == old(self).generator.bag().drop_last(),
            old(self).generator.bag().len() == 0 ==> exists|fresh: Seq<(usize, usize)>|
                full_bag(fresh) && row@ == row_with_bombs(fresh.last().0 as int, fresh.last().1 as int)
                    && final(self).generator.bag() == fresh.drop_last(),
    {
        let bombs = self.generator.next();
        let mut row = [CellType::Tile; WIDTH];
        row[bombs.0] = CellType::Bomb;
        row[bombs.1] = CellType::Bomb;
        assert(row@ =~= row_with_bombs(bombs.0 as int, bombs.1 as int));
        row
    }

    /// Feeds a row, unless the id counter is spent.
    fn feed_next(&mut self)
        requires
            old(self).wf(),
        ensures
            final(self).wf(),
            final(self).score == old(self).score,
            final(self).bombs_removed == old(self).bombs_removed,
            final(self).bombs_limit == old(self).bombs_limit,
            final(self).score_animator == old(self).score_animator,
            final(self).board.visible == old(self).board.visible,
            final(self).board.animator.begin_ms() == old(self).board.animator.begin_ms(),
            final(self).board.animator.counted() == old(self).board.animator.counted(),
            final(self).board.particles == old(self).board.particles,
            feeds_next(
                old(self).board.board@,
                old(self).board.board.next_id(),
                final(self).board.board@,
                old(self).generator.bag(),
                final(self).generator.bag(),
            ),
    {
        if self.board.board.generated_cells() <= usize::MAX - WIDTH {
            let ghost bag = self.generator.bag();
            let ghost before = self.board.board@;
            let ghost id = self.board.board.next_id();
            let row = self.next_row();
            let ghost pick: (usize, usize) = if bag.len() > 0 {
                bag.last()
            } else {
                (choose|fresh: Seq<(usize, usize)>|
                    full_bag(fresh) && row@ == row_with_bombs(fresh.last().0 as int, fresh.last().1 as int)
                        && self.generator.bag() == fresh.drop_last()).last()
            };
            proof {
                if bag.len() > 0 {
                    assert(bag[bag.len() - 1] == bag.last());
                    assert(crate::generator::is_pair(bag[bag.len() - 1]));
                } else {
                    let fresh = choose|fresh: Seq<(usize, usize)>|
                        full_bag(fresh) && row@ == row_with_bombs(fresh.last().0 as int, fresh.last().1 as int)
                            && self.generator.bag() == fresh.drop_last();
                    assert(fresh.contains(fresh[fresh.len() - 1]));
                    assert(pick == fresh.last());
                    assert(crate::generator::is_pair(fresh[fresh.len() - 1]));
                }
                assert(pick.0 < pick.1 < WIDTH);
                assert(dealt(bag, self.generator.bag(), pick.0 as int, pick.1 as int));
            }
            self.board.feed(&row);
            assert(self.board.board@ == fed(before, id as int, row_with_bombs(pick.0 as int, pick.1 as int)));
            assert(feeds_next(before, id, self.board.board@, bag, self.generator.bag()));
        }
    }

    /// Applies `action`. A removal on a finished game does nothing; one that
    /// removes cells adds the chain's score, counts its bombs, lets the cells
    /// fall and feeds a row.
    pub fn update(&mut self, action: GameAction)
        requires
            old(self).wf(),
        ensures
            final(self).wf(),
            match action {
                GameAction::Remove(x, y) => if old(self).over() {
                    final(self).score == old(self).score && final(self).bombs_removed == old(self).bombs_removed && final(self).board.board@ == old(self).board.board@
                } else {
                    exists|mid: Seq<Seq<Option<Cell>>>, removed: Seq<Removal>|
                        #[trigger] chain_removal(
                            old(self).board.board@,
                            mid,
                            x as int,
                            y as int,
                            removed,
                            WIDTH as int,
                            HEIGHT as int,
                        ) && final(self).score == sat_add(old(self).score, chain_score(removed.len()) as nat)
                            && final(self).bombs_removed == sat_add(old(self).bombs_removed, bomb_count(removed))
                            && (removed.len() == 0 ==> final(self).board.board@ == old(self).board.board@)
                            && (removed.len() > 0 ==> feeds_next(
                            settle_all(mid),
                            old(self).board.board.next_id(),
                            final(self).board.board@,
                            old(self).generator.bag(),
                            final(self).generator.bag(),
                        ))
                },
                GameAction::Retry(_, now_ms) => final(self).score == 0 && final(self).bombs_removed == 0
                    && final(self).bombs_limit == 999 && final(self).board.visible == VisibleState::Visible
                    && (exists|bag: Seq<(usize, usize)>|
                    full_bag(bag) && #[trigger] feeds_next(
                        empty_grid(),
                        0,
                        final(self).board.board@,
                        bag,
                        final(self).generator.bag(),
                    )) && final(self).board.animator.begin_ms() == now_ms && final(self).board.animator.counted()
                    == 0 && final(self).board.particles.begin_ms() == now_ms
                    && final(self).board.particles.counted() == 0 && final(self).score_animator.begin_ms()
                    == now_ms && final(self).score_animator.counted() == 0
                    && final(self).score_animator.animation.model() == (0usize, 0usize),
                GameAction::Feed => final(self).score == old(self).score && final(self).bombs_removed == old(self).bombs_removed && feeds_next(
                    old(self).board.board@,
                    old(self).board.board.next_id(),
                    final(self).board.board@,
                    old(self).generator.bag(),
                    final(self).generator.bag(),
                ),
                GameAction::Animate(now_ms) => final(self).score == old(self).score
                    && final(self).bombs_removed == old(self).bombs_removed && final(self).board.board
                    == old(self).board.board && (final(self).board.animator.counted(), final(self).board.animator.animation.model()) == ticked::<
                    Option<SceneFrame>,
                    AnimationStream<SceneFrame, Transition>,
                >(
                    old(self).board.animator.begin_ms(),
                    old(self).board.animator.counted(),
                    old(self).board.animator.animation.model(),
                    now_ms,
                ) && (final(self).board.particles.counted(), final(self).board.particles.animation.model())
                    == ticked::<Vec<FloatingParticle>, EndlessAnimator<FloatingParticle, ParticleAnimator>>(
                    old(self).board.particles.begin_ms(),
                    old(self).board.particles.counted(),
                    old(self).board.particles.animation.model(),
                    now_ms,
                ) && (final(self).score_animator.counted(), final(self).score_animator.animation.model())
                    == ticked::<usize, NumberAnimator>(
                    old(self).score_animator.begin_ms(),
                    old(self).score_animator.counted(),
                    old(self).score_animator.animation.model(),
                    now_ms,
                ),
            },
    {
        match action {
            GameAction::Remove(x, y) => {
                if self.is_over() {
                    return;
                }
                let ghost before = self.board.board@;
                let (removed_cells, removed_bombs) = self.board.remove(x, y);
                let ghost mid = self.board.board@;
                let ghost removed = choose|removed: Seq<Removal>|
                    chain_removal(before, mid, x as int, y as int, removed, WIDTH as int, HEIGHT as int)
                        && removed_cells == removed.len() && removed_bombs == bomb_count(removed);
                if removed_cells > 0 {
                    self.score = self.score.saturating_add(triangle(removed_cells));
                    self.score_animator.animation.set_target(self.score);
                    self.bombs_removed = self.bombs_removed.saturating_add(removed_bombs);
                    self.board.apply_gravity();
                    self.feed_next();
                } else {
                    assert((0nat + 1) * 0nat / 2 == 0) by (nonlinear_arith);
                    assert(chain_score(0) == 0);
                    assert(bomb_count(removed) == 0);
                }
                assert(chain_removal(before, mid, x as int, y as int, removed, WIDTH as int, HEIGHT as int));
            },
            GameAction::Feed => {
                self.feed_next();
            },
            GameAction::Animate(now_ms) => {
                self.board.animate(now_ms);
                self.score_animator.animate(now_ms);
            },
            GameAction::Retry(seed, now_ms) => {
                let mut game = Game::new(seed, now_ms);
                game.feed_next();
                *self = game;
            },
        }
    }
}

} // verus!
