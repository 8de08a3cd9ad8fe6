//! The two-player variant: each participant's board takes the same
//! removals, falls and feeds; the server deals rows from the load-balancing
//! generator.
use crate::board::{chain_removal, fed, settle_all, Board, CellType, Removal};
use crate::game::AnimatedBoard;
use crate::generator::{bumped, SpreadBombGenerator};
use crate::{HEIGHT, WIDTH};
use vstd::prelude::*;

verus! {

/// What a participant's board is asked to do.
#[derive(Clone, Copy, Debug, PartialEq, Eq)]
pub enum OnlineGameAction {
    /// Detonate a slot; the cells then fall.
    Remove(usize, usize),
    /// Feed the row the server dealt.
    Feed([CellType; WIDTH]),
    /// Advance the clocks to a time in milliseconds.
    Animate(u64),
}

/// A participant's animated board.
pub struct GameOnline {
    pub board: AnimatedBoard,
}

impl GameOnline {
    pub fn new(now_ms: u64) -> (r: Self)
        ensures
            r.board.board.wf(),
            r.board.board.next_id() == 0,
    {
        GameOnline { board: AnimatedBoard::new(now_ms) }
    }

    /// Applies `action`; a feed is skipped once the id counter is spent.
    pub fn update(&mut self, action: OnlineGameAction)
        requires
            old(self).board.board.wf(),
        ensures
            final(self).board.board.wf(),
            match action {
                OnlineGameAction::Remove(x, y) => exists|mid: Seq<Seq<Option<crate::board::Cell>>>, removed: Seq<Removal>|
                    #[trigger] chain_removal(
                        old(self).board.board@,
                        mid,
                        x as int,
                        y as int,
                        removed,
                        WIDTH as int,
                        HEIGHT as int,
                    ) && final(self).board.board@ == settle_all(mid),
                OnlineGameAction::Feed(row) => if old(self).board.board.next_id() + WIDTH <= usize::MAX {
                    final(self).board.board@ == fed(old(self).board.board@, old(self).board.board.next_id() as int, row@)
                } else {
                    final(self).board.board@ == old(self).board.board@
                },
                OnlineGameAction::Animate(_) => final(self).board.board@ == old(self).board.board@,
            },
    {
        match action {
            OnlineGameAction::Remove(x, y) => {
                self.board.remove(x, y);
                self.board.apply_gravity();
            },
            OnlineGameAction::Feed(row) => {
                if self.board.board.generated_cells() <= usize::MAX - WIDTH {
                    self.board.feed(&row);
                }
            },
            OnlineGameAction::Animate(now_ms) => {
                self.board.animate(now_ms);
            },
        }
    }
}

/// A row of tiles with a bomb in each column of `bombs`.
pub open spec fn row_of(bombs: Set<int>) -> Seq<CellType> {
    Seq::new(WIDTH as nat, |i: int| if bombs.contains(i) { CellType::Bomb } else { CellType::Tile })
}

/// The server's copy of a participant's board, with the generator that deals
/// its rows.
pub struct BoardManager {
    pub board: Board<WIDTH, HEIGHT>,
    pub generator: SpreadBombGenerator,
}

impl BoardManager {
    pub fn new(seed: u64) -> (r: Self)
        ensures
            r.board.wf(),
            r.board.next_id() == 0,
            r.generator.wf(),
    {
        BoardManager { board: Board::new(), generator: SpreadBombGenerator::new(seed) }
    }

    /// Detonates column `x`, row `y`, lets the cells fall, and returns how
    /// many cells were removed.
    pub fn remove(&mut self, x: usize, y: usize) -> (n: usize)
        requires
            old(self).board.wf(),
        ensures
            final(self).board.wf(),
            final(self).board.next_id() == old(self).board.next_id(),
            final(self).generator == old(self).generator,
            exists|mid: Seq<Seq<Option<crate::board::Cell>>>, removed: Seq<Removal>|
                #[trigger] chain_removal(
                    old(self).board@,
                    mid,
                    x as int,
                    y as int,
                    removed,
                    WIDTH as int,
                    HEIGHT as int,
                ) && final(self).board@ == settle_all(mid) && n == removed.len(),
    {
        let removed = self.board.remove(x, y);
        let ghost mid = self.board@;
        self.board.apply_gravity();
        assert(chain_removal(old(self).board@, mid, x as int, y as int, removed@, WIDTH as int, HEIGHT as int));
        removed.len()
    }

    /// Deals a row with one bomb (`single`) or two in distinct columns,
    /// feeds it, and returns it.
    pub fn feed(&mut self, single: bool) -> (row: [CellType; WIDTH])
        requires
            old(self).board.wf(),
            old(self).generator.wf(),
            old(self).board.next_id() + WIDTH <= usize::MAX,
        ensures
            final(self).board.wf(),
            final(self).generator.wf(),
            final(self).board@ == fed(old(self).board@, old(self).board.next_id() as int, row@),
            final(self).board.next_id() == old(self).board.next_id() + WIDTH,
            single ==> exists|a: int|
                0 <= a < WIDTH && row@ == #[trigger] row_of(set![a]) && final(self).generator.counts()
                    == old(self).generator.counts().update(a, bumped(old(self).generator.counts()[a])),
            !single ==> exists|a: int, b: int|
                0 <= a < WIDTH && 0 <= b < WIDTH && a != b && row@ == #[trigger] row_of(set![a, b])
                    && final(self).generator.counts() == old(self).generator.counts().update(
                    a,
                    bumped(old(self).generator.counts()[a]),
                ).update(b, bumped(old(self).generator.counts()[b])),
    {
        let mut row = [CellType::Tile; WIDTH];
        if single {
            let bomb = self.generator.next_single();
            row[bomb] = CellType::Bomb;
            assert(row@ =~= row_of(set![bomb as int]));
        } else {
            let bombs = self.generator.next_double();
            row[bombs.0] = CellType::Bomb;
            row[bombs.1] = CellType::Bomb;
            assert(row@ =~= row_of(set![bombs.0 as int, bombs.1 as int]));
        }
        self.board.feed(&row);
        row
    }
}

} // verus!
