//! The grid engine: chain removal, gravity and feeding, with per-cell identity.
use crate::column::{column_falls, count_none, fall, lemma_clear_slot, lemma_settled_conserves, lemma_settled_idempotent, present, settle_column, settled};
use std::collections::BTreeMap;
use vstd::prelude::*;

verus! {

#[derive(Clone, Copy, Debug, PartialEq, Eq, PartialOrd, Ord, Structural)]
pub enum CellType {
    Tile,
    Bomb,
}

#[derive(Clone, Copy, Debug, PartialEq, Eq, Structural)]
pub struct Cell {
    pub id: usize,
    pub cell_type: CellType,
}

impl Cell {
    pub fn new(id: usize, cell_type: CellType) -> (r: Cell)
        ensures
            r == (Cell { id, cell_type }),
    {
        Cell { id, cell_type }
    }
}

/// Two distinct slots that touch by a side or a corner.
pub open spec fn adjacent(x1: int, y1: int, x2: int, y2: int) -> bool {
    &&& (x1 != x2 || y1 != y2)
    &&& -1 <= x1 - x2 <= 1
    &&& -1 <= y1 - y2 <= 1
}

/// The neighbours of `(x, y)` inside a `width` x `height` grid among the first
/// `k` of the nine offsets, taken column offset first, then row offset.
pub open spec fn neighbor_list(x: int, y: int, width: int, height: int, k: nat) -> Seq<(int, int)>
    decreases k,
{
    if k == 0 {
        seq![]
    } else {
        let prev = neighbor_list(x, y, width, height, (k - 1) as nat);
        let cx = x - 1 + (k - 1) / 3;
        let cy = y - 1 + (k - 1) % 3;
        if (cx != x || cy != y) && 0 <= cx < width && 0 <= cy < height {
            prev.push((cx, cy))
        } else {
            prev
        }
    }
}

proof fn lemma_neighbor_list_members(x: int, y: int, width: int, height: int, k: nat)
    requires
        k <= 9,
    ensures
        forall|i: int|
            0 <= i < neighbor_list(x, y, width, height, k).len() ==> {
                let p = #[trigger] neighbor_list(x, y, width, height, k)[i];
                &&& adjacent(p.0, p.1, x, y)
                &&& 0 <= p.0 < width
                &&& 0 <= p.1 < height
                &&& x - 1 <= p.0
                &&& p.0 * 3 + p.1 < (x - 1) * 3 + (y - 1) + k
            },
        forall|cx: int, cy: int|
            adjacent(cx, cy, x, y) && 0 <= cx < width && 0 <= cy < height && (cx - x + 1) * 3 + (
            cy - y + 1) < k ==> neighbor_list(x, y, width, height, k).contains((cx, cy)),
    decreases k,
{
    if k > 0 {
        lemma_neighbor_list_members(x, y, width, height, (k - 1) as nat);
        let prev = neighbor_list(x, y, width, height, (k - 1) as nat);
        let cur = neighbor_list(x, y, width, height, k);
        assert forall|cx: int, cy: int|
            adjacent(cx, cy, x, y) && 0 <= cx < width && 0 <= cy < height && (cx - x + 1) * 3 + (
            cy - y + 1) < k implies cur.contains((cx, cy)) by {
            if (cx - x + 1) * 3 + (cy - y + 1) < k - 1 {
                let j = choose|j: int| 0 <= j < prev.len() && prev[j] == (cx, cy);
                assert(cur[j] == (cx, cy));
            } else {
                assert(cx == x - 1 + (k - 1) / 3);
                assert(cy == y - 1 + (k - 1) % 3);
                assert(cur[cur.len() - 1] == (cx, cy));
            }
        }
    }
}

/// The slots adjacent to `(x, y)` (eight at most) that lie inside a
/// `width` x `height` grid, ordered by column, then by row. `(x, y)` itself
/// may lie anywhere; its neighbours are clipped to the grid.
pub fn adjacent_cells(x: usize, y: usize, width: usize, height: usize) -> (r: Vec<(usize, usize)>)
    ensures
        r@.map_values(|p: (usize, usize)| (p.0 as int, p.1 as int)) == neighbor_list(
            x as int,
            y as int,
            width as int,
            height as int,
            9,
        ),
        forall|i: int|
            0 <= i < r@.len() ==> adjacent(
                #[trigger] r@[i].0 as int,
                r@[i].1 as int,
                x as int,
                y as int,
            ) && r@[i].0 < width && r@[i].1 < height,
        forall|cx: int, cy: int|
            adjacent(cx, cy, x as int, y as int) && 0 <= cx < width && 0 <= cy < height ==> exists|
                i: int,
            |
                0 <= i < r@.len() && #[trigger] r@[i] == (cx as usize, cy as usize),
{
    let mut r: Vec<(usize, usize)> = Vec::new();
    let mut k: usize = 0;
    while k < 9
        invariant
            k <= 9,
            r@.map_values(|p: (usize, usize)| (p.0 as int, p.1 as int)) == neighbor_list(
                x as int,
                y as int,
                width as int,
                height as int,
                k as nat,
            ),
        decreases 9 - k,
    {
        let dx = k / 3;
        let dy = k % 3;
        if (x >= 1 || dx >= 1) && (y >= 1 || dy >= 1) && (dx < 2 || x < width) && (dy < 2 || y
            < height) && !(dx == 1 && dy == 1) {
            let cx = if dx == 0 { x - 1 } else { x + (dx - 1) };
            let cy = if dy == 0 { y - 1 } else { y + (dy - 1) };
            if cx < width && cy < height {
                r.push((cx, cy));
            }
        }
        k += 1;
    }
    proof {
        let ghost m = r@.map_values(|p: (usize, usize)| (p.0 as int, p.1 as int));
        lemma_neighbor_list_members(x as int, y as int, width as int, height as int, 9);
        assert forall|i: int| 0 <= i < r@.len() implies adjacent(
            #[trigger] r@[i].0 as int,
            r@[i].1 as int,
            x as int,
            y as int,
        ) && r@[i].0 < width && r@[i].1 < height by {
            assert(m[i] == (r@[i].0 as int, r@[i].1 as int));
        }
        assert forall|cx: int, cy: int|
            adjacent(cx, cy, x as int, y as int) && 0 <= cx < width && 0 <= cy
                < height implies exists|i: int|
            0 <= i < r@.len() && #[trigger] r@[i] == (cx as usize, cy as usize) by {
            assert(m.contains((cx, cy)));
            let i = choose|i: int| 0 <= i < m.len() && m[i] == (cx, cy);
            assert(r@[i] == (cx as usize, cy as usize));
        }
    }
    r
}


/// The column `col` after a feed: the top slot leaves, the rest moves up one
/// row and `cell` enters at the bottom. A column without rows stays empty.
pub open spec fn fed_column(col: Seq<Option<Cell>>, cell: Cell) -> Seq<Option<Cell>> {
    if col.len() == 0 {
        col
    } else {
        col.drop_first().push(Some(cell))
    }
}

/// The cells minted by a feed of `row` when the id counter stands at `first_id`.
pub open spec fn minted(first_id: int, row: Seq<CellType>) -> Seq<Cell> {
    Seq::new(row.len(), |x: int| Cell { id: (first_id + x) as usize, cell_type: row[x] })
}

/// The grid after feeding `row` into `cols`, with ids counted from `first_id`.
pub open spec fn fed(cols: Seq<Seq<Option<Cell>>>, first_id: int, row: Seq<CellType>) -> Seq<
    Seq<Option<Cell>>,
> {
    Seq::new(cols.len(), |x: int| fed_column(cols[x], minted(first_id, row)[x]))
}

/// Every cell of `cols` has an id below `n`.
pub open spec fn ids_below(cols: Seq<Seq<Option<Cell>>>, n: int) -> bool {
    forall|x: int, y: int|
        0 <= x < cols.len() && 0 <= y < cols[x].len() && (#[trigger] cols[x][y]).is_some()
            ==> cols[x][y].unwrap().id < n
}

/// Feeding keeps every column's length, and each cell it mints has an id
/// above every id on the board before, so ids stay below the advanced counter.
pub proof fn lemma_feed_fresh(cols: Seq<Seq<Option<Cell>>>, first_id: int, row: Seq<CellType>)
    requires
        ids_below(cols, first_id),
        row.len() == cols.len(),
        0 <= first_id,
        first_id + row.len() <= usize::MAX,
    ensures
        forall|x: int| 0 <= x < cols.len() ==> (#[trigger] fed(cols, first_id, row)[x]).len() == cols[x].len(),
        forall|n: int, x: int, y: int|
            0 <= n < row.len() && 0 <= x < cols.len() && 0 <= y < cols[x].len() && (
            #[trigger] cols[x][y]).is_some() ==> (#[trigger] minted(first_id, row)[n]).id > cols[x][y].unwrap().id,
        ids_below(fed(cols, first_id, row), first_id + row.len()),
{
    let f = fed(cols, first_id, row);
    assert forall|x: int, y: int|
        0 <= x < f.len() && 0 <= y < f[x].len() && (#[trigger] f[x][y]).is_some() implies f[x][y].unwrap().id
        < first_id + row.len() by {
        if cols[x].len() > 0 && y + 1 < cols[x].len() {
            assert(f[x][y] == cols[x][y + 1]);
        }
    }
}

/// Every column of `cols` after gravity.
pub open spec fn settle_all(cols: Seq<Seq<Option<Cell>>>) -> Seq<Seq<Option<Cell>>> {
    Seq::new(cols.len(), |x: int| settled(cols[x]))
}

/// The fall map after recording the columns of `cols`, first to last, into `m`.
pub open spec fn board_falls(cols: Seq<Seq<Option<Cell>>>, m: Map<usize, usize>) -> Map<
    usize,
    usize,
>
    decreases cols.len(),
{
    if cols.len() == 0 {
        m
    } else {
        board_falls(cols.drop_first(), column_falls(cols[0], 0, m))
    }
}

proof fn lemma_board_falls_settled(cols: Seq<Seq<Option<Cell>>>, m: Map<usize, usize>)
    ensures
        board_falls(settle_all(cols), m) == m,
    decreases cols.len(),
{
    if cols.len() > 0 {
        lemma_settled_idempotent(cols[0], m);
        assert(settle_all(cols).drop_first() =~= settle_all(cols.drop_first()));
        lemma_board_falls_settled(cols.drop_first(), m);
    }
}

/// Gravity applied to a board that gravity has just settled moves nothing and
/// records no fall.
pub proof fn lemma_gravity_idempotent(cols: Seq<Seq<Option<Cell>>>)
    ensures
        settle_all(settle_all(cols)) == settle_all(cols),
        board_falls(settle_all(cols), Map::empty()) == Map::<usize, usize>::empty(),
{
    assert forall|x: int| 0 <= x < cols.len() implies #[trigger] settle_all(settle_all(cols))[x]
        == settle_all(cols)[x] by {
        lemma_settled_idempotent(cols[x], Map::empty());
    }
    assert(settle_all(settle_all(cols)) =~= settle_all(cols));
    lemma_board_falls_settled(cols, Map::empty());
}

/// Gravity keeps every column's length and the cells of every column in
/// their order (so the multiset of cells is kept), and moves each cell down
/// within its own column by its fall distance.
pub proof fn lemma_gravity_conserves(cols: Seq<Seq<Option<Cell>>>)
    ensures
        settle_all(cols).len() == cols.len(),
        forall|x: int|
            0 <= x < cols.len() ==> {
                &&& (#[trigger] settle_all(cols)[x]).len() == cols[x].len()
                &&& present(settle_all(cols)[x]) == present(cols[x])
                &&& present(settle_all(cols)[x]).to_multiset() == present(cols[x]).to_multiset()
            },
        forall|x: int, y: int|
            0 <= x < cols.len() && 0 <= y < cols[x].len() && (#[trigger] cols[x][y]).is_some()
                ==> settle_all(cols)[x][y + fall(cols[x], y)] == cols[x][y],
{
    assert forall|x: int| 0 <= x < cols.len() implies {
        &&& (#[trigger] settle_all(cols)[x]).len() == cols[x].len()
        &&& present(settle_all(cols)[x]) == present(cols[x])
        &&& present(settle_all(cols)[x]).to_multiset() == present(cols[x]).to_multiset()
    } by {
        lemma_settled_conserves(cols[x]);
    }
    assert forall|x: int, y: int|
        0 <= x < cols.len() && 0 <= y < cols[x].len() && (#[trigger] cols[x][y]).is_some()
            implies settle_all(cols)[x][y + fall(cols[x], y)] == cols[x][y] by {
        lemma_settled_conserves(cols[x]);
    }
}

/// One removed cell: its id, its blast distance, its column, its row and its kind.
pub type Removal = (usize, usize, usize, usize, CellType);

/// Some entry of `r` lies at column `x`, row `y`.
pub open spec fn removed_at(r: Seq<Removal>, x: int, y: int) -> bool {
    exists|k: int| 0 <= k < r.len() && r[k].2 == x && r[k].3 == y
}

/// Among the first `n` entries of `r` is a bomb adjacent to `(x, y)` at
/// blast distance `d - 1`.
pub open spec fn has_parent(r: Seq<Removal>, n: int, x: int, y: int, d: int) -> bool {
    exists|k: int|
        0 <= k < n && k < r.len() && r[k].4 == CellType::Bomb && adjacent(
            r[k].2 as int,
            r[k].3 as int,
            x,
            y,
        ) && d == r[k].1 + 1
}

/// `r` lists distinct in-bounds slots of `before`, each with the cell it held,
/// and `after` is `before` with exactly those slots emptied.
pub open spec fn removal_of(
    before: Seq<Seq<Option<Cell>>>,
    after: Seq<Seq<Option<Cell>>>,
    r: Seq<Removal>,
    width: int,
    height: int,
) -> bool {
    &&& forall|k: int|
        0 <= k < r.len() ==> {
            &&& (#[trigger] r[k]).2 < width
            &&& r[k].3 < height
            &&& before[r[k].2 as int][r[k].3 as int] == Some(
                Cell { id: r[k].0, cell_type: r[k].4 },
            )
        }
    &&& forall|k: int, l: int|
        0 <= k < l < r.len() ==> (#[trigger] r[k]).2 != (#[trigger] r[l]).2 || r[k].3 != r[l].3
    &&& forall|x: int, y: int|
        0 <= x < width && 0 <= y < height ==> #[trigger] after[x][y] == if removed_at(r, x, y) {
            None
        } else {
            before[x][y]
        }
}

/// The entries of `r` form the breadth-first layers of a chain reaction from
/// `(x, y)`: the first is `(x, y)` at distance 0, distances never decrease
/// along `r`, every later entry lies next to an earlier bomb one layer nearer,
/// and no entry lies more than one layer beyond a bomb it touches.
pub open spec fn blast_layers(r: Seq<Removal>, x: int, y: int) -> bool {
    &&& r.len() > 0
    &&& r[0].1 == 0
    &&& r[0].2 == x
    &&& r[0].3 == y
    &&& forall|k: int, l: int| 0 <= k <= l < r.len() ==> (#[trigger] r[k]).1 <= (#[trigger] r[l]).1
    &&& forall|l: int| 0 < l < r.len() ==> has_parent(r, l, (#[trigger] r[l]).2 as int, r[l].3 as int, r[l].1 as int)
    &&& forall|k: int, l: int|
        0 <= k < r.len() && 0 <= l < r.len() && (#[trigger] r[k]).4 == CellType::Bomb && adjacent(
            r[k].2 as int,
            r[k].3 as int,
            (#[trigger] r[l]).2 as int,
            r[l].3 as int,
        ) ==> r[l].1 <= r[k].1 + 1
}

/// No cell is left in a slot next to a bomb that `r` removed.
pub open spec fn blast_closed(after: Seq<Seq<Option<Cell>>>, r: Seq<Removal>, width: int, height: int) -> bool {
    forall|k: int, x: int, y: int|
        0 <= k < r.len() && (#[trigger] r[k]).4 == CellType::Bomb && 0 <= x < width && 0 <= y < height
            && adjacent(x, y, r[k].2 as int, r[k].3 as int) ==> (#[trigger] after[x][y]).is_none()
}

/// The outcome of detonating column `x`, row `y` of `before` (a `width` x
/// `height` grid): `after` and the removal list `r`. An empty or
/// out-of-range slot changes nothing and removes nothing.
pub open spec fn chain_removal(
    before: Seq<Seq<Option<Cell>>>,
    after: Seq<Seq<Option<Cell>>>,
    x: int,
    y: int,
    r: Seq<Removal>,
    width: int,
    height: int,
) -> bool {
    if 0 <= x < width && 0 <= y < height && before[x][y].is_some() {
        &&& removal_of(before, after, r, width, height)
        &&& blast_layers(r, x, y)
        &&& blast_closed(after, r, width, height)
    } else {
        &&& r.len() == 0
        &&& after == before
    }
}

/// The number of bombs among the removals `r`.
pub open spec fn bomb_count(r: Seq<Removal>) -> nat
    decreases r.len(),
{
    if r.len() == 0 {
        0
    } else {
        bomb_count(r.drop_last()) + if r.last().4 == CellType::Bomb { 1nat } else { 0nat }
    }
}

/// The number of occupied slots of `cols`.
pub open spec fn occupied(cols: Seq<Seq<Option<Cell>>>) -> nat
    decreases cols.len(),
{
    if cols.len() == 0 {
        0
    } else {
        (cols[0].len() - count_none(cols[0])) as nat + occupied(cols.drop_first())
    }
}

proof fn lemma_occupied_clear(cols: Seq<Seq<Option<Cell>>>, i: int, j: int)
    requires
        0 <= i < cols.len(),
        0 <= j < cols[i].len(),
        cols[i][j].is_some(),
    ensures
        occupied(cols.update(i, cols[i].update(j, None))) + 1 == occupied(cols),
    decreases cols.len(),
{
    let c2 = cols.update(i, cols[i].update(j, None));
    if i == 0 {
        lemma_clear_slot(cols[0], j);
        assert(c2.drop_first() =~= cols.drop_first());
    } else {
        lemma_occupied_clear(cols.drop_first(), i - 1, j);
        assert(c2.drop_first() =~= cols.drop_first().update(i - 1, cols[i].update(j, None)));
    }
}

/// Some queued entry from index `head` on targets `(x, y)` at distance `d`.
spec fn pending(q: Seq<(usize, usize, usize)>, head: int, x: int, y: int, d: int) -> bool {
    exists|m: int| head <= m < q.len() && q[m].0 == x && q[m].1 == y && q[m].2 == d
}

proof fn lemma_has_parent_grow(r: Seq<Removal>, r2: Seq<Removal>, n: int, n2: int, x: int, y: int, d: int)
    requires
        has_parent(r, n, x, y, d),
        n <= n2,
        r.len() <= r2.len(),
        forall|k: int| 0 <= k < r.len() ==> r2[k] == r[k],
    ensures
        has_parent(r2, n2, x, y, d),
{
    let k = choose|k: int|
        0 <= k < n && k < r.len() && r[k].4 == CellType::Bomb && adjacent(
            r[k].2 as int,
            r[k].3 as int,
            x,
            y,
        ) && d == r[k].1 + 1;
    assert(r2[k] == r[k]);
}

proof fn lemma_removed_at_push(r: Seq<Removal>, e: Removal, x: int, y: int)
    ensures
        removed_at(r.push(e), x, y) == (removed_at(r, x, y) || (e.2 == x && e.3 == y)),
{
    let r2 = r.push(e);
    if removed_at(r, x, y) {
        let k = choose|k: int| 0 <= k < r.len() && r[k].2 == x && r[k].3 == y;
        assert(r2[k] == r[k]);
    }
    if e.2 == x && e.3 == y {
        assert(r2[r.len() as int] == e);
    }
    if removed_at(r2, x, y) {
        let k = choose|k: int| 0 <= k < r2.len() && r2[k].2 == x && r2[k].3 == y;
        if k < r.len() {
            assert(r2[k] == r[k]);
        }
    }
}

/// Appends each slot of `slots` to `queue` at blast distance `d`.
fn push_neighbors(queue: &mut Vec<(usize, usize, usize)>, slots: &Vec<(usize, usize)>, d: usize)
    ensures
        final(queue)@ == old(queue)@ + slots@.map_values(|p: (usize, usize)| (p.0, p.1, d)),
{
    let mut t: usize = 0;
    while t < slots.len()
        invariant
            t <= slots@.len(),
            queue@ == old(queue)@ + slots@.subrange(0, t as int).map_values(
                |p: (usize, usize)| (p.0, p.1, d),
            ),
        decreases slots@.len() - t,
    {
        let (a, b) = slots[t];
        queue.push((a, b, d));
        t += 1;
        assert(slots@.subrange(0, t as int).map_values(|p: (usize, usize)| (p.0, p.1, d))
            =~= slots@.subrange(0, t - 1).map_values(|p: (usize, usize)| (p.0, p.1, d)).push(
            (a, b, d),
        ));
        assert(queue@ =~= old(queue)@ + slots@.subrange(0, t as int).map_values(
            |p: (usize, usize)| (p.0, p.1, d),
        ));
    }
    assert(slots@.subrange(0, t as int) =~= slots@);
}

type Queue = Seq<(usize, usize, usize)>;

type Grid = Seq<Seq<Option<Cell>>>;

/// The grids have their shape, the start slot is occupied and heads the
/// queue, and every queued slot is in bounds at a distance no larger than its
/// place in the queue.
#[verifier::opaque]
spec fn inv_shape(b0: Grid, b: Grid, q: Queue, head: int, x: int, y: int, w: int, h: int) -> bool {
    &&& has_shape(b, w, h)
    &&& has_shape(b0, w, h)
    &&& 0 <= x < w
    &&& 0 <= y < h
    &&& b0[x][y].is_some()
    &&& q.len() >= 1
    &&& 0 <= head <= q.len()
    &&& q[0].0 == x && q[0].1 == y && q[0].2 == 0
    &&& forall|m: int| 0 <= m < q.len() ==> (#[trigger] q[m]).0 < w && q[m].1 < h && q[m].2 <= m
}

/// The first removal is the start slot at distance 0, once the queue has
/// been entered.
#[verifier::opaque]
spec fn inv_head(r: Seq<Removal>, head: int, x: int, y: int) -> bool {
    &&& head == 0 ==> r.len() == 0
    &&& head > 0 ==> r.len() > 0 && r[0].1 == 0 && r[0].2 == x && r[0].3 == y
}

/// Every queued slot but the first, and every removal but the first, has a
/// parent bomb among the removals.
#[verifier::opaque]
spec fn inv_parents(r: Seq<Removal>, q: Queue) -> bool {
    &&& forall|m: int|
        0 < m < q.len() ==> has_parent(r, r.len() as int, (#[trigger] q[m]).0 as int, q[m].1 as int, q[m].2 as int)
    &&& forall|l: int|
        0 < l < r.len() ==> has_parent(r, l, (#[trigger] r[l]).2 as int, r[l].3 as int, r[l].1 as int)
}

/// Distances never decrease along the removals and on into the pending
/// queue, and the pending queue spans at most two consecutive distances.
#[verifier::opaque]
spec fn inv_order(r: Seq<Removal>, q: Queue, head: int) -> bool {
    &&& forall|k: int, l: int| 0 <= k <= l < r.len() ==> (#[trigger] r[k]).1 <= (#[trigger] r[l]).1
    &&& forall|k: int, m: int|
        0 <= k < r.len() && head <= m < q.len() ==> (#[trigger] r[k]).1 <= (#[trigger] q[m]).2
    &&& forall|m1: int, m2: int|
        head <= m1 <= m2 < q.len() ==> (#[trigger] q[m1]).2 <= (#[trigger] q[m2]).2 <= q[m1].2 + 1
}

/// Each occupied neighbour of a removed bomb is pending one layer further.
#[verifier::opaque]
spec fn inv_closure(b: Grid, r: Seq<Removal>, q: Queue, head: int, w: int, h: int) -> bool {
    forall|k: int, i: int, j: int|
        0 <= k < r.len() && (#[trigger] r[k]).4 == CellType::Bomb && 0 <= i < w && 0 <= j < h
            && adjacent(i, j, r[k].2 as int, r[k].3 as int) ==> (#[trigger] b[i][j]).is_none()
            || pending(q, head, i, j, r[k].1 + 1)
}

/// No removal lies more than one layer beyond a removed bomb it touches.
#[verifier::opaque]
spec fn inv_min(r: Seq<Removal>) -> bool {
    forall|k: int, l: int|
        0 <= k < r.len() && 0 <= l < r.len() && (#[trigger] r[k]).4 == CellType::Bomb && adjacent(
            r[k].2 as int,
            r[k].3 as int,
            (#[trigger] r[l]).2 as int,
            r[l].3 as int,
        ) ==> r[l].1 <= r[k].1 + 1
}

/// The state of the breadth-first removal from `(x, y)` on the grid `b0`:
/// `b` is the grid so far, `r` the cells removed so far, `q` the work queue
/// of slots with their distances, of which those from `head` on are pending.
spec fn bfs_inv(b0: Grid, b: Grid, r: Seq<Removal>, q: Queue, head: int, x: int, y: int, w: int, h: int) -> bool {
    &&& inv_shape(b0, b, q, head, x, y, w, h)
    &&& removal_of(b0, b, r, w, h)
    &&& inv_head(r, head, x, y)
    &&& inv_parents(r, q)
    &&& inv_order(r, q, head)
    &&& inv_closure(b, r, q, head, w, h)
    &&& inv_min(r)
}

proof fn lemma_bfs_start(b0: Grid, q: Queue, x: int, y: int, w: int, h: int)
    requires
        has_shape(b0, w, h),
        0 <= x < w,
        0 <= y < h,
        b0[x][y].is_some(),
        q.len() == 1,
        q[0].0 == x && q[0].1 == y && q[0].2 == 0,
    ensures
        bfs_inv(b0, b0, Seq::empty(), q, 0, x, y, w, h),
{
    reveal(inv_shape);
    reveal(inv_head);
    reveal(inv_parents);
    reveal(inv_order);
    reveal(inv_closure);
    reveal(inv_min);
    assert forall|i: int, j: int| 0 <= i < w && 0 <= j < h implies #[trigger] b0[i][j] == if removed_at(
        Seq::<Removal>::empty(),
        i,
        j,
    ) {
        None
    } else {
        b0[i][j]
    } by {}
}

proof fn lemma_bfs_step_empty(b0: Grid, b: Grid, r: Seq<Removal>, q: Queue, oh: int, x: int, y: int, w: int, h: int)
    requires
        bfs_inv(b0, b, r, q, oh, x, y, w, h),
        oh < q.len(),
        b[q[oh].0 as int][q[oh].1 as int].is_none(),
    ensures
        bfs_inv(b0, b, r, q, oh + 1, x, y, w, h),
{
    assert(inv_shape(b0, b, q, oh + 1, x, y, w, h)) by {
        reveal(inv_shape);
    }
    assert(inv_head(r, oh + 1, x, y)) by {
        reveal(inv_head);
        reveal(inv_shape);
        if oh == 0 {
            assert(q[0].0 == x && q[0].1 == y);
            assert(!removed_at(r, x, y));
        }
    }
    assert(inv_order(r, q, oh + 1)) by {
        reveal(inv_order);
    }
    assert(inv_closure(b, r, q, oh + 1, w, h)) by {
        reveal(inv_closure);
        assert forall|k: int, i: int, j: int|
            0 <= k < r.len() && (#[trigger] r[k]).4 == CellType::Bomb && 0 <= i < w && 0 <= j < h
                && adjacent(i, j, r[k].2 as int, r[k].3 as int) implies (#[trigger] b[i][j]).is_none()
                || pending(q, oh + 1, i, j, r[k].1 + 1) by {
            if b[i][j].is_some() {
                let m = choose|m: int| oh <= m < q.len() && q[m].0 == i && q[m].1 == j && q[m].2 == r[k].1 + 1;
                assert(m != oh);
            }
        }
    }
}

/// What the removal of the slot of queue entry `oh`, with cell `e`, does to
/// the grid, the removals and the queue.
spec fn step_pre(b: Grid, r: Seq<Removal>, q: Queue, q2: Queue, oh: int, w: int, h: int, e: Removal) -> bool {
    &&& 0 <= oh < q.len()
    &&& e.1 == q[oh].2
    &&& e.2 == q[oh].0
    &&& e.3 == q[oh].1
    &&& 0 <= e.2 < w
    &&& 0 <= e.3 < h
    &&& b[e.2 as int][e.3 as int] == Some(Cell { id: e.0, cell_type: e.4 })
    &&& q2.len() >= q.len()
    &&& forall|m: int| 0 <= m < q.len() ==> #[trigger] q2[m] == q[m]
    &&& e.4 != CellType::Bomb ==> q2 == q
    &&& e.4 == CellType::Bomb ==> forall|m: int|
        q.len() <= m < q2.len() ==> (#[trigger] q2[m]).0 < w && q2[m].1 < h && q2[m].2 == e.1 + 1
            && adjacent(e.2 as int, e.3 as int, q2[m].0 as int, q2[m].1 as int)
    &&& e.4 == CellType::Bomb ==> forall|i: int, j: int|
        0 <= i < w && 0 <= j < h && adjacent(i, j, e.2 as int, e.3 as int) ==> pending(
            q2,
            oh + 1,
            i,
            j,
            e.1 + 1,
        )
}

spec fn cleared(b: Grid, e: Removal) -> Grid {
    b.update(e.2 as int, b[e.2 as int].update(e.3 as int, None))
}

proof fn lemma_step_shape(b0: Grid, b: Grid, r: Seq<Removal>, q: Queue, q2: Queue, oh: int, x: int, y: int, w: int, h: int, e: Removal)
    requires
        inv_shape(b0, b, q, oh, x, y, w, h),
        step_pre(b, r, q, q2, oh, w, h, e),
    ensures
        inv_shape(b0, cleared(b, e), q2, oh + 1, x, y, w, h),
{
    reveal(inv_shape);
    let b2 = cleared(b, e);
    assert forall|i: int| 0 <= i < w implies (#[trigger] b2[i]).len() == h by {}
    assert(q2[0] == q[0]);
    assert forall|m: int| 0 <= m < q2.len() implies (#[trigger] q2[m]).0 < w && q2[m].1 < h && q2[m].2 <= m by {
        if m >= q.len() {
            assert(q[oh].2 <= oh);
        }
    }
}

proof fn lemma_step_removal(b0: Grid, b: Grid, r: Seq<Removal>, q: Queue, q2: Queue, oh: int, w: int, h: int, e: Removal)
    requires
        has_shape(b, w, h),
        removal_of(b0, b, r, w, h),
        step_pre(b, r, q, q2, oh, w, h, e),
    ensures
        removal_of(b0, cleared(b, e), r.push(e), w, h),
{
    let cx = e.2 as int;
    let cy = e.3 as int;
    let b2 = cleared(b, e);
    let r2 = r.push(e);
    let kk = r.len() as int;
    assert(!removed_at(r, cx, cy));
    assert(r2[kk] == e);
    assert forall|i: int, j: int| 0 <= i < w && 0 <= j < h implies #[trigger] b2[i][j] == if removed_at(
        r2,
        i,
        j,
    ) {
        None
    } else {
        b0[i][j]
    } by {
        lemma_removed_at_push(r, e, i, j);
    }
    assert forall|k: int, l: int| 0 <= k < l < r2.len() implies (#[trigger] r2[k]).2 != (
    #[trigger] r2[l]).2 || r2[k].3 != r2[l].3 by {
        if l == kk {
            assert(r2[k] == r[k]);
        } else {
            assert(r2[k] == r[k]);
            assert(r2[l] == r[l]);
        }
    }
    assert forall|k: int| 0 <= k < r2.len() implies {
        &&& (#[trigger] r2[k]).2 < w
        &&& r2[k].3 < h
        &&& b0[r2[k].2 as int][r2[k].3 as int] == Some(Cell { id: r2[k].0, cell_type: r2[k].4 })
    } by {
        if k < kk {
            assert(r2[k] == r[k]);
        } else {
            assert(b[cx][cy] == b0[cx][cy]);
        }
    }
}

proof fn lemma_step_head(b0: Grid, b: Grid, r: Seq<Removal>, q: Queue, q2: Queue, oh: int, x: int, y: int, w: int, h: int, e: Removal)
    requires
        inv_shape(b0, b, q, oh, x, y, w, h),
        inv_head(r, oh, x, y),
        step_pre(b, r, q, q2, oh, w, h, e),
    ensures
        inv_head(r.push(e), oh + 1, x, y),
{
    reveal(inv_shape);
    reveal(inv_head);
    if oh > 0 {
        assert(r.push(e)[0] == r[0]);
    } else {
        assert(r.push(e)[0] == e);
    }
}

proof fn lemma_step_parents(b0: Grid, b: Grid, r: Seq<Removal>, q: Queue, q2: Queue, oh: int, x: int, y: int, w: int, h: int, e: Removal)
    requires
        inv_head(r, oh, x, y),
        inv_parents(r, q),
        step_pre(b, r, q, q2, oh, w, h, e),
    ensures
        inv_parents(r.push(e), q2),
{
    reveal(inv_parents);
    reveal(inv_head);
    let r2 = r.push(e);
    let kk = r.len() as int;
    assert(r2[kk] == e);
    assert forall|k: int| 0 <= k < r.len() implies #[trigger] r2[k] == r[k] by {}
    assert forall|m: int| 0 < m < q2.len() implies has_parent(
        r2,
        r2.len() as int,
        (#[trigger] q2[m]).0 as int,
        q2[m].1 as int,
        q2[m].2 as int,
    ) by {
        if m < q.len() {
            assert(q2[m] == q[m]);
            lemma_has_parent_grow(r, r2, r.len() as int, r2.len() as int, q[m].0 as int, q[m].1 as int, q[m].2 as int);
        } else {
            assert(r2[kk].4 == CellType::Bomb);
        }
    }
    assert forall|l: int| 0 < l < r2.len() implies has_parent(
        r2,
        l,
        (#[trigger] r2[l]).2 as int,
        r2[l].3 as int,
        r2[l].1 as int,
    ) by {
        if l < kk {
            lemma_has_parent_grow(r, r2, l, l, r[l].2 as int, r[l].3 as int, r[l].1 as int);
        } else {
            assert(oh > 0);
            assert(has_parent(r, r.len() as int, q[oh].0 as int, q[oh].1 as int, q[oh].2 as int));
            lemma_has_parent_grow(r, r2, r.len() as int, kk, e.2 as int, e.3 as int, e.1 as int);
        }
    }
}

proof fn lemma_step_order(b: Grid, r: Seq<Removal>, q: Queue, q2: Queue, oh: int, w: int, h: int, e: Removal)
    requires
        inv_order(r, q, oh),
        step_pre(b, r, q, q2, oh, w, h, e),
    ensures
        inv_order(r.push(e), q2, oh + 1),
{
    reveal(inv_order);
    let r2 = r.push(e);
    let kk = r.len() as int;
    let d = e.1 as int;
    assert(r2[kk] == e);
    assert forall|k: int| 0 <= k < r.len() implies (#[trigger] r[k]).1 <= d by {
        assert(r[k].1 <= q[oh].2);
    }
    assert forall|m: int| oh <= m < q.len() implies d <= (#[trigger] q[m]).2 <= d + 1 by {
        assert(q[oh].2 <= q[m].2 <= q[oh].2 + 1);
    }
    assert forall|k: int, l: int| 0 <= k <= l < r2.len() implies (#[trigger] r2[k]).1 <= (
    #[trigger] r2[l]).1 by {
        if l < kk {
            assert(r2[k] == r[k]);
            assert(r2[l] == r[l]);
        } else if k < kk {
            assert(r2[k] == r[k]);
        }
    }
    assert forall|k: int, m: int| 0 <= k < r2.len() && oh + 1 <= m < q2.len() implies (
    #[trigger] r2[k]).1 <= (#[trigger] q2[m]).2 by {
        if k < kk {
            assert(r2[k] == r[k]);
            if m < q.len() {
                assert(q2[m] == q[m]);
            }
        } else if m < q.len() {
            assert(q2[m] == q[m]);
        }
    }
    assert forall|m1: int, m2: int| oh + 1 <= m1 <= m2 < q2.len() implies (#[trigger] q2[m1]).2
        <= (#[trigger] q2[m2]).2 <= q2[m1].2 + 1 by {
        if m1 < q.len() {
            assert(q2[m1] == q[m1]);
        }
        if m2 < q.len() {
            assert(q2[m2] == q[m2]);
        }
    }
}

proof fn lemma_step_closure(b: Grid, r: Seq<Removal>, q: Queue, q2: Queue, oh: int, w: int, h: int, e: Removal)
    requires
        has_shape(b, w, h),
        inv_closure(b, r, q, oh, w, h),
        step_pre(b, r, q, q2, oh, w, h, e),
    ensures
        inv_closure(cleared(b, e), r.push(e), q2, oh + 1, w, h),
{
    reveal(inv_closure);
    let cx = e.2 as int;
    let cy = e.3 as int;
    let b2 = cleared(b, e);
    let r2 = r.push(e);
    let kk = r.len() as int;
    assert forall|k: int, i: int, j: int|
        0 <= k < r2.len() && (#[trigger] r2[k]).4 == CellType::Bomb && 0 <= i < w && 0 <= j < h
            && adjacent(i, j, r2[k].2 as int, r2[k].3 as int) implies (#[trigger] b2[i][j]).is_none()
            || pending(q2, oh + 1, i, j, r2[k].1 + 1) by {
        if i == cx && j == cy {
        } else if k < kk {
            assert(r2[k] == r[k]);
            assert(b2[i][j] == b[i][j]);
            if b[i][j].is_some() {
                assert(pending(q, oh, i, j, r[k].1 + 1));
                let m = choose|m: int| oh <= m < q.len() && q[m].0 == i && q[m].1 == j && q[m].2 == r[k].1 + 1;
                assert(m != oh);
                assert(q2[m] == q[m]);
            }
        } else {
            assert(r2[k] == e);
        }
    }
}

proof fn lemma_step_min(b: Grid, r: Seq<Removal>, q: Queue, q2: Queue, oh: int, w: int, h: int, e: Removal)
    requires
        inv_closure(b, r, q, oh, w, h),
        inv_order(r, q, oh),
        inv_min(r),
        step_pre(b, r, q, q2, oh, w, h, e),
    ensures
        inv_min(r.push(e)),
{
    reveal(inv_closure);
    reveal(inv_order);
    reveal(inv_min);
    let cx = e.2 as int;
    let cy = e.3 as int;
    let r2 = r.push(e);
    let kk = r.len() as int;
    assert(r2[kk] == e);
    assert forall|k: int, l: int|
        0 <= k < r2.len() && 0 <= l < r2.len() && (#[trigger] r2[k]).4 == CellType::Bomb && adjacent(
            r2[k].2 as int,
            r2[k].3 as int,
            (#[trigger] r2[l]).2 as int,
            r2[l].3 as int,
        ) implies r2[l].1 <= r2[k].1 + 1 by {
        if l == kk && k < kk {
            assert(r2[k] == r[k]);
            assert(b[cx][cy].is_some());
            assert(pending(q, oh, cx, cy, r[k].1 + 1));
            let m = choose|m: int| oh <= m < q.len() && q[m].0 == cx && q[m].1 == cy && q[m].2 == r[k].1 + 1;
            assert(q[oh].2 <= q[m].2);
        } else if k == kk && l < kk {
            assert(r2[l] == r[l]);
            assert(r[l].1 <= q[oh].2);
        } else if k < kk && l < kk {
            assert(r2[k] == r[k]);
            assert(r2[l] == r[l]);
        }
    }
}

proof fn lemma_bfs_step_occupied(b0: Grid, b: Grid, r: Seq<Removal>, q: Queue, q2: Queue, oh: int, x: int, y: int, w: int, h: int, e: Removal)
    requires
        bfs_inv(b0, b, r, q, oh, x, y, w, h),
        step_pre(b, r, q, q2, oh, w, h, e),
    ensures
        bfs_inv(b0, cleared(b, e), r.push(e), q2, oh + 1, x, y, w, h),
        occupied(cleared(b, e)) < occupied(b),
{
    assert(has_shape(b, w, h)) by {
        reveal(inv_shape);
    }
    lemma_step_shape(b0, b, r, q, q2, oh, x, y, w, h, e);
    lemma_step_removal(b0, b, r, q, q2, oh, w, h, e);
    lemma_step_head(b0, b, r, q, q2, oh, x, y, w, h, e);
    lemma_step_parents(b0, b, r, q, q2, oh, x, y, w, h, e);
    lemma_step_order(b, r, q, q2, oh, w, h, e);
    lemma_step_closure(b, r, q, q2, oh, w, h, e);
    lemma_step_min(b, r, q, q2, oh, w, h, e);
    lemma_occupied_clear(b, e.2 as int, e.3 as int);
}

proof fn lemma_bfs_finish(b0: Grid, b: Grid, r: Seq<Removal>, q: Queue, head: int, x: int, y: int, w: int, h: int)
    requires
        bfs_inv(b0, b, r, q, head, x, y, w, h),
        head >= q.len(),
    ensures
        has_shape(b, w, h),
        removal_of(b0, b, r, w, h),
        blast_layers(r, x, y),
        blast_closed(b, r, w, h),
{
    reveal(inv_shape);
    reveal(inv_head);
    reveal(inv_parents);
    reveal(inv_order);
    reveal(inv_min);
    reveal(inv_closure);
    assert forall|k: int, i: int, j: int|
        0 <= k < r.len() && (#[trigger] r[k]).4 == CellType::Bomb && 0 <= i < w && 0 <= j < h
            && adjacent(i, j, r[k].2 as int, r[k].3 as int) implies (#[trigger] b[i][j]).is_none() by {
        if !b[i][j].is_none() {
            assert(pending(q, head, i, j, r[k].1 + 1));
        }
    }
}

/// A `WIDTH` x `HEIGHT` grid of optional cells, stored column by column with
/// row 0 at the top, and the counter from which new cells take their ids.
pub struct Board<const WIDTH: usize, const HEIGHT: usize> {
    pub cells: Vec<Vec<Option<Cell>>>,
    generated_cells: usize,
}

impl<const WIDTH: usize, const HEIGHT: usize> View for Board<WIDTH, HEIGHT> {
    type V = Seq<Seq<Option<Cell>>>;

    closed spec fn view(&self) -> Seq<Seq<Option<Cell>>> {
        self.cells@.map_values(|c: Vec<Option<Cell>>| c@)
    }
}

/// A grid of `width` columns of `height` slots each.
pub open spec fn has_shape(cols: Seq<Seq<Option<Cell>>>, width: int, height: int) -> bool {
    &&& cols.len() == width
    &&& forall|x: int| 0 <= x < width ==> (#[trigger] cols[x]).len() == height
}

proof fn lemma_settled_conserves_shape(cols: Seq<Seq<Option<Cell>>>)
    ensures
        forall|x: int| 0 <= x < cols.len() ==> (#[trigger] settle_all(cols)[x]).len() == cols[x].len(),
{
    assert forall|x: int| 0 <= x < cols.len() implies (#[trigger] settle_all(cols)[x]).len()
        == cols[x].len() by {
        lemma_settled_conserves(cols[x]);
    }
}

impl<const WIDTH: usize, const HEIGHT: usize> Board<WIDTH, HEIGHT> {
    /// The board has `WIDTH` columns of `HEIGHT` slots.
    pub open spec fn wf(&self) -> bool {
        has_shape(self@, WIDTH as int, HEIGHT as int)
    }

    proof fn lemma_view(&self)
        ensures
            self@.len() == self.cells@.len(),
            forall|i: int| 0 <= i < self.cells@.len() ==> #[trigger] self@[i] == self.cells@[i]@,
    {
    }

    /// The value of the id counter.
    pub closed spec fn next_id(&self) -> usize {
        self.generated_cells
    }

    /// The slot at column `x`, row `y`.
    pub open spec fn slot(&self, x: int, y: int) -> Option<Cell> {
        self@[x][y]
    }

    pub fn new() -> (r: Self)
        ensures
            r.wf(),
            r.next_id() == 0,
            r@ == Seq::new(WIDTH as nat, |x: int| Seq::new(HEIGHT as nat, |y: int| None::<Cell>)),
            forall|x: int, y: int| 0 <= x < WIDTH && 0 <= y < HEIGHT ==> r.slot(x, y).is_none(),
    {
        let mut cells: Vec<Vec<Option<Cell>>> = Vec::new();
        let mut x: usize = 0;
        while x < WIDTH
            invariant
                x <= WIDTH,
                cells@.len() == x,
                forall|i: int| 0 <= i < x ==> (#[trigger] cells@[i])@ == Seq::new(HEIGHT as nat, |j: int| None::<Cell>),
            decreases WIDTH - x,
        {
            let mut column: Vec<Option<Cell>> = Vec::new();
            let mut y: usize = 0;
            while y < HEIGHT
                invariant
                    y <= HEIGHT,
                    column@ == Seq::new(y as nat, |j: int| None::<Cell>),
                decreases HEIGHT - y,
            {
                column.push(None);
                y += 1;
                assert(column@ =~= Seq::new(y as nat, |j: int| None::<Cell>));
            }
            cells.push(column);
            x += 1;
        }
        let r = Board { cells, generated_cells: 0 };
        assert forall|x: int| 0 <= x < WIDTH implies (#[trigger] r@[x]).len() == HEIGHT by {
            assert(r@[x] == r.cells@[x]@);
        }
        assert(r@ =~= Seq::new(WIDTH as nat, |x: int| Seq::new(HEIGHT as nat, |y: int| None::<Cell>))) by {
            assert forall|x: int| 0 <= x < WIDTH implies r@[x] == Seq::new(HEIGHT as nat, |y: int| None::<Cell>) by {
                assert(r@[x] == r.cells@[x]@);
            }
        }
        r
    }

    /// A board holding `cells`, whose next minted id is `generated_cells`.
    pub fn from_cells(cells: Vec<Vec<Option<Cell>>>, generated_cells: usize) -> (r: Self)
        requires
            has_shape(cells@.map_values(|c: Vec<Option<Cell>>| c@), WIDTH as int, HEIGHT as int),
        ensures
            r.wf(),
            r@ == cells@.map_values(|c: Vec<Option<Cell>>| c@),
            r.next_id() == generated_cells,
    {
        Board { cells, generated_cells }
    }

    /// The slot at column `x`, row `y`.
    pub fn get(&self, x: usize, y: usize) -> (r: Option<Cell>)
        requires
            self.wf(),
            x < WIDTH,
            y < HEIGHT,
        ensures
            r == self.slot(x as int, y as int),
    {
        proof { self.lemma_view(); }
        self.cells[x][y]
    }

    /// Empties every slot; the id counter keeps its value.
    pub fn clear(&mut self)
        ensures
            final(self).wf(),
            final(self).next_id() == old(self).next_id(),
            forall|x: int, y: int| 0 <= x < WIDTH && 0 <= y < HEIGHT ==> final(self).slot(x, y).is_none(),
    {
        let fresh = Self::new();
        let ghost blank = fresh@;
        self.cells = fresh.cells;
        assert(self@ == blank);
        assert forall|x: int, y: int| 0 <= x < WIDTH && 0 <= y < HEIGHT implies self.slot(x, y).is_none() by {
            assert(blank[x][y] == None::<Cell>);
        }
    }

    /// The id that the next fed cell will take.
    pub fn generated_cells(&self) -> (r: usize)
        ensures
            r == self.next_id(),
    {
        self.generated_cells
    }

    /// Feeds one row: in every column the top cell leaves, the others move up
    /// one row, and a cell with a freshly minted id enters at the bottom.
    /// Returns the new cells, one per column.
    pub fn feed(&mut self, row: &[CellType; WIDTH]) -> (r: Vec<Cell>)
        requires
            old(self).wf(),
            old(self).next_id() + WIDTH <= usize::MAX,
        ensures
            final(self).wf(),
            r@ == minted(old(self).next_id() as int, row@),
            final(self)@ == fed(old(self)@, old(self).next_id() as int, row@),
            final(self).next_id() == old(self).next_id() + WIDTH,
    {
        let ghost old_view = self@;
        proof { self.lemma_view(); }
        let ghost first = self.generated_cells as int;
        let mut r: Vec<Cell> = Vec::new();
        let mut x: usize = 0;
        while x < WIDTH
            invariant
                x <= WIDTH,
                first == old(self).next_id(),
                self.generated_cells == first + x,
                first + WIDTH <= usize::MAX,
                old_view == old(self)@,
                has_shape(old_view, WIDTH as int, HEIGHT as int),
                has_shape(self@, WIDTH as int, HEIGHT as int),
                r@ == minted(first, row@).subrange(0, x as int),
                forall|i: int| 0 <= i < x ==> #[trigger] self@[i] == fed(old_view, first, row@)[i],
                forall|i: int| x <= i < WIDTH ==> #[trigger] self@[i] == old_view[i],
            decreases WIDTH - x,
        {
            let cell = Cell::new(self.generated_cells, row[x]);
            self.generated_cells += 1;
            assert(self.cells@[x as int]@ == self@[x as int]);
            let ghost before = self.cells@;
            let ghost pre_view = self@;
            proof { self.lemma_view(); }
            if HEIGHT > 0 {
                self.cells[x].remove(0);
                self.cells[x].push(Some(cell));
            }
            r.push(cell);
            proof {
                self.lemma_view();
                assert(self.cells@.len() == before.len());
                assert(forall|i: int| 0 <= i < WIDTH && i != x ==> self.cells@[i] == before[i]);
                if HEIGHT > 0 {
                    assert(self.cells@[x as int]@ =~= before[x as int]@.drop_first().push(Some(cell)));
                }
                assert(cell == minted(first, row@)[x as int]);
                assert forall|i: int| 0 <= i < WIDTH && i != x implies #[trigger] self@[i] == pre_view[i] by {
                    assert(self@[i] == self.cells@[i]@);
                    assert(pre_view[i] == before[i]@);
                }
                assert(self@[x as int] =~= fed(old_view, first, row@)[x as int]);
                assert(r@ =~= minted(first, row@).subrange(0, x + 1));
                assert forall|i: int| 0 <= i < WIDTH implies (#[trigger] self@[i]).len() == HEIGHT by {
                    if i != x {
                        assert(self@[i] == pre_view[i]);
                    }
                }
            }
            x += 1;
        }
        assert(self@ =~= fed(old_view, first, row@));
        assert(r@ =~= minted(first, row@));
        r
    }

    /// Packs every column's cells at its bottom, keeping their order, and
    /// returns, under its id, how many rows each cell that moved has fallen.
    pub fn apply_gravity(&mut self) -> (r: BTreeMap<usize, usize>)
        requires
            old(self).wf(),
        ensures
            final(self).wf(),
            final(self)@ == settle_all(old(self)@),
            r@ == board_falls(old(self)@, Map::empty()),
            final(self).next_id() == old(self).next_id(),
    {
        let ghost old_view = self@;
        proof { self.lemma_view(); }
        let mut falls: BTreeMap<usize, usize> = BTreeMap::new();
        assert(old_view.subrange(0, WIDTH as int) =~= old_view);
        let mut x: usize = 0;
        while x < WIDTH
            invariant
                x <= WIDTH,
                old_view == old(self)@,
                self.generated_cells == old(self).next_id(),
                has_shape(old_view, WIDTH as int, HEIGHT as int),
                self@.len() == WIDTH,
                forall|i: int| 0 <= i < x ==> #[trigger] self@[i] == settle_all(old_view)[i],
                forall|i: int| x <= i < WIDTH ==> #[trigger] self@[i] == old_view[i],
                board_falls(old_view.subrange(x as int, WIDTH as int), falls@) == board_falls(
                    old_view,
                    Map::empty(),
                ),
            decreases WIDTH - x,
        {
            let ghost before = self.cells@;
            let ghost pre_view = self@;
            let ghost m0 = falls@;
            proof {
                self.lemma_view();
                assert(pre_view[x as int] == before[x as int]@);
                assert(before[x as int]@ == old_view[x as int]);
            }
            settle_column(&mut self.cells[x], &mut falls);
            proof {
                self.lemma_view();
                assert(falls@ == column_falls(old_view[x as int], 0, m0));
                assert forall|i: int| 0 <= i < WIDTH && i != x implies #[trigger] self@[i] == pre_view[i] by {
                    assert(self@[i] == self.cells@[i]@);
                    assert(pre_view[i] == before[i]@);
                }
                assert(self@[x as int] == settled(old_view[x as int]));
                assert(old_view.subrange(x as int, WIDTH as int).drop_first() =~= old_view.subrange(
                    x + 1,
                    WIDTH as int,
                ));
                assert(old_view.subrange(x as int, WIDTH as int)[0] == old_view[x as int]);
                assert(board_falls(old_view.subrange(x as int, WIDTH as int), m0) == board_falls(
                    old_view.subrange(x + 1, WIDTH as int),
                    falls@,
                ));
            }
            x += 1;
        }
        proof {
            lemma_settled_conserves_shape(old_view);
            assert(self@ =~= settle_all(old_view));
            assert(old_view.subrange(WIDTH as int, WIDTH as int) =~= Seq::<Seq<Option<Cell>>>::empty());
            assert(old_view.subrange(0, WIDTH as int) =~= old_view);
        }
        falls
    }

    /// Detonates the slot at column `x`, row `y`. An empty or out-of-range slot
    /// changes nothing and yields an empty list. Otherwise the cell there is
    /// removed at blast distance 0; a removed bomb sends the blast on to its
    /// eight neighbours one layer further, and every cell the blast reaches is
    /// removed in turn; tiles stop the blast. Returns the removed cells in
    /// breadth-first order.
    pub fn remove(&mut self, x: usize, y: usize) -> (r: Vec<Removal>)
        requires
            old(self).wf(),
        ensures
            final(self).wf(),
            final(self).next_id() == old(self).next_id(),
            chain_removal(old(self)@, final(self)@, x as int, y as int, r@, WIDTH as int, HEIGHT as int),
    {
        let mut dists: Vec<Removal> = Vec::new();
        if x >= WIDTH || y >= HEIGHT {
            return dists;
        }
        proof {
            self.lemma_view();
            assert(self@[x as int].len() == HEIGHT);
            assert(self.cells@[x as int]@ == self@[x as int]);
        }
        if self.cells[x][y].is_none() {
            return dists;
        }
        let ghost b0 = self@;
        let mut queue: Vec<(usize, usize, usize)> = Vec::new();
        queue.push((x, y, 0));
        let mut head: usize = 0;
        proof {
            lemma_bfs_start(b0, queue@, x as int, y as int, WIDTH as int, HEIGHT as int);
        }
        while head < queue.len()
            invariant
                self.generated_cells == old(self).next_id(),
                b0 == old(self)@,
                bfs_inv(b0, self@, dists@, queue@, head as int, x as int, y as int, WIDTH as int, HEIGHT as int),
            decreases occupied(self@), queue@.len() - head,
        {
            proof {
                reveal(inv_shape);
                self.lemma_view();
            }
            let (cx, cy, d) = queue[head];
            let ghost q = queue@;
            let ghost r = dists@;
            let ghost b = self@;
            let ghost oh = head as int;
            let ghost before = self.cells@;
            head += 1;
            assert(q[oh] == (cx, cy, d));
            assert(cx < WIDTH && cy < HEIGHT);
            assert(self.cells@[cx as int]@ == b[cx as int]);
            let slot = self.cells[cx][cy];
            assert(slot == b[cx as int][cy as int]);
            if let Some(cell) = slot {
                self.cells[cx][cy] = None;
                let e: Removal = (cell.id, d, cx, cy, cell.cell_type);
                dists.push(e);
                proof {
                    self.lemma_view();
                    assert forall|i: int| 0 <= i < WIDTH implies #[trigger] self@[i] == b.update(
                        cx as int,
                        b[cx as int].update(cy as int, None),
                    )[i] by {
                        assert(self@[i] == self.cells@[i]@);
                        assert(b[i] == before[i]@);
                        if i == cx {
                            assert(self@[i] =~= b[i].update(cy as int, None));
                        }
                    }
                    assert(self@ =~= b.update(cx as int, b[cx as int].update(cy as int, None)));
                }
                if cell.cell_type == CellType::Bomb {
                    let nb = adjacent_cells(cx, cy, WIDTH, HEIGHT);
                    push_neighbors(&mut queue, &nb, d + 1);
                    proof {
                        let q2 = queue@;
                        let pushed = nb@.map_values(|p: (usize, usize)| (p.0, p.1, (d + 1) as usize));
                        assert forall|m: int| 0 <= m < q.len() implies #[trigger] q2[m] == q[m] by {}
                        assert forall|m: int| q.len() <= m < q2.len() implies (#[trigger] q2[m]).0 < WIDTH
                            && q2[m].1 < HEIGHT && q2[m].2 == d + 1 && adjacent(
                            cx as int,
                            cy as int,
                            q2[m].0 as int,
                            q2[m].1 as int,
                        ) by {
                            assert(q2[m] == pushed[m - q.len()]);
                        }
                        assert forall|i: int, j: int|
                            0 <= i < WIDTH && 0 <= j < HEIGHT && adjacent(i, j, cx as int, cy as int)
                                implies pending(q2, oh + 1, i, j, d + 1) by {
                            let s = choose|s: int| 0 <= s < nb@.len() && #[trigger] nb@[s] == (i as usize, j as usize);
                            assert(q2[q.len() + s] == pushed[s]);
                        }
                    }
                } else {
                    assert(queue@ == q);
                }
                proof {
                    assert(step_pre(b, r, q, queue@, oh, WIDTH as int, HEIGHT as int, e));
                    lemma_bfs_step_occupied(b0, b, r, q, queue@, oh, x as int, y as int, WIDTH as int, HEIGHT as int, e);
                    assert(self@ == cleared(b, e));
                }
            } else {
                proof {
                    lemma_bfs_step_empty(b0, b, r, q, oh, x as int, y as int, WIDTH as int, HEIGHT as int);
                }
            }
        }
        proof {
            lemma_bfs_finish(b0, self@, dists@, queue@, head as int, x as int, y as int, WIDTH as int, HEIGHT as int);
        }
        dists
    }

    /// Whether some column has a cell in its top row.
    pub fn is_filled(&self) -> (r: bool)
        requires
            self.wf(),
        ensures
            r == exists|x: int| 0 <= x < WIDTH && HEIGHT > 0 && (#[trigger] self.slot(x, 0)).is_some(),
    {
        if HEIGHT == 0 {
            return false;
        }
        let mut x: usize = 0;
        while x < WIDTH
            invariant
                x <= WIDTH,
                HEIGHT > 0,
                self.wf(),
                forall|i: int| 0 <= i < x ==> (#[trigger] self.slot(i, 0)).is_none(),
            decreases WIDTH - x,
        {
            assert(self.cells@[x as int]@ == self@[x as int]);
            if self.cells[x][0].is_some() {
                assert(self.slot(x as int, 0).is_some());
                return true;
            }
            x += 1;
        }
        false
    }
}

} // verus!
