//! One column of the grid under gravity: the settled shape, the fall
//! distances, and the facts that gravity keeps its cells and their order.
use crate::board::Cell;
use std::collections::BTreeMap;
use vstd::prelude::*;

verus! {

/// The number of empty slots in `s`.
pub open spec fn count_none(s: Seq<Option<Cell>>) -> nat
    decreases s.len(),
{
    if s.len() == 0 {
        0
    } else {
        (if s[0].is_none() { 1nat } else { 0nat }) + count_none(s.drop_first())
    }
}

/// The occupied slots of `s`, top to bottom.
pub open spec fn present(s: Seq<Option<Cell>>) -> Seq<Option<Cell>>
    decreases s.len(),
{
    if s.len() == 0 {
        s
    } else if s[0].is_some() {
        seq![s[0]] + present(s.drop_first())
    } else {
        present(s.drop_first())
    }
}

/// `n` empty slots.
pub open spec fn blanks(n: nat) -> Seq<Option<Cell>> {
    Seq::new(n, |i: int| None::<Cell>)
}

/// The column `s` after gravity: its cells, in their order, packed at the
/// bottom below the empty slots.
pub open spec fn settled(s: Seq<Option<Cell>>) -> Seq<Option<Cell>> {
    blanks(count_none(s)) + present(s)
}

/// How far the cell at row `y` of `s` falls: the empty slots below it.
pub open spec fn fall(s: Seq<Option<Cell>>, y: int) -> nat {
    count_none(s.subrange(y + 1, s.len() as int))
}

/// The fall map after recording the column `s` bottom to top into `m`, with
/// `below` empty slots already counted below `s`: each cell with a positive
/// fall is entered under its id.
pub open spec fn column_falls(s: Seq<Option<Cell>>, below: nat, m: Map<usize, usize>) -> Map<
    usize,
    usize,
>
    decreases s.len(),
{
    if s.len() == 0 {
        m
    } else {
        let c = s.last();
        if c.is_some() {
            column_falls(
                s.drop_last(),
                below,
                if below > 0 { m.insert(c.unwrap().id, below as usize) } else { m },
            )
        } else {
            column_falls(s.drop_last(), below + 1, m)
        }
    }
}

proof fn lemma_split_first(s: Seq<Option<Cell>>, y: int)
    requires
        0 < y <= s.len(),
    ensures
        s.subrange(y - 1, s.len() as int).drop_first() =~= s.subrange(y, s.len() as int),
        s.subrange(y - 1, s.len() as int)[0] == s[y - 1],
{
}

/// Counting and packing distribute over concatenation.
pub proof fn lemma_concat(a: Seq<Option<Cell>>, b: Seq<Option<Cell>>)
    ensures
        count_none(a + b) == count_none(a) + count_none(b),
        present(a + b) == present(a) + present(b),
    decreases a.len(),
{
    if a.len() == 0 {
        assert(a + b =~= b);
        assert(present(a) + present(b) =~= present(b));
    } else {
        lemma_concat(a.drop_first(), b);
        assert((a + b).drop_first() =~= a.drop_first() + b);
        if a[0].is_some() {
            assert(seq![a[0]] + (present(a.drop_first()) + present(b)) =~= (seq![a[0]] + present(
                a.drop_first(),
            )) + present(b));
        }
    }
}

proof fn lemma_blanks(n: nat)
    ensures
        count_none(blanks(n)) == n,
        present(blanks(n)) =~= Seq::<Option<Cell>>::empty(),
    decreases n,
{
    if n > 0 {
        lemma_blanks((n - 1) as nat);
        assert(blanks(n).drop_first() =~= blanks((n - 1) as nat));
    }
}

proof fn lemma_present_full(s: Seq<Option<Cell>>)
    ensures
        count_none(present(s)) == 0,
        present(present(s)) == present(s),
        forall|i: int| 0 <= i < present(s).len() ==> (#[trigger] present(s)[i]).is_some(),
        present(s).len() + count_none(s) == s.len(),
    decreases s.len(),
{
    if s.len() > 0 {
        lemma_present_full(s.drop_first());
        let p = present(s.drop_first());
        if s[0].is_some() {
            assert((seq![s[0]] + p).drop_first() =~= p);
            assert forall|i: int| 0 <= i < present(s).len() implies (#[trigger] present(s)[i]).is_some() by {
                if i > 0 {
                    assert(present(s)[i] == p[i - 1]);
                }
            }
        }
    }
}

/// Emptying an occupied slot adds one to the empty count.
pub proof fn lemma_clear_slot(s: Seq<Option<Cell>>, j: int)
    requires
        0 <= j < s.len(),
        s[j].is_some(),
    ensures
        count_none(s.update(j, None)) == count_none(s) + 1,
        count_none(s) < s.len(),
{
    let pre = s.subrange(0, j);
    let post = s.subrange(j + 1, s.len() as int);
    let t = s.update(j, None);
    assert(s =~= pre + (seq![s[j]] + post));
    assert(t =~= pre + (seq![None::<Cell>] + post));
    lemma_concat(pre, seq![s[j]] + post);
    lemma_concat(seq![s[j]], post);
    lemma_concat(pre, seq![None::<Cell>] + post);
    lemma_concat(seq![None::<Cell>], post);
    assert((seq![s[j]]).drop_first() =~= Seq::<Option<Cell>>::empty());
    assert((seq![None::<Cell>]).drop_first() =~= Seq::<Option<Cell>>::empty());
    assert(count_none(Seq::<Option<Cell>>::empty()) == 0);
    assert(count_none(seq![s[j]]) == 0);
    assert(count_none(seq![None::<Cell>]) == 1);
    lemma_present_full(t);
}

/// Gravity keeps the column's length and its cells in their order, and each
/// cell only moves down, by its fall distance.
pub proof fn lemma_settled_conserves(s: Seq<Option<Cell>>)
    ensures
        settled(s).len() == s.len(),
        present(settled(s)) == present(s),
        forall|y: int|
            0 <= y < s.len() && (#[trigger] s[y]).is_some() ==> settled(s)[y + fall(s, y)] == s[y],
{
    lemma_present_full(s);
    lemma_blanks(count_none(s));
    lemma_concat(blanks(count_none(s)), present(s));
    assert(Seq::<Option<Cell>>::empty() + present(s) =~= present(s));
    assert forall|y: int| 0 <= y < s.len() && (#[trigger] s[y]).is_some() implies settled(s)[y
        + fall(s, y)] == s[y] by {
        let pre = s.subrange(0, y);
        let post = s.subrange(y + 1, s.len() as int);
        lemma_concat(pre, seq![s[y]] + post);
        lemma_concat(seq![s[y]], post);
        assert(s =~= pre + (seq![s[y]] + post));
        assert((seq![s[y]]).drop_first() =~= Seq::<Option<Cell>>::empty());
        assert(count_none(Seq::<Option<Cell>>::empty()) == 0);
        assert(count_none(seq![s[y]]) == 0);
        lemma_present_full(pre);
        assert(pre =~= s.subrange(0, y));
        lemma_present_index(s, y);
    }
}

proof fn lemma_present_index(s: Seq<Option<Cell>>, y: int)
    requires
        0 <= y < s.len(),
        s[y].is_some(),
    ensures
        y - count_none(s.subrange(0, y)) < present(s).len(),
        present(s)[y - count_none(s.subrange(0, y))] == s[y],
    decreases s.len(),
{
    let rest = s.drop_first();
    lemma_present_full(s.subrange(0, y));
    if y == 0 {
        assert(s.subrange(0, 0) =~= Seq::<Option<Cell>>::empty());
        assert(count_none(s.subrange(0, 0)) == 0);
        assert(present(s) == seq![s[0]] + present(rest));
    } else {
        lemma_present_index(rest, y - 1);
        assert(s.subrange(0, y).drop_first() =~= rest.subrange(0, y - 1));
        assert(s.subrange(0, y)[0] == s[0]);
        assert(count_none(s.subrange(0, y)) == (if s[0].is_none() { 1nat } else { 0nat })
            + count_none(rest.subrange(0, y - 1)));
        lemma_present_full(rest.subrange(0, y - 1));
        let k = y - 1 - count_none(rest.subrange(0, y - 1));
        if s[0].is_some() {
            assert(present(s) == seq![s[0]] + present(rest));
            assert((seq![s[0]] + present(rest))[k + 1] == present(rest)[k]);
        } else {
            assert(present(s) == present(rest));
        }
    }
}

proof fn lemma_falls_all_some(s: Seq<Option<Cell>>, n: nat, m: Map<usize, usize>)
    requires
        forall|i: int| 0 <= i < s.len() ==> (#[trigger] s[i]).is_some(),
    ensures
        column_falls(blanks(n) + s, 0, m) == m,
    decreases s.len(), n,
{
    if s.len() > 0 {
        assert((blanks(n) + s).drop_last() =~= blanks(n) + s.drop_last());
        assert((blanks(n) + s).last() == s.last());
        lemma_falls_all_some(s.drop_last(), n, m);
    } else {
        assert(blanks(n) + s =~= blanks(n));
        lemma_falls_blanks(n, 0, m);
    }
}

proof fn lemma_falls_blanks(n: nat, below: nat, m: Map<usize, usize>)
    ensures
        column_falls(blanks(n), below, m) == m,
    decreases n,
{
    if n > 0 {
        assert(blanks(n).drop_last() =~= blanks((n - 1) as nat));
        lemma_falls_blanks((n - 1) as nat, below + 1, m);
    }
}

/// A settled column is settled again by gravity, and records no falls.
pub proof fn lemma_settled_idempotent(s: Seq<Option<Cell>>, m: Map<usize, usize>)
    ensures
        settled(settled(s)) == settled(s),
        column_falls(settled(s), 0, m) == m,
{
    lemma_present_full(s);
    lemma_blanks(count_none(s));
    lemma_concat(blanks(count_none(s)), present(s));
    assert(Seq::<Option<Cell>>::empty() + present(s) =~= present(s));
    lemma_falls_all_some(present(s), count_none(s), m);
}

/// Packs the cells of `col` at its bottom, keeping their order, and records
/// in `falls` the fall distance of each cell that moved, under its id.
pub fn settle_column(col: &mut Vec<Option<Cell>>, falls: &mut BTreeMap<usize, usize>)
    ensures
        final(col)@ == settled(old(col)@),
        final(falls)@ == column_falls(old(col)@, 0, old(falls)@),
{
    let ghost s = col@;
    let ghost m0 = falls@;
    let n = col.len();
    let mut below: usize = 0;
    let mut y: usize = n;
    assert(s.subrange(n as int, n as int) =~= Seq::<Option<Cell>>::empty());
    assert(s.subrange(0, n as int) =~= s);
    while y > 0
        invariant
            y <= n,
            n == s.len(),
            col@.len() == n,
            col@.subrange(0, y as int) == s.subrange(0, y as int),
            col@.subrange(y as int, n as int) == settled(s.subrange(y as int, n as int)),
            below == count_none(s.subrange(y as int, n as int)),
            below <= n - y,
            column_falls(s.subrange(0, y as int), below as nat, falls@) == column_falls(s, 0, m0),
        decreases y,
    {
        let ghost u = s.subrange(y as int, n as int);
        let ghost pre = col@;
        y -= 1;
        proof {
            lemma_split_first(s, y as int + 1);
            lemma_present_full(u);
            assert(pre[y as int] == s[y as int]) by {
                assert(pre.subrange(0, y + 1)[y as int] == s.subrange(0, y + 1)[y as int]);
            }
            assert(s.subrange(0, y + 1).last() == s[y as int]);
            assert(s.subrange(0, y + 1).drop_last() =~= s.subrange(0, y as int));
        }
        match col[y] {
            Some(c) => {
                if below > 0 {
                    falls.insert(c.id, below);
                    col.set(y + below, Some(c));
                    col.set(y, None);
                }
                proof {
                    let t = s.subrange(y as int, n as int);
                    assert(present(t) == seq![s[y as int]] + present(u));
                    assert(count_none(t) == count_none(u));
                    assert forall|i: int| 0 <= i < n - y implies col@[y + i] == settled(t)[i] by {
                        if i > 0 {
                            assert(pre[y + i] == pre.subrange(y + 1, n as int)[i - 1]);
                        }
                        if i > below {
                            assert(settled(t)[i] == present(t)[i - below]);
                            assert(settled(u)[i - 1] == present(u)[i - 1 - below]);
                        }
                    }
                    assert(col@.subrange(y as int, n as int) =~= settled(t));
                    assert(col@.subrange(0, y as int) =~= s.subrange(0, y as int)) by {
                        assert forall|i: int| 0 <= i < y implies col@[i] == s[i] by {
                            assert(pre.subrange(0, y + 1)[i] == s.subrange(0, y + 1)[i]);
                        }
                    }
                }
            },
            None => {
                below += 1;
                proof {
                    let t = s.subrange(y as int, n as int);
                    assert(col@.subrange(y as int, n as int) =~= settled(t)) by {
                        assert forall|i: int| 0 < i < n - y implies col@.subrange(y as int, n as int)[i] == settled(t)[i] by {
                            assert(pre.subrange(y + 1, n as int)[i - 1] == settled(u)[i - 1]);
                        }
                    }
                    assert(col@.subrange(0, y as int) =~= s.subrange(0, y as int)) by {
                        assert forall|i: int| 0 <= i < y implies col@[i] == s[i] by {
                            assert(pre.subrange(0, y + 1)[i] == s.subrange(0, y + 1)[i]);
                        }
                    }
                }
            },
        }
    }
    assert(col@ =~= col@.subrange(0, n as int));
    assert(s.subrange(0, 0) =~= Seq::<Option<Cell>>::empty());
}

} // verus!
