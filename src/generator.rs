//! The bomb placement generators: a shuffled bag of column pairs that deals
//! every pair once per cycle, and a load-balancing sampler that weights each
//! column by how far it lags behind the most used one.
use crate::WIDTH;
use rand::rngs::StdRng;
use vstd::arithmetic::power2::{lemma2_to64_rest, lemma_pow2_pos, lemma_pow2_strictly_increases, pow2};
use vstd::bits::lemma_u64_shl_is_mul;
use vstd::prelude::*;
use vstd::seq_lib::lemma_seq_contains_after_push;

verus! {

#[verifier::external_type_specification]
#[verifier::external_body]
pub struct ExStdRng(rand::rngs::StdRng);

/// Relies on rand's `SeedableRng::seed_from_u64` for `StdRng`: a generator
/// whose stream is fixed by the seed.
#[verifier::external_body]
fn seeded_rng(seed: u64) -> StdRng {
    <StdRng as rand::SeedableRng>::seed_from_u64(seed)
}

/// Relies on rand's `Rng::gen_range` on `0..bound`: a value below `bound`.
/// It panics on an empty range, hence `bound > 0`.
#[verifier::external_body]
fn gen_below(rng: &mut StdRng, bound: u64) -> (r: u64)
    requires
        bound > 0,
    ensures
        r < bound,
{
    rand::Rng::gen_range(rng, 0..bound)
}

/// Relies on rand's `SliceRandom::shuffle`: it only swaps elements, so the
/// result is a permutation of the input.
#[verifier::external_body]
fn shuffle_pairs(pairs: &mut Vec<(usize, usize)>, rng: &mut StdRng)
    ensures
        final(pairs)@.to_multiset() == old(pairs)@.to_multiset(),
{
    rand::seq::SliceRandom::shuffle(pairs.as_mut_slice(), rng)
}

/// Two distinct columns, the smaller first.
pub open spec fn is_pair(p: (usize, usize)) -> bool {
    p.0 < p.1 < WIDTH
}

/// A bag of column pairs: no pair twice.
pub open spec fn bag_wf(bag: Seq<(usize, usize)>) -> bool {
    &&& bag.no_duplicates()
    &&& forall|i: int| 0 <= i < bag.len() ==> is_pair(#[trigger] bag[i])
}

/// Every column pair exactly once.
pub open spec fn full_bag(bag: Seq<(usize, usize)>) -> bool {
    &&& bag.len() == WIDTH * (WIDTH - 1) / 2
    &&& bag.no_duplicates()
    &&& forall|p: (usize, usize)| bag.contains(p) <==> is_pair(p)
}

/// `p` comes before `q` in lexicographic order.
pub open spec fn lex_before(p: (usize, usize), q: (usize, usize)) -> bool {
    p.0 < q.0 || (p.0 == q.0 && p.1 < q.1)
}

/// The number of pairs whose first column lies below `f`.
spec fn pairs_before(f: nat) -> nat
    decreases f,
{
    if f == 0 {
        0
    } else {
        (pairs_before((f - 1) as nat) + (WIDTH - f)) as nat
    }
}

/// The draws of `n` successive calls of `BombGenerator::next` on the bag
/// `bag`, which holds at least `n` pairs: the bag read from its end.
pub open spec fn cycle_draws(bag: Seq<(usize, usize)>, n: nat) -> Seq<(usize, usize)> {
    Seq::new(n, |i: int| bag[bag.len() - 1 - i])
}

/// A full bag is a valid bag.
pub proof fn lemma_full_bag_wf(bag: Seq<(usize, usize)>)
    requires
        full_bag(bag),
    ensures
        bag_wf(bag),
{
    assert forall|i: int| 0 <= i < bag.len() implies is_pair(#[trigger] bag[i]) by {
        assert(bag.contains(bag[i]));
    }
}

/// Drawing a full cycle from a full bag deals every column pair exactly once.
pub proof fn lemma_full_cycle(bag: Seq<(usize, usize)>)
    requires
        full_bag(bag),
    ensures
        full_bag(cycle_draws(bag, (WIDTH * (WIDTH - 1) / 2) as nat)),
{
    let n = (WIDTH * (WIDTH - 1) / 2) as nat;
    let d = cycle_draws(bag, n);
    assert forall|p: (usize, usize)| d.contains(p) <==> is_pair(p) by {
        if is_pair(p) {
            let i = choose|i: int| 0 <= i < bag.len() && bag[i] == p;
            assert(d[bag.len() - 1 - i] == p);
        }
        if d.contains(p) {
            let j = choose|j: int| 0 <= j < d.len() && d[j] == p;
            assert(bag.contains(bag[bag.len() - 1 - j]));
        }
    }
    assert forall|i: int, j: int| 0 <= i < d.len() && 0 <= j < d.len() && i != j implies d[i] != d[j] by {
        assert(bag[bag.len() - 1 - i] != bag[bag.len() - 1 - j]);
    }
}

/// Every pair of distinct columns, in lexicographic order.
pub fn generate_x_pairs() -> (r: Vec<(usize, usize)>)
    ensures
        full_bag(r@),
        forall|i: int, j: int| 0 <= i < j < r@.len() ==> lex_before(#[trigger] r@[i], #[trigger] r@[j]),
{
    let mut r: Vec<(usize, usize)> = Vec::new();
    let mut first: usize = 0;
    while first < WIDTH
        invariant
            first <= WIDTH,
            r@.len() == pairs_before(first as nat),
            r@.no_duplicates(),
            forall|p: (usize, usize)| #[trigger] r@.contains(p) <==> is_pair(p) && p.0 < first,
            forall|i: int, j: int| 0 <= i < j < r@.len() ==> lex_before(#[trigger] r@[i], #[trigger] r@[j]),
        decreases WIDTH - first,
    {
        let mut second: usize = first + 1;
        assert forall|p: (usize, usize)| #[trigger] r@.contains(p) <==> is_pair(p) && (p.0 < first || (p.0 == first && p.1 < second)) by {}
        while second < WIDTH
            invariant
                first < WIDTH,
                first + 1 <= second <= WIDTH,
                r@.len() == pairs_before(first as nat) + (second - first - 1),
                r@.no_duplicates(),
                forall|p: (usize, usize)|
                    #[trigger] r@.contains(p) <==> is_pair(p) && (p.0 < first || (p.0 == first && p.1 < second)),
                forall|i: int, j: int| 0 <= i < j < r@.len() ==> lex_before(#[trigger] r@[i], #[trigger] r@[j]),
            decreases WIDTH - second,
        {
            proof {
                assert(r@.contains((first, second)) <==> is_pair((first, second)) && (first < first || (first == first && second < second)));
                assert forall|p: (usize, usize)|
                    #[trigger] r@.push((first, second)).contains(p) <==> is_pair(p) && (p.0 < first || (p.0
                        == first && p.1 < second + 1)) by {
                    lemma_seq_contains_after_push(r@, (first, second), p);
                }
                assert(!r@.contains((first, second)));
                assert forall|i: int, j: int| 0 <= i < j < r@.len() + 1 implies lex_before(
                    #[trigger] r@.push((first, second))[i],
                    #[trigger] r@.push((first, second))[j],
                ) by {
                    if j == r@.len() {
                        assert(r@.contains(r@[i]));
                    }
                }
                assert forall|i: int, j: int|
                    0 <= i < r@.len() + 1 && 0 <= j < r@.len() + 1 && i != j implies r@.push(
                    (first, second),
                )[i] != r@.push((first, second))[j] by {
                    if i == r@.len() {
                        assert(r@.contains(r@[j]));
                    } else if j == r@.len() {
                        assert(r@.contains(r@[i]));
                    }
                }
            }
            r.push((first, second));
            second += 1;
        }
        assert forall|p: (usize, usize)| #[trigger] r@.contains(p) <==> is_pair(p) && p.0 < first + 1 by {}
        first += 1;
    }
    assert(pairs_before(WIDTH as nat) == 28) by {
        reveal_with_fuel(pairs_before, 9);
    }
    r
}

/// The uniform-cycle generator: a shuffled bag holding every column pair once,
/// dealt from its end and refilled with a fresh shuffle when empty.
pub struct BombGenerator {
    shuffled: Vec<(usize, usize)>,
    rng: StdRng,
}

impl BombGenerator {
    /// The pairs still to be dealt; the next one is the last.
    pub closed spec fn bag(&self) -> Seq<(usize, usize)> {
        self.shuffled@
    }

    /// A generator whose stream is fixed by `seed`, with a full bag.
    pub fn new(seed: u64) -> (r: Self)
        ensures
            full_bag(r.bag()),
    {
        let rng = seeded_rng(seed);
        let mut generator = BombGenerator { shuffled: Vec::new(), rng };
        generator.shuffle();
        generator
    }

    /// Refills the bag with every pair, in a random order.
    pub fn shuffle(&mut self)
        ensures
            full_bag(final(self).bag()),
    {
        let mut shuffled = generate_x_pairs();
        let ghost before = shuffled@;
        shuffle_pairs(&mut shuffled, &mut self.rng);
        proof {
            let s = shuffled@;
            vstd::seq_lib::to_multiset_len(s);
            vstd::seq_lib::to_multiset_len(before);
            assert forall|p: (usize, usize)| s.contains(p) <==> is_pair(p) by {
                vstd::seq_lib::to_multiset_contains(s, p);
                vstd::seq_lib::to_multiset_contains(before, p);
            }
            before.lemma_multiset_has_no_duplicates();
            s.lemma_multiset_has_no_duplicates_conv();
        }
        self.shuffled = shuffled;
    }

    /// Deals the next pair: the last of the bag, after refilling an empty bag.
    pub fn next(&mut self) -> (p: (usize, usize))
        requires
            bag_wf(old(self).bag()),
        ensures
            bag_wf(final(self).bag()),
            is_pair(p),
            old(self).bag().len() > 0 ==> p == old(self).bag().last() && final(self).bag()
                == old(self).bag().drop_last(),
            old(self).bag().len() == 0 ==> exists|fresh: Seq<(usize, usize)>|
                full_bag(fresh) && p == fresh.last() && final(self).bag() == fresh.drop_last(),
    {
        if self.shuffled.len() == 0 {
            self.shuffle();
            proof {
                lemma_full_bag_wf(self.shuffled@);
            }
        }
        let ghost fresh = self.shuffled@;
        let p = self.shuffled.pop().unwrap();
        proof {
            assert(fresh.len() > 0);
            assert(p == fresh[fresh.len() - 1]);
            assert(self.shuffled@ =~= fresh.drop_last());
            assert forall|i: int| 0 <= i < self.shuffled@.len() implies is_pair(#[trigger] self.shuffled@[i]) by {
                assert(self.shuffled@[i] == fresh[i]);
            }
        }
        p
    }
}

/// The widest lag between two columns that still raises a column's weight;
/// beyond it the weight stays at its ceiling, so that the weights of all
/// columns add up within a `u64`.
pub const MAX_GAP: u64 = 30;

/// The largest of the counts `s`.
pub open spec fn seq_max(s: Seq<u64>) -> u64
    decreases s.len(),
{
    if s.len() == 0 {
        0
    } else {
        let m = seq_max(s.drop_last());
        if s.last() > m {
            s.last()
        } else {
            m
        }
    }
}

/// The weight of a column that lags `gap` placements behind the most used
/// one: four to the power of the lag, up to `MAX_GAP`.
pub open spec fn weight(gap: int) -> nat {
    pow2((2 * if gap < MAX_GAP { gap } else { MAX_GAP as int }) as nat)
}

/// The weight of each column for the placement counts `counts`.
pub open spec fn weights_of(counts: Seq<u64>) -> Seq<u64> {
    Seq::new(counts.len(), |i: int| weight(seq_max(counts) - counts[i]) as u64)
}

/// The sum of the first `n` weights.
pub open spec fn prefix_sum(w: Seq<u64>, n: int) -> int
    decreases n,
{
    if n <= 0 {
        0
    } else {
        prefix_sum(w, n - 1) + w[n - 1]
    }
}

/// A draw `r` selects column `i` of the weights `w`: `r` lies within that
/// column's share of the running total.
pub open spec fn selects(w: Seq<u64>, r: int, i: int) -> bool {
    prefix_sum(w, i) <= r < prefix_sum(w, i + 1)
}

/// A count raised by one placement, held at the ceiling of `u64`.
pub open spec fn bumped(c: u64) -> u64 {
    if c < u64::MAX {
        (c + 1) as u64
    } else {
        c
    }
}

proof fn lemma_seq_max(s: Seq<u64>)
    ensures
        forall|i: int| 0 <= i < s.len() ==> s[i] <= #[trigger] seq_max(s),
    decreases s.len(),
{
    if s.len() > 0 {
        lemma_seq_max(s.drop_last());
        assert forall|i: int| 0 <= i < s.len() implies s[i] <= #[trigger] seq_max(s) by {
            if i < s.len() - 1 {
                assert(s[i] == s.drop_last()[i]);
            }
        }
    }
}

proof fn lemma_weight_bounds(gap: int)
    requires
        0 <= gap,
    ensures
        1 <= weight(gap) <= 0x1000000000000000,
{
    let e = (2 * if gap < MAX_GAP { gap } else { MAX_GAP as int }) as nat;
    lemma_pow2_pos(e);
    lemma2_to64_rest();
    if e < 60 {
        lemma_pow2_strictly_increases(e, 60);
    }
}

proof fn lemma_prefix_sum_bound(w: Seq<u64>, n: int, bound: int)
    requires
        0 <= n <= w.len(),
        forall|i: int| 0 <= i < w.len() ==> w[i] <= bound,
    ensures
        0 <= prefix_sum(w, n) <= n * bound,
    decreases n,
{
    if n > 0 {
        lemma_prefix_sum_bound(w, n - 1, bound);
        assert(prefix_sum(w, n) == prefix_sum(w, n - 1) + w[n - 1]);
        assert(w[n - 1] <= bound);
        assert((n - 1) * bound + bound == n * bound) by (nonlinear_arith);
        assert(prefix_sum(w, n) <= n * bound);
    } else {
        assert(n * bound == 0) by (nonlinear_arith)
            requires
                n == 0,
        ;
    }
}

proof fn lemma_prefix_sum_mono(w: Seq<u64>, a: int, b: int)
    requires
        0 <= a <= b <= w.len(),
    ensures
        prefix_sum(w, a) <= prefix_sum(w, b),
    decreases b - a,
{
    if a < b {
        lemma_prefix_sum_mono(w, a, b - 1);
    }
}

/// The running sums of `weights`: entry `i` is the sum of the first `i + 1`.
pub fn cumulate(weights: &Vec<u64>) -> (r: Vec<u64>)
    requires
        prefix_sum(weights@, weights@.len() as int) <= u64::MAX,
    ensures
        r@.len() == weights@.len(),
        forall|i: int| 0 <= i < r@.len() ==> #[trigger] r@[i] == prefix_sum(weights@, i + 1),
{
    let mut r: Vec<u64> = Vec::new();
    let mut acc: u64 = 0;
    let mut i: usize = 0;
    while i < weights.len()
        invariant
            i <= weights@.len(),
            prefix_sum(weights@, weights@.len() as int) <= u64::MAX,
            acc == prefix_sum(weights@, i as int),
            r@.len() == i,
            forall|j: int| 0 <= j < i ==> #[trigger] r@[j] == prefix_sum(weights@, j + 1),
        decreases weights@.len() - i,
    {
        proof {
            lemma_prefix_sum_mono(weights@, i + 1, weights@.len() as int);
        }
        acc = acc + weights[i];
        r.push(acc);
        i += 1;
    }
    r
}

/// The column that a draw `r` below the total weight selects: the first whose
/// running weight exceeds `r`.
pub fn pick_column(weights: &Vec<u64>, r: u64) -> (i: usize)
    requires
        prefix_sum(weights@, weights@.len() as int) <= u64::MAX,
        r < prefix_sum(weights@, weights@.len() as int),
    ensures
        i < weights@.len(),
        prefix_sum(weights@, i as int) <= r < prefix_sum(weights@, i + 1),
{
    let running = cumulate(weights);
    let mut i: usize = 0;
    while i < running.len()
        invariant
            running@.len() == weights@.len(),
            forall|j: int| 0 <= j < running@.len() ==> #[trigger] running@[j] == prefix_sum(weights@, j + 1),
            i <= running@.len(),
            r < prefix_sum(weights@, weights@.len() as int),
            prefix_sum(weights@, i as int) <= r,
        decreases running@.len() - i,
    {
        if r < running[i] {
            return i;
        }
        i += 1;
    }
    i
}

/// The load-balancing generator: a placement count per column, and a random
/// stream from which each pick is drawn in proportion to the columns' weights.
pub struct SpreadBombGenerator {
    rng: StdRng,
    generated: Vec<u64>,
}

impl SpreadBombGenerator {
    /// How many bombs each column has received.
    pub closed spec fn counts(&self) -> Seq<u64> {
        self.generated@
    }

    /// A count for every column.
    pub open spec fn wf(&self) -> bool {
        self.counts().len() == WIDTH
    }

    /// A generator whose stream is fixed by `seed`, with all counts at zero.
    pub fn new(seed: u64) -> (r: Self)
        ensures
            r.wf(),
            r.counts() == Seq::new(WIDTH as nat, |i: int| 0u64),
    {
        let rng = seeded_rng(seed);
        let mut generator = SpreadBombGenerator { rng, generated: Vec::new() };
        generator.reset();
        generator
    }

    /// Sets every column's count back to zero.
    pub fn reset(&mut self)
        ensures
            final(self).wf(),
            final(self).counts() == Seq::new(WIDTH as nat, |i: int| 0u64),
    {
        let mut generated: Vec<u64> = Vec::new();
        let mut i: usize = 0;
        while i < WIDTH
            invariant
                i <= WIDTH,
                generated@ == Seq::new(i as nat, |j: int| 0u64),
            decreases WIDTH - i,
        {
            generated.push(0);
            i += 1;
            assert(generated@ =~= Seq::new(i as nat, |j: int| 0u64));
        }
        self.generated = generated;
    }

    /// The weight of every column: four to the power of its lag behind the
    /// most used column, up to `MAX_GAP`.
    pub fn possibility(&self) -> (r: Vec<u64>)
        requires
            self.wf(),
        ensures
            r@ == weights_of(self.counts()),
            prefix_sum(r@, WIDTH as int) <= 0x8000000000000000,
            forall|i: int| 0 <= i < WIDTH ==> #[trigger] r@[i] >= 1,
    {
        let mut max: u64 = 0;
        let mut i: usize = 0;
        while i < self.generated.len()
            invariant
                i <= self.generated@.len(),
                max == seq_max(self.generated@.subrange(0, i as int)),
            decreases self.generated@.len() - i,
        {
            assert(self.generated@.subrange(0, i + 1).drop_last() =~= self.generated@.subrange(0, i as int));
            if self.generated[i] > max {
                max = self.generated[i];
            }
            i += 1;
        }
        assert(self.generated@.subrange(0, i as int) =~= self.generated@);
        proof {
            lemma_seq_max(self.generated@);
        }
        let mut r: Vec<u64> = Vec::new();
        let mut j: usize = 0;
        while j < self.generated.len()
            invariant
                j <= self.generated@.len(),
                max == seq_max(self.generated@),
                forall|k: int| 0 <= k < self.generated@.len() ==> self.generated@[k] <= #[trigger] seq_max(self.generated@),
                r@ == weights_of(self.generated@).subrange(0, j as int),
            decreases self.generated@.len() - j,
        {
            let gap = max - self.generated[j];
            let lag = if gap < MAX_GAP { gap } else { MAX_GAP };
            let shift = 2 * lag;
            proof {
                lemma_weight_bounds(gap as int);
                lemma2_to64_rest();
                if shift < 60 {
                    lemma_pow2_strictly_increases(shift as nat, 60);
                }
                lemma_u64_shl_is_mul(1, shift);
            }
            let w: u64 = 1u64 << shift;
            r.push(w);
            j += 1;
            assert(r@ =~= weights_of(self.generated@).subrange(0, j as int));
        }
        proof {
            assert(r@ =~= weights_of(self.generated@));
            assert forall|k: int| 0 <= k < WIDTH implies #[trigger] r@[k] >= 1 && r@[k] <= 0x1000000000000000 by {
                lemma_weight_bounds(seq_max(self.generated@) - self.generated@[k]);
            }
            lemma_prefix_sum_bound(r@, WIDTH as int, 0x1000000000000000);
        }
        r
    }

    /// Places one bomb for the draw `r`: the column whose share of the running
    /// weight holds `r` gets it, and its count rises.
    pub fn place_single(&mut self, r: u64) -> (bomb: usize)
        requires
            old(self).wf(),
            r < prefix_sum(weights_of(old(self).counts()), WIDTH as int),
        ensures
            final(self).wf(),
            bomb < WIDTH,
            selects(weights_of(old(self).counts()), r as int, bomb as int),
            bomb == pick_of(weights_of(old(self).counts()), r as int),
            final(self).counts() == old(self).counts().update(bomb as int, bumped(old(self).counts()[bomb as int])),
    {
        let possibility = self.possibility();
        let bomb = pick_column(&possibility, r);
        proof {
            lemma_pick_of(possibility@, r as int, bomb as int);
        }
        let c = self.generated[bomb];
        self.generated.set(bomb, c.saturating_add(1));
        bomb
    }

    /// The weight left for a second pick once the column that the draw `r1`
    /// selects is set aside; never zero.
    pub fn remaining_weight(&self, r1: u64) -> (rest: u64)
        requires
            self.wf(),
            r1 < prefix_sum(weights_of(self.counts()), WIDTH as int),
        ensures
            rest == rest_weight(weights_of(self.counts()), r1 as int),
            rest >= 1,
    {
        let possibility = self.possibility();
        let sum = total(&possibility);
        let left = pick_column(&possibility, r1);
        proof {
            lemma_pick_of(possibility@, r1 as int, left as int);
            lemma_prefix_sum_update(possibility@, left as int, WIDTH as int);
            lemma_prefix_sum_positive_other(possibility@, left as int);
        }
        sum - possibility[left]
    }

    /// Places two bombs for the draws `r1` and `r2`: the first in the column
    /// that `r1` selects from the weights, the second in the column that `r2`
    /// selects once the first column's weight is set to zero; both counts
    /// rise.
    pub fn place_double(&mut self, r1: u64, r2: u64) -> (bombs: (usize, usize))
        requires
            old(self).wf(),
            r1 < prefix_sum(weights_of(old(self).counts()), WIDTH as int),
            r2 < rest_weight(weights_of(old(self).counts()), r1 as int),
        ensures
            final(self).wf(),
            bombs.0 < WIDTH,
            bombs.1 < WIDTH,
            bombs.0 != bombs.1,
            (bombs.0 as int, bombs.1 as int) == pick_pair(weights_of(old(self).counts()), r1 as int, r2 as int),
            selects(weights_of(old(self).counts()), r1 as int, bombs.0 as int),
            selects(weights_of(old(self).counts()).update(bombs.0 as int, 0), r2 as int, bombs.1 as int),
            final(self).counts() == old(self).counts().update(
                bombs.0 as int,
                bumped(old(self).counts()[bombs.0 as int]),
            ).update(bombs.1 as int, bumped(old(self).counts()[bombs.1 as int])),
    {
        let mut possibility = self.possibility();
        let left = pick_column(&possibility, r1);
        let ghost full = possibility@;
        proof {
            lemma_pick_of(full, r1 as int, left as int);
            lemma_prefix_sum_update(full, left as int, WIDTH as int);
        }
        possibility.set(left, 0);
        assert(possibility@ == full.update(left as int, 0));
        let right = pick_column(&possibility, r2);
        proof {
            lemma_pick_of(possibility@, r2 as int, right as int);
            if right == left {
                assert(prefix_sum(possibility@, left + 1) == prefix_sum(possibility@, left as int) + 0);
            }
        }
        let cl = self.generated[left];
        self.generated.set(left, cl.saturating_add(1));
        let cr = self.generated[right];
        self.generated.set(right, cr.saturating_add(1));
        (left, right)
    }

    /// Places one bomb: a draw below the total weight, placed by
    /// `place_single`.
    pub fn next_single(&mut self) -> (bomb: usize)
        requires
            old(self).wf(),
        ensures
            final(self).wf(),
            bomb < WIDTH,
            exists|r: int|
                0 <= r < prefix_sum(weights_of(old(self).counts()), WIDTH as int) && bomb == #[trigger] pick_of(
                    weights_of(old(self).counts()),
                    r,
                ),
            final(self).counts() == old(self).counts().update(
                bomb as int,
                bumped(old(self).counts()[bomb as int]),
            ),
    {
        let possibility = self.possibility();
        let sum = total(&possibility);
        proof {
            lemma_prefix_sum_split(possibility@, 0, 1);
        }
        let r = gen_below(&mut self.rng, sum);
        self.place_single(r)
    }

    /// Places two bombs in distinct columns: a draw below the total weight,
    /// a second below the weight left, placed by `place_double`.
    pub fn next_double(&mut self) -> (bombs: (usize, usize))
        requires
            old(self).wf(),
        ensures
            final(self).wf(),
            bombs.0 < WIDTH,
            bombs.1 < WIDTH,
            bombs.0 != bombs.1,
            exists|r1: int, r2: int|
                0 <= r1 < prefix_sum(weights_of(old(self).counts()), WIDTH as int) && 0 <= r2 < rest_weight(
                    weights_of(old(self).counts()),
                    r1,
                ) && (bombs.0 as int, bombs.1 as int) == #[trigger] pick_pair(weights_of(old(self).counts()), r1, r2),
            final(self).counts() == old(self).counts().update(
                bombs.0 as int,
                bumped(old(self).counts()[bombs.0 as int]),
            ).update(bombs.1 as int, bumped(old(self).counts()[bombs.1 as int])),
    {
        let possibility = self.possibility();
        let sum = total(&possibility);
        proof {
            lemma_prefix_sum_split(possibility@, 0, 1);
        }
        let r1 = gen_below(&mut self.rng, sum);
        let rest = self.remaining_weight(r1);
        let r2 = gen_below(&mut self.rng, rest);
        self.place_double(r1, r2)
    }
}

/// The column that a draw `r` selects from the weights `w`.
pub open spec fn pick_of(w: Seq<u64>, r: int) -> int {
    choose|i: int| 0 <= i < w.len() && selects(w, r, i)
}

/// The columns that the draws `r1` and `r2` select: the first from `w`, the
/// second from `w` with the first column's weight set to zero.
pub open spec fn pick_pair(w: Seq<u64>, r1: int, r2: int) -> (int, int) {
    let a = pick_of(w, r1);
    (a, pick_of(w.update(a, 0), r2))
}

/// The total weight left once the column that `r` selects is set aside.
pub open spec fn rest_weight(w: Seq<u64>, r: int) -> int {
    prefix_sum(w.update(pick_of(w, r), 0), w.len() as int)
}

/// A draw selects one column only, so `pick_of` names the column it selects.
pub proof fn lemma_pick_of(w: Seq<u64>, r: int, i: int)
    requires
        0 <= i < w.len(),
        selects(w, r, i),
    ensures
        pick_of(w, r) == i,
{
    let j = pick_of(w, r);
    assert(0 <= j < w.len() && selects(w, r, j));
    if j < i {
        lemma_prefix_sum_mono(w, j + 1, i);
    } else if i < j {
        lemma_prefix_sum_mono(w, i + 1, j);
    }
}

/// A column used no more often than another weighs at least as much, and
/// every weight is positive: the sampler leans toward lagging columns.
pub proof fn lemma_weights_favour_lagging(counts: Seq<u64>, i: int, j: int)
    requires
        0 <= i < counts.len(),
        0 <= j < counts.len(),
        counts[i] <= counts[j],
    ensures
        weights_of(counts)[i] >= weights_of(counts)[j] >= 1,
{
    lemma_seq_max(counts);
    let m = seq_max(counts);
    let gi = m - counts[i];
    let gj = m - counts[j];
    lemma_weight_bounds(gi);
    lemma_weight_bounds(gj);
    let ei = (2 * if gi < MAX_GAP { gi } else { MAX_GAP as int }) as nat;
    let ej = (2 * if gj < MAX_GAP { gj } else { MAX_GAP as int }) as nat;
    if ej < ei {
        lemma_pow2_strictly_increases(ej, ei);
    }
}

/// The sum of a column weighting.
fn total(weights: &Vec<u64>) -> (s: u64)
    requires
        prefix_sum(weights@, weights@.len() as int) <= u64::MAX,
    ensures
        s == prefix_sum(weights@, weights@.len() as int),
{
    let mut s: u64 = 0;
    let mut i: usize = 0;
    while i < weights.len()
        invariant
            i <= weights@.len(),
            prefix_sum(weights@, weights@.len() as int) <= u64::MAX,
            s == prefix_sum(weights@, i as int),
        decreases weights@.len() - i,
    {
        proof {
            lemma_prefix_sum_mono(weights@, i + 1, weights@.len() as int);
        }
        s = s + weights[i];
        i += 1;
    }
    s
}

proof fn lemma_prefix_sum_update(w: Seq<u64>, k: int, n: int)
    requires
        0 <= k < n <= w.len(),
    ensures
        prefix_sum(w.update(k, 0), n) == prefix_sum(w, n) - w[k],
        forall|m: int| 0 <= m <= k ==> #[trigger] prefix_sum(w.update(k, 0), m) == prefix_sum(w, m),
    decreases n,
{
    let w2 = w.update(k, 0);
    lemma_prefix_sum_same(w, w2, k);
    if n - 1 > k {
        lemma_prefix_sum_update(w, k, n - 1);
        assert(prefix_sum(w2, n) == prefix_sum(w2, n - 1) + w2[n - 1]);
    } else {
        assert(prefix_sum(w2, n) == prefix_sum(w2, k) + w2[k]);
        assert(prefix_sum(w, n) == prefix_sum(w, k) + w[k]);
    }
}

proof fn lemma_prefix_sum_same(a: Seq<u64>, b: Seq<u64>, k: int)
    requires
        0 <= k <= a.len(),
        k <= b.len(),
        forall|i: int| 0 <= i < k ==> a[i] == b[i],
    ensures
        forall|m: int| 0 <= m <= k ==> #[trigger] prefix_sum(b, m) == prefix_sum(a, m),
    decreases k,
{
    if k > 0 {
        lemma_prefix_sum_same(a, b, k - 1);
        assert(prefix_sum(b, k) == prefix_sum(b, k - 1) + b[k - 1]);
        assert(prefix_sum(a, k) == prefix_sum(a, k - 1) + a[k - 1]);
    }
}

proof fn lemma_prefix_sum_positive_other(w: Seq<u64>, k: int)
    requires
        w.len() == WIDTH,
        0 <= k < WIDTH,
        forall|i: int| 0 <= i < WIDTH ==> #[trigger] w[i] >= 1,
    ensures
        prefix_sum(w, WIDTH as int) - w[k] >= 1,
{
    let o = if k == 0 { 1int } else { 0int };
    lemma_prefix_sum_split(w, k, o);
}

proof fn lemma_prefix_sum_split(w: Seq<u64>, k: int, o: int)
    requires
        w.len() == WIDTH,
        0 <= k < WIDTH,
        0 <= o < WIDTH,
        o != k,
        forall|i: int| 0 <= i < WIDTH ==> #[trigger] w[i] >= 1,
    ensures
        prefix_sum(w, WIDTH as int) >= w[k] + w[o],
{
    lemma_prefix_sum_two(w, k, o, WIDTH as int);
}

proof fn lemma_prefix_sum_two(w: Seq<u64>, k: int, o: int, n: int)
    requires
        0 <= n <= w.len(),
        forall|i: int| 0 <= i < w.len() ==> #[trigger] w[i] >= 0,
    ensures
        prefix_sum(w, n) >= (if 0 <= k < n { w[k] as int } else { 0 }) + (if 0 <= o < n && o != k { w[o] as int } else { 0 }),
    decreases n,
{
    if n > 0 {
        lemma_prefix_sum_two(w, k, o, n - 1);
    }
}

} // verus!
