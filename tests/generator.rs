use bomb_chain::generator::{cumulate, generate_x_pairs, pick_column, BombGenerator, SpreadBombGenerator};
use bomb_chain::WIDTH;
use std::collections::BTreeSet;

#[test]
fn all_pairs_are_listed_once_in_order() {
    let pairs = generate_x_pairs();
    assert_eq!(pairs.len(), WIDTH * (WIDTH - 1) / 2);
    assert_eq!(pairs[0], (0, 1));
    assert_eq!(pairs[1], (0, 2));
    assert_eq!(pairs[27], (6, 7));
    let set: BTreeSet<_> = pairs.iter().cloned().collect();
    assert_eq!(set.len(), 28);
}

#[test]
fn a_cycle_deals_every_pair_exactly_once() {
    for seed in 0..5u64 {
        let mut generator = BombGenerator::new(seed);
        let mut seen = BTreeSet::new();
        for _ in 0..WIDTH * (WIDTH - 1) / 2 {
            let (a, b) = generator.next();
            assert!(a < b && b < WIDTH);
            assert!(seen.insert((a, b)));
        }
        assert_eq!(seen.len(), 28);
        // the next cycle starts again with a full bag
        let mut again = BTreeSet::new();
        for _ in 0..28 {
            assert!(again.insert(generator.next()));
        }
    }
}

#[test]
fn shuffling_reorders_the_pairs() {
    let mut differs = false;
    for seed in 0..5u64 {
        let mut generator = BombGenerator::new(seed);
        let dealt: Vec<_> = (0..28).map(|_| generator.next()).collect();
        let mut listed = generate_x_pairs();
        listed.reverse();
        if dealt != listed {
            differs = true;
        }
    }
    assert!(differs);
}

#[test]
fn same_seed_same_stream() {
    let mut a = BombGenerator::new(42);
    let mut b = BombGenerator::new(42);
    for _ in 0..40 {
        assert_eq!(a.next(), b.next());
    }
}

#[test]
fn running_weights_and_picks() {
    let w = vec![1u64, 4, 16, 1];
    assert_eq!(cumulate(&w), vec![1, 5, 21, 22]);
    assert_eq!(pick_column(&w, 0), 0);
    assert_eq!(pick_column(&w, 1), 1);
    assert_eq!(pick_column(&w, 4), 1);
    assert_eq!(pick_column(&w, 5), 2);
    assert_eq!(pick_column(&w, 20), 2);
    assert_eq!(pick_column(&w, 21), 3);
    assert_eq!(pick_column(&vec![0, 0, 3], 2), 2);
}

#[test]
fn weights_favour_lagging_columns() {
    let mut g = SpreadBombGenerator::new(1);
    assert_eq!(g.possibility(), vec![1; WIDTH]);
    let b = g.next_single();
    let mut expected = vec![4u64; WIDTH];
    expected[b] = 1;
    assert_eq!(g.possibility(), expected);
}

#[test]
fn double_picks_two_distinct_columns() {
    let mut g = SpreadBombGenerator::new(7);
    for _ in 0..200 {
        let (a, b) = g.next_double();
        assert!(a != b);
        assert!(a < WIDTH && b < WIDTH);
    }
    g.reset();
    assert_eq!(g.possibility(), vec![1; WIDTH]);
}

#[test]
fn placements_stay_close_over_many_draws() {
    for seed in 0..5u64 {
        let mut g = SpreadBombGenerator::new(seed);
        let mut counts = [0usize; WIDTH];
        for i in 0..2000 {
            if i % 3 == 0 {
                counts[g.next_single()] += 1;
            } else {
                let (a, b) = g.next_double();
                counts[a] += 1;
                counts[b] += 1;
            }
            let max = counts.iter().max().unwrap();
            let min = counts.iter().min().unwrap();
            assert!(max - min <= 6);
        }
    }
}

#[test]
fn placements_follow_the_running_weights() {
    let mut g = SpreadBombGenerator::new(0);
    // all eight weights are 1: a draw of 5 selects column 5
    assert_eq!(g.place_single(5), 5);
    // column 5 now weighs 1, the others 4: running totals 4, 8, 12, 16, 20, 21, 25, 29
    assert_eq!(g.possibility(), vec![4, 4, 4, 4, 4, 1, 4, 4]);
    assert_eq!(g.place_single(20), 5);
    // column 5 is now two ahead: weights 16 and 1, running totals 16, 32, ...
    assert_eq!(g.possibility(), vec![16, 16, 16, 16, 16, 1, 16, 16]);
    assert_eq!(g.place_single(21), 1);
}

#[test]
fn double_placement_sets_the_first_column_aside() {
    let mut g = SpreadBombGenerator::new(0);
    assert_eq!(g.remaining_weight(0), 7);
    // the first draw selects column 0; with it at zero, a second draw of 0 selects column 1
    assert_eq!(g.place_double(0, 0), (0, 1));
    let mut g = SpreadBombGenerator::new(0);
    assert_eq!(g.place_double(7, 6), (7, 6));
    let mut g = SpreadBombGenerator::new(0);
    assert_eq!(g.place_double(3, 3), (3, 4));
}
