use rand::rngs::StdRng;
use rand::{Rng, SeedableRng};
use trn_sdr::random::{rand_sdr, sdr_from_draws, LoggedRng};

fn strictly_ascending(bits: &[u32]) -> bool {
    bits.windows(2).all(|p| p[0] < p[1])
}

#[test]
fn random_code_has_w_distinct_sorted_bits_below_d() {
    let mut rng = LoggedRng::new(StdRng::seed_from_u64(1));
    let c = rand_sdr(4096, 256, &mut rng);
    assert_eq!(c.d, 4096);
    assert_eq!(c.w, 256);
    assert_eq!(c.bits.len(), 256);
    assert!(strictly_ascending(&c.bits));
    assert!(c.bits.iter().all(|&b| b < 4096));
}

#[test]
fn random_code_is_shuffled_not_the_first_positions() {
    let mut rng = LoggedRng::new(StdRng::seed_from_u64(1));
    let c = rand_sdr(4096, 256, &mut rng);
    let first: Vec<u32> = (0..256).collect();
    assert_ne!(c.bits, first);
}

#[test]
fn same_seed_gives_same_code() {
    let mut r1 = LoggedRng::new(StdRng::seed_from_u64(42));
    let mut r2 = LoggedRng::new(StdRng::seed_from_u64(42));
    assert_eq!(rand_sdr(800, 50, &mut r1).bits, rand_sdr(800, 50, &mut r2).bits);
}

#[test]
fn width_above_d_keeps_every_position() {
    let mut rng = LoggedRng::new(StdRng::seed_from_u64(3));
    let c = rand_sdr(10, 20, &mut rng);
    assert_eq!(c.bits, (0..10).collect::<Vec<u32>>());
    assert_eq!(c.w, 20);
    assert_eq!(c.d, 10);
}

#[test]
fn empty_position_space_gives_empty_code() {
    let mut rng = LoggedRng::new(StdRng::seed_from_u64(3));
    let c = rand_sdr(0, 5, &mut rng);
    assert!(c.bits.is_empty());
    let c1 = rand_sdr(1, 1, &mut rng);
    assert_eq!(c1.bits, vec![0]);
}

#[test]
fn draws_select_the_shuffled_prefix() {
    // swaps (3,0), (2,0), (1,0) turn [0,1,2,3] into [1,2,3,0]; the first two sorted are [1,2]
    let c = sdr_from_draws(4, 2, &vec![0, 0, 0]);
    assert_eq!(c.bits, vec![1, 2]);
    assert_eq!(c.w, 2);
    // draws that swap each position with itself keep the order
    let id = sdr_from_draws(4, 2, &vec![3, 2, 1]);
    assert_eq!(id.bits, vec![0, 1]);
    // a single swap of the last position with the first
    let one = sdr_from_draws(4, 3, &vec![0, 2, 1]);
    assert_eq!(one.bits, vec![1, 2, 3]);
}

fn count_selections(d: usize, w: usize) -> std::collections::HashMap<Vec<u32>, usize> {
    // enumerate every valid draw sequence: the k-th draw ranges over 0..=d-1-k
    let n = if d == 0 { 0 } else { d - 1 };
    let mut all: Vec<Vec<u32>> = vec![vec![]];
    for k in 0..n {
        let hi = (d - 1 - k) as u32;
        let mut next = Vec::new();
        for prefix in &all {
            for j in 0..=hi {
                let mut p = prefix.clone();
                p.push(j);
                next.push(p);
            }
        }
        all = next;
    }
    let mut counts = std::collections::HashMap::new();
    for draws in &all {
        *counts.entry(sdr_from_draws(d, w, draws).bits).or_insert(0) += 1;
    }
    counts
}

#[test]
fn every_subset_is_selected_equally_often() {
    // 3 positions, width 1: 3! = 6 draw sequences, each single position by 1! * 2! = 2
    let c31 = count_selections(3, 1);
    assert_eq!(c31.len(), 3);
    assert!(c31.values().all(|&n| n == 2));
    // 4 positions, width 2: 4! = 24 draw sequences, each pair by 2! * 2! = 4
    let c42 = count_selections(4, 2);
    assert_eq!(c42.len(), 6);
    assert!(c42.values().all(|&n| n == 4));
    // 5 positions, width 3: 120 draw sequences, each triple by 3! * 2! = 12
    let c53 = count_selections(5, 3);
    assert_eq!(c53.len(), 10);
    assert!(c53.values().all(|&n| n == 12));
}

#[test]
fn random_code_matches_the_draws_it_made() {
    // replay the same generator by hand: ask for 0..=i for i = d-1 down to 1
    let d = 50usize;
    let w = 7usize;
    let mut replay = StdRng::seed_from_u64(9);
    let draws: Vec<u32> = (1..d as u32).rev().map(|i| replay.gen_range(0u32..=i)).collect();
    let mut g = LoggedRng::new(StdRng::seed_from_u64(9));
    let c = rand_sdr(d, w, &mut g);
    assert_eq!(c.bits, sdr_from_draws(d, w, &draws).bits);
    // the generator goes on from where the draws left it
    let mut rest = g.into_inner();
    assert_eq!(rest.gen_range(0u32..=1000), replay.gen_range(0u32..=1000));
}
