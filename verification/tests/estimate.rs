use studio_core::estimate::{gcd_of, next_sample, spread, SampleStep};

/// The property the whole sampling scheme rests on: within one level, no tile is measured twice
/// while another has not been measured at all.
#[test]
fn every_tile_of_a_level_is_visited_before_any_is_revisited() {
    for count in 1..=64u64 {
        let visited: Vec<u64> = (0..count).map(|round| spread(round as u32, count)).collect();
        let mut sorted = visited.clone();
        sorted.sort_unstable();
        sorted.dedup();
        assert_eq!(sorted.len() as u64, count, "a level of {count} tiles repeats itself: {visited:?}");
        assert!(visited.iter().all(|index| *index < count), "index out of range: {visited:?}");
    }
}

/// The same export must not be estimated differently each time it is opened.
#[test]
fn the_sample_is_the_same_on_every_run() {
    let first: Vec<u64> = (0..20).map(|round| spread(round, 37)).collect();
    let again: Vec<u64> = (0..20).map(|round| spread(round, 37)).collect();
    assert_eq!(first, again);
}

/// The stride is the golden part of the width, as a double computes it, stepped down to coprime.
#[test]
fn the_stride_follows_the_golden_ratio() {
    for count in [1u64, 2, 4, 10, 37, 1000, 1 << 20, (1 << 53) + 1, u64::MAX] {
        let golden = ((count as f64 * 0.618_033_988_749_894_9) as u64).max(1);
        let mut stride = golden;
        while gcd_of(stride, count) != 1 {
            stride -= 1;
        }
        let expected = u64::try_from(3u128 * u128::from(stride) % u128::from(count)).unwrap();
        assert_eq!(spread(3, count), expected, "count {count}");
    }
    assert_eq!(gcd_of(12, 18), 6);
    assert_eq!(gcd_of(7, 0), 7);
}

/// Walks the sampling steps the way the estimate runs them, with the clock held still.
fn walk(counts: &[u64], min: u32, max: u32, spent: bool) -> Vec<(usize, u64)> {
    let counts = counts.to_vec();
    let mut per_level = vec![0u64; counts.len()];
    let (mut round, mut cursor, mut taken) = (0u32, counts.len(), 0u32);
    let mut out = Vec::new();
    loop {
        match next_sample(&counts, &per_level, round, cursor, taken, min, max, spent) {
            SampleStep::Stop => return out,
            SampleStep::Take { round: r, level, index } => {
                out.push((level, index));
                per_level[level] += 1;
                taken += 1;
                round = r;
                cursor = level;
            },
        }
    }
}

#[test]
fn the_deepest_level_goes_first_one_tile_per_level_per_round() {
    let taken = walk(&[1, 2, 3], 0, 100, false);
    let levels: Vec<usize> = taken.iter().map(|(level, _)| *level).collect();
    assert_eq!(levels, [2, 1, 0, 2, 1, 2], "every tile once, deepest first in each round");
    for (level, count) in [(2usize, 3u64), (1, 2)] {
        let mut indices: Vec<u64> = taken.iter().filter(|(l, _)| *l == level).map(|(_, i)| *i).collect();
        indices.sort_unstable();
        assert_eq!(indices, (0..count).collect::<Vec<_>>());
    }
}

#[test]
fn the_cap_stops_sampling_and_the_budget_only_once_every_level_is_measured() {
    assert_eq!(walk(&[10, 10, 10], 0, 4, false).len(), 4, "the cap is unconditional");
    assert_eq!(walk(&[10, 10, 10], 2, 100, true).len(), 3, "a spent budget waits for every level");
    assert_eq!(walk(&[10, 10, 10], 5, 100, true).len(), 5, "and for the floor");
    assert_eq!(walk(&[], 0, 100, true).len(), 0);
}
