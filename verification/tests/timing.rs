use std::cell::Cell;

use cache_latency::order::{upper_median_of, sort_values};
use cache_latency::pointer_chasing::{chase, elapsed_ticks, link_ring, measure_samples};
use cache_latency::timed_run::TimedRun;
use cache_latency::util::{
    measure_tsc_overhead, overhead_sample_count, tick_delta, tsc_overhead_from_readings, TscSource,
    MIN_OVERHEAD_SAMPLES, OVERHEAD_WARMUP_READINGS,
};

/// A counter that advances 1000 ticks per pair of readings; the end reading of the
/// pair numbered `p` lies `deltas[p % deltas.len()]` ticks after its start reading.
struct ScriptedClock {
    deltas: Vec<u64>,
    pairs: Cell<u64>,
}

impl ScriptedClock {
    fn new(deltas: Vec<u64>) -> Self {
        ScriptedClock { deltas, pairs: Cell::new(0) }
    }
}

impl TscSource for ScriptedClock {
    fn tsc_start(&self) -> u64 {
        1_000_000 + self.pairs.get() * 1000
    }

    fn tsc_end(&self) -> u64 {
        let p = self.pairs.get();
        self.pairs.set(p + 1);
        1_000_000 + p * 1000 + self.deltas[(p as usize) % self.deltas.len()]
    }
}

/// A counter whose end reading lies before its start reading.
struct BackwardsClock;

impl TscSource for BackwardsClock {
    fn tsc_start(&self) -> u64 {
        500
    }

    fn tsc_end(&self) -> u64 {
        400
    }
}

#[test]
fn tick_delta_saturates_at_zero() {
    assert_eq!(tick_delta(10, 25), 15);
    assert_eq!(tick_delta(25, 25), 0);
    assert_eq!(tick_delta(25, 10), 0);
}

#[test]
fn elapsed_ticks_subtracts_overhead_only_when_asked() {
    assert_eq!(elapsed_ticks(50, 20, false), 50);
    assert_eq!(elapsed_ticks(50, 20, true), 30);
    assert_eq!(elapsed_ticks(50, 70, true), 0);
}

#[test]
fn sort_values_sorts_ascending() {
    let mut values = vec![5, 1, 4, 1, 3, 9, 0];
    sort_values(&mut values);
    assert_eq!(values, vec![0, 1, 1, 3, 4, 5, 9]);
}

#[test]
fn upper_median_picks_middle_of_sorted() {
    assert_eq!(upper_median_of(vec![5, 1, 4, 2, 3]), 3);
    assert_eq!(upper_median_of(vec![4, 1, 3, 2]), 3);
    assert_eq!(upper_median_of(vec![7]), 7);
    assert_eq!(upper_median_of(vec![9, 2]), 9);
}

#[test]
fn overhead_of_constant_counter_is_its_delta() {
    let mut run = TimedRun::new(ScriptedClock::new(vec![42]), Vec::new());
    assert_eq!(measure_tsc_overhead(10, &mut run).0, 42);
}

#[test]
fn overhead_takes_at_least_five_hundred_samples() {
    assert_eq!(MIN_OVERHEAD_SAMPLES, 500);
    assert_eq!(OVERHEAD_WARMUP_READINGS, 100);
    let mut run = TimedRun::new(ScriptedClock::new(vec![1]), Vec::new());
    let (_, readings) = measure_tsc_overhead(10, &mut run);
    assert_eq!(readings.len(), 500);
    assert_eq!(run.into_parts().0.pairs.get(), 600);
    let mut run = TimedRun::new(ScriptedClock::new(vec![1]), Vec::new());
    let (_, readings) = measure_tsc_overhead(800, &mut run);
    assert_eq!(readings.len(), 800);
    assert_eq!(run.into_parts().0.pairs.get(), 900);
}

#[test]
fn overhead_is_upper_median_of_sampled_deltas() {
    let deltas = vec![5, 9, 1, 30, 2, 2, 7];
    let mut run = TimedRun::new(ScriptedClock::new(deltas.clone()), Vec::new());
    let (overhead, readings) = measure_tsc_overhead(501, &mut run);
    assert_eq!(readings.len(), 501);
    assert_eq!(readings[0], (1_000_000 + 100 * 1000, 1_000_000 + 100 * 1000 + deltas[100 % 7]));
    let mut expected: Vec<u64> = (100..601).map(|p: usize| deltas[p % deltas.len()]).collect();
    expected.sort();
    assert_eq!(overhead, expected[expected.len() / 2]);
}

#[test]
fn overhead_of_backwards_counter_is_zero() {
    let (overhead, readings) = measure_tsc_overhead(0, &mut TimedRun::new(BackwardsClock, Vec::new()));
    assert_eq!(overhead, 0);
    assert!(readings.iter().all(|&pair| pair == (500, 400)));
}

#[test]
fn samples_walk_the_ring_and_count_ticks() {
    let order = vec![4, 1, 3, 0, 2];
    let arena = link_ring(&order);
    let mut run = TimedRun::new(ScriptedClock::new(vec![50, 10]), arena);
    let (reached, samples) = measure_samples(4, 3, 4, 20, true, &mut run);
    let (clock, arena) = run.into_parts();
    assert_eq!(clock.pairs.get(), 4);
    assert_eq!(arena.len(), 5);
    assert_eq!(reached, chase(&arena, 4, 12));
    assert_eq!(samples.len(), 4);
    assert!(samples.iter().all(|s| s.end - s.start == s.raw));
    assert_eq!(samples[0].start, 1_000_000);
    assert_eq!(samples[1].start, 1_001_000);
    let raw: Vec<u64> = samples.iter().map(|s| s.raw).collect();
    let elapsed: Vec<u64> = samples.iter().map(|s| s.elapsed).collect();
    assert_eq!(raw, vec![50, 10, 50, 10]);
    assert_eq!(elapsed, vec![30, 0, 30, 0]);
}

#[test]
fn samples_keep_raw_ticks_without_subtraction() {
    let order = vec![1, 0];
    let arena = link_ring(&order);
    let mut run = TimedRun::new(ScriptedClock::new(vec![77]), arena);
    let (reached, samples) = measure_samples(1, 5, 2, 20, false, &mut run);
    assert_eq!(reached, 1);
    assert!(samples.iter().all(|s| s.raw == 77 && s.elapsed == 77));
}

#[test]
fn overhead_sample_count_is_at_least_five_hundred() {
    assert_eq!(overhead_sample_count(0), 500);
    assert_eq!(overhead_sample_count(499), 500);
    assert_eq!(overhead_sample_count(500), 500);
    assert_eq!(overhead_sample_count(501), 501);
}

#[test]
fn overhead_of_two_equal_halves_is_the_upper_one() {
    let mut readings: Vec<(u64, u64)> = Vec::new();
    for i in 0..500u64 {
        let start = i * 100;
        let delta = if i % 2 == 0 { 10 } else { 20 };
        readings.push((start, start + delta));
    }
    assert_eq!(tsc_overhead_from_readings(&readings), 20);
}

#[test]
fn overhead_from_readings_saturates_backwards_pairs() {
    let readings = vec![(100, 90), (100, 130), (100, 105)];
    // differences 0, 30, 5; sorted 0, 5, 30
    assert_eq!(tsc_overhead_from_readings(&readings), 5);
    assert_eq!(tsc_overhead_from_readings(&vec![(9, 1), (9, 2)]), 0);
}

#[test]
fn fewer_than_five_hundred_iterations_measure_like_five_hundred() {
    let deltas = vec![3, 8, 1, 12];
    let few = measure_tsc_overhead(7, &mut TimedRun::new(ScriptedClock::new(deltas.clone()), Vec::new()));
    let floor = measure_tsc_overhead(500, &mut TimedRun::new(ScriptedClock::new(deltas), Vec::new()));
    assert_eq!(few, floor);
}
