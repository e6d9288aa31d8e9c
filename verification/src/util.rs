//! Time-stamp counter readings and the overhead of taking them.
use crate::order::{lemma_upper_median, sorted_values, upper_median, upper_median_of};
use crate::timed_run::{TimedEvent, TimedRun};
use vstd::prelude::*;

verus! {

/// A time-stamp counter: one reading taken before the timed code and one after it.
///
/// Nothing is assumed of the values that a counter returns.
pub trait TscSource {
    /// Reads the counter before the timed code.
    fn tsc_start(&self) -> u64;

    /// Reads the counter after the timed code.
    fn tsc_end(&self) -> u64;
}

/// Calls `std::sync::atomic::compiler_fence` with sequentially consistent ordering,
/// so that the compiler moves no memory access across the call. Nothing is claimed
/// of it beyond returning.
#[verifier::external_body]
pub(crate) fn compiler_fence_seq_cst() {
    std::sync::atomic::compiler_fence(std::sync::atomic::Ordering::SeqCst);
}

/// Ticks between two readings, or zero when the end reading is not past the start.
pub open spec fn tick_delta_spec(start: u64, end: u64) -> u64 {
    if end >= start {
        (end - start) as u64
    } else {
        0
    }
}

/// Ticks between two readings, or zero when the end reading is not past the start.
pub fn tick_delta(start: u64, end: u64) -> (ticks: u64)
    ensures
        ticks == tick_delta_spec(start, end),
{
    end.saturating_sub(start)
}

/// Fewest overhead samples taken, whatever is asked for.
pub const MIN_OVERHEAD_SAMPLES: usize = 500;

/// Readings taken and dropped before the overhead is sampled.
pub const OVERHEAD_WARMUP_READINGS: usize = 100;

/// Number of overhead samples taken when `num_iterations` are asked for:
/// `max(num_iterations, 500)`.
pub open spec fn overhead_samples(num_iterations: usize) -> usize {
    if num_iterations < MIN_OVERHEAD_SAMPLES {
        MIN_OVERHEAD_SAMPLES
    } else {
        num_iterations
    }
}

/// Number of overhead samples taken when `num_iterations` are asked for:
/// `max(num_iterations, 500)`.
pub fn overhead_sample_count(num_iterations: usize) -> (count: usize)
    ensures
        count == overhead_samples(num_iterations),
{
    if num_iterations < MIN_OVERHEAD_SAMPLES {
        MIN_OVERHEAD_SAMPLES
    } else {
        num_iterations
    }
}

/// The ticks between the two readings of each `(start, end)` pair.
pub open spec fn reading_deltas(readings: Seq<(u64, u64)>) -> Seq<u64> {
    Seq::new(readings.len(), |i: int| tick_delta_spec(readings[i].0, readings[i].1))
}

/// The counter overhead that pairs of back-to-back readings show: the upper median of
/// their differences (the value at index `len / 2` of the sorted differences).
pub open spec fn tsc_overhead_of(readings: Seq<(u64, u64)>) -> u64 {
    upper_median(reading_deltas(readings))
}

/// The counter overhead that the `(start, end)` pairs of back-to-back readings show.
pub fn tsc_overhead_from_readings(readings: &Vec<(u64, u64)>) -> (overhead: u64)
    requires
        readings.len() > 0,
    ensures
        overhead == tsc_overhead_of(readings@),
{
    let mut deltas: Vec<u64> = Vec::new();
    for i in 0..readings.len()
        invariant
            deltas@ == reading_deltas(readings@).subrange(0, i as int),
    {
        let (start, end) = readings[i];
        deltas.push(tick_delta(start, end));
        assert(deltas@ =~= reading_deltas(readings@).subrange(0, i + 1));
    }
    assert(deltas@ =~= reading_deltas(readings@));
    upper_median_of(deltas)
}

/// The counter reads of `pairs`, in order: each pair's start read, then its end read.
pub open spec fn read_pairs(pairs: Seq<(u64, u64)>) -> Seq<TimedEvent>
    decreases pairs.len(),
{
    if pairs.len() == 0 {
        Seq::empty()
    } else {
        read_pairs(pairs.drop_last()) + seq![
            TimedEvent::Start(pairs.last().0),
            TimedEvent::End(pairs.last().1),
        ]
    }
}

proof fn lemma_read_pairs_push(pairs: Seq<(u64, u64)>, pair: (u64, u64))
    ensures
        read_pairs(pairs.push(pair)) == read_pairs(pairs) + seq![
            TimedEvent::Start(pair.0),
            TimedEvent::End(pair.1),
        ],
{
    assert(pairs.push(pair).drop_last() =~= pairs);
}

/// Measures the ticks that a start reading followed by an end reading costs: reads 100
/// pairs that are dropped, then takes `max(num_iterations, 500)` back-to-back pairs, each
/// a start read followed by an end read, and returns the overhead that they show together
/// with the pairs themselves.
pub fn measure_tsc_overhead<C: TscSource>(num_iterations: usize, run: &mut TimedRun<C>) -> (measured: (
    u64,
    Vec<(u64, u64)>,
))
    ensures
        measured.1.len() == overhead_samples(num_iterations),
        measured.0 == tsc_overhead_of(measured.1@),
        final(run).ring() == old(run).ring(),
        exists|warmup: Seq<(u64, u64)>|
            warmup.len() == OVERHEAD_WARMUP_READINGS && final(run).history() == old(run).history()
                + #[trigger] read_pairs(warmup) + read_pairs(measured.1@),
{
    let count = overhead_sample_count(num_iterations);
    let ghost before = run.history();
    let ghost ring = run.ring();
    let ghost mut warmup: Seq<(u64, u64)> = Seq::empty();
    for i in 0..OVERHEAD_WARMUP_READINGS
        invariant
            warmup.len() == i,
            run.history() == before + read_pairs(warmup),
            run.ring() == ring,
    {
        let start = run.read_start();
        let end = run.read_end();
        proof {
            lemma_read_pairs_push(warmup, (start, end));
            warmup = warmup.push((start, end));
            assert(run.history() =~= before + read_pairs(warmup));
        }
    }
    let mut readings: Vec<(u64, u64)> = Vec::new();
    assert(read_pairs(readings@) =~= Seq::<TimedEvent>::empty());
    assert(run.history() =~= before + read_pairs(warmup) + read_pairs(readings@));
    for i in 0..count
        invariant
            readings.len() == i,
            warmup.len() == OVERHEAD_WARMUP_READINGS,
            run.ring() == ring,
            run.history() == before + read_pairs(warmup) + read_pairs(readings@),
    {
        let start = run.read_start();
        let end = run.read_end();
        proof {
            lemma_read_pairs_push(readings@, (start, end));
        }
        readings.push((start, end));
        assert(run.history() =~= before + read_pairs(warmup) + read_pairs(readings@));
    }
    let overhead = tsc_overhead_from_readings(&readings);
    (overhead, readings)
}

/// Law: asking for fewer than 500 samples takes 500, as asking for 500 does.
pub proof fn lemma_overhead_sample_floor(num_iterations: usize)
    requires
        num_iterations <= MIN_OVERHEAD_SAMPLES,
    ensures
        overhead_samples(num_iterations) == overhead_samples(MIN_OVERHEAD_SAMPLES),
        overhead_samples(num_iterations) == MIN_OVERHEAD_SAMPLES,
{
}

/// Law: the overhead is one of the measured differences; in sorted order the differences
/// up to index `len / 2` are no larger than it and those from there on no smaller.
pub proof fn lemma_overhead_is_a_measured_delta(readings: Seq<(u64, u64)>)
    requires
        readings.len() > 0,
    ensures
        reading_deltas(readings).contains(tsc_overhead_of(readings)),
        forall|i: int|
            0 <= i <= readings.len() / 2 ==> sorted_values(reading_deltas(readings))[i]
                <= tsc_overhead_of(readings),
        forall|i: int|
            readings.len() / 2 <= i < readings.len() ==> tsc_overhead_of(readings)
                <= sorted_values(reading_deltas(readings))[i],
{
    lemma_upper_median(reading_deltas(readings));
}

/// Law: when no pair's end reading is past its start reading, the overhead is zero.
pub proof fn lemma_stalled_counter_has_no_overhead(readings: Seq<(u64, u64)>)
    requires
        readings.len() > 0,
        forall|i: int| 0 <= i < readings.len() ==> #[trigger] readings[i].1 <= readings[i].0,
    ensures
        tsc_overhead_of(readings) == 0,
{
    let deltas = reading_deltas(readings);
    lemma_upper_median(deltas);
    let j = choose|j: int| 0 <= j < deltas.len() && deltas[j] == tsc_overhead_of(readings);
    assert(readings[j].1 <= readings[j].0);
}

} // verus!
