//! The pointer ring that the benchmark chases: its nodes, how it is linked
//! from a shuffled order, and how it is walked.
use rand::rngs::ThreadRng;
use rand::seq::SliceRandom;
use crate::timed_run::{TimedEvent, TimedRun};
use crate::util::{compiler_fence_seq_cst, tick_delta, tick_delta_spec, TscSource};
use vstd::prelude::*;

verus! {

/// Size in bytes of one [`PaddedNode`]: one cache line.
pub const NODE_SIZE_BYTES: usize = 64;

/// One node of the pointer ring: the index of its successor, padded so that
/// every node fills a 64-byte cache line.
#[derive(Clone, Copy)]
pub struct PaddedNode {
    pub next_index: usize,
    pub padding: [u64; 7],
}

impl Default for PaddedNode {
    fn default() -> (node: Self)
        ensures
            node.next_index == 0,
            forall|i: int| 0 <= i < 7 ==> node.padding[i] == 0,
    {
        PaddedNode { next_index: 0, padding: [0, 0, 0, 0, 0, 0, 0] }
    }
}

// ---------------------------------------------------------------------------
// Model of the ring
// ---------------------------------------------------------------------------

/// The successor index stored in each node of `arena`.
pub open spec fn successors(arena: Seq<PaddedNode>) -> Seq<usize> {
    Seq::new(arena.len(), |i: int| arena[i].next_index)
}

/// Every successor stored in `next` is an index of `next`.
pub open spec fn links_in_range(next: Seq<usize>) -> bool {
    forall|i: int| 0 <= i < next.len() ==> #[trigger] next[i] < next.len()
}

/// `order` lists each index of `0..order.len()` exactly once.
pub open spec fn is_permutation(order: Seq<usize>) -> bool {
    &&& order.no_duplicates()
    &&& forall|i: int| 0 <= i < order.len() ==> #[trigger] order[i] < order.len()
}

/// `next` links the nodes in the cyclic order `order`: the successor of
/// `order[i]` is `order[i + 1]`, and that of the last one is `order[0]`.
pub open spec fn links_in_order(next: Seq<usize>, order: Seq<usize>) -> bool {
    &&& order.len() > 0
    &&& next.len() == order.len()
    &&& is_permutation(order)
    &&& forall|i: int|
        0 <= i < order.len() ==> next[#[trigger] order[i] as int] == order[(i + 1) % (
        order.len() as int)]
}

/// `next` is a single ring through all of its nodes, entered at `start`.
pub open spec fn is_ring_from(next: Seq<usize>, start: usize) -> bool {
    exists|order: Seq<usize>| #[trigger] links_in_order(next, order) && order[0] == start
}

/// The node reached from `start` after following `steps` successor links.
pub open spec fn walk(next: Seq<usize>, start: int, steps: nat) -> int
    decreases steps,
{
    if steps == 0 {
        start
    } else {
        next[walk(next, start, (steps - 1) as nat)] as int
    }
}

/// The identity order `0, 1, ..., n - 1`.
pub open spec fn identity_order(n: nat) -> Seq<usize> {
    Seq::new(n, |i: int| i as usize)
}

// ---------------------------------------------------------------------------
// Lemmas and laws of the ring
// ---------------------------------------------------------------------------

proof fn lemma_mod_successor(k: int, n: int)
    requires
        n > 0,
        k >= 0,
    ensures
        0 <= k % n < n,
        (k + 1) % n == if k % n == n - 1 {
            0
        } else {
            k % n + 1
        },
{
    vstd::arithmetic::div_mod::lemma_fundamental_div_mod(k, n);
    vstd::arithmetic::div_mod::lemma_mod_bound(k, n);
    let q = k / n;
    let r = k % n;
    if r == n - 1 {
        assert(k + 1 == (q + 1) * n + 0) by (nonlinear_arith)
            requires
                k == n * q + r,
                r == n - 1,
        ;
        vstd::arithmetic::div_mod::lemma_fundamental_div_mod_converse(k + 1, n, q + 1, 0);
    } else {
        assert(k + 1 == q * n + (r + 1)) by (nonlinear_arith)
            requires
                k == n * q + r,
        ;
        vstd::arithmetic::div_mod::lemma_fundamental_div_mod_converse(k + 1, n, q, r + 1);
    }
}

/// Walking `a` steps and then `b` more reaches the node that `a + b` steps reach.
pub proof fn lemma_walk_split(next: Seq<usize>, start: int, a: nat, b: nat)
    ensures
        walk(next, start, a + b) == walk(next, walk(next, start, a), b),
    decreases b,
{
    if b > 0 {
        lemma_walk_split(next, start, a, (b - 1) as nat);
        assert((a + b - 1) as nat == a + (b - 1) as nat);
    }
}

/// In an arena whose links are all in range, a walk from any of its nodes stays in range.
pub proof fn lemma_walk_in_range(next: Seq<usize>, start: int, steps: nat)
    requires
        links_in_range(next),
        0 <= start < next.len(),
    ensures
        0 <= walk(next, start, steps) < next.len(),
    decreases steps,
{
    if steps > 0 {
        lemma_walk_in_range(next, start, (steps - 1) as nat);
    }
}

/// A ring linked in `order` is closed: every stored successor is an index of the ring.
pub proof fn lemma_order_links_in_range(next: Seq<usize>, order: Seq<usize>)
    requires
        links_in_order(next, order),
    ensures
        links_in_range(next),
{
    let n = order.len() as int;
    assert forall|j: int| 0 <= j < next.len() implies #[trigger] next[j] < next.len() by {
        lemma_permutation_covers(order, j);
        let i = choose|i: int| 0 <= i < n && order[i] == j;
        lemma_mod_successor(i, n);
        assert(next[order[i] as int] == order[(i + 1) % n]);
    }
}

/// Every successor stored in a ring is an index of the ring, so it can be walked.
pub proof fn lemma_ring_links_in_range(next: Seq<usize>, start: usize)
    requires
        is_ring_from(next, start),
    ensures
        links_in_range(next),
        start < next.len(),
{
    let order = choose|order: Seq<usize>| #[trigger] links_in_order(next, order) && order[0] == start;
    lemma_order_links_in_range(next, order);
}

/// A permutation of `0..n` holds every index of `0..n`.
pub proof fn lemma_permutation_covers(order: Seq<usize>, j: int)
    requires
        is_permutation(order),
        0 <= j < order.len(),
    ensures
        exists|i: int| 0 <= i < order.len() && order[i] == j,
{
    let n = order.len() as int;
    let values = order.map_values(|x: usize| x as int);
    assert(values.no_duplicates()) by {
        assert forall|a: int, b: int| 0 <= a < values.len() && 0 <= b < values.len() && a != b
            implies values[a] != values[b] by {
            assert(order[a] != order[b]);
        }
    }
    values.unique_seq_to_set();
    let range = vstd::set_lib::set_int_range(0, n);
    vstd::set_lib::lemma_int_range(0, n);
    assert(values.to_set().subset_of(range)) by {
        assert forall|x: int| values.to_set().contains(x) implies range.contains(x) by {
            let i = choose|i: int| 0 <= i < values.len() && values[i] == x;
            assert(order[i] < n);
        }
    }
    vstd::set_lib::lemma_subset_equality(values.to_set(), range);
    assert(range.contains(j));
    assert(values.to_set().contains(j));
    let i = choose|i: int| 0 <= i < values.len() && values[i] == j;
    assert(order[i] == j);
}

/// Walking a ring linked in `order` from `order[0]` for `k` steps reaches `order[k % n]`.
pub proof fn lemma_ring_walk(next: Seq<usize>, order: Seq<usize>, k: nat)
    requires
        links_in_order(next, order),
    ensures
        walk(next, order[0] as int, k) == order[(k as int) % (order.len() as int)],
    decreases k,
{
    let n = order.len() as int;
    if k == 0 {
        assert(0int % n == 0);
    } else {
        let p = (k - 1) as nat;
        lemma_ring_walk(next, order, p);
        lemma_mod_successor(p as int, n);
        let i = p as int % n;
        lemma_mod_successor(i, n);
        vstd::arithmetic::div_mod::lemma_small_mod(i as nat, n as nat);
        assert(next[order[i] as int] == order[(i + 1) % n]);
    }
}

/// Law: a ring entered at `start` visits every node within one lap of `n` steps.
pub proof fn lemma_ring_visits_every_node(next: Seq<usize>, start: usize, node: int)
    requires
        is_ring_from(next, start),
        0 <= node < next.len(),
    ensures
        exists|k: nat| k < next.len() && walk(next, start as int, k) == node,
{
    let order = choose|order: Seq<usize>| #[trigger] links_in_order(next, order) && order[0] == start;
    lemma_permutation_covers(order, node);
    let i = choose|i: int| 0 <= i < order.len() && order[i] == node;
    lemma_ring_walk(next, order, i as nat);
    assert(i % (order.len() as int) == i) by {
        vstd::arithmetic::div_mod::lemma_small_mod(i as nat, order.len());
    }
    assert(walk(next, start as int, i as nat) == node);
}

/// Law: within one lap no node is visited twice, and after exactly `n` steps the walk
/// is back at `start`.
pub proof fn lemma_ring_lap(next: Seq<usize>, start: usize, a: nat, b: nat)
    requires
        is_ring_from(next, start),
        a < b < next.len(),
    ensures
        walk(next, start as int, a) != walk(next, start as int, b),
        walk(next, start as int, next.len()) == start,
{
    let order = choose|order: Seq<usize>| #[trigger] links_in_order(next, order) && order[0] == start;
    let n = order.len();
    lemma_ring_walk(next, order, a);
    lemma_ring_walk(next, order, b);
    lemma_ring_walk(next, order, n);
    vstd::arithmetic::div_mod::lemma_small_mod(a, n);
    vstd::arithmetic::div_mod::lemma_small_mod(b, n);
    vstd::arithmetic::div_mod::lemma_mod_self_0(n as int);
}

/// Law: walking a whole number of laps around a ring ends where it started.
pub proof fn lemma_full_laps_return(next: Seq<usize>, start: usize, laps: nat)
    requires
        is_ring_from(next, start),
    ensures
        walk(next, start as int, laps * next.len()) == start,
    decreases laps,
{
    if laps == 0 {
        assert(laps * next.len() == 0);
    } else {
        let n = next.len();
        let order = choose|order: Seq<usize>| #[trigger] links_in_order(next, order) && order[0] == start;
        lemma_full_laps_return(next, start, (laps - 1) as nat);
        assert(laps * n == (laps - 1) as nat * n + n) by (nonlinear_arith)
            requires
                laps > 0,
        ;
        lemma_walk_split(next, start as int, (laps - 1) as nat * n, n);
        lemma_ring_walk(next, order, n);
        vstd::arithmetic::div_mod::lemma_mod_self_0(n as int);
    }
}

/// A shuffle of the identity order is a permutation.
pub proof fn lemma_shuffle_is_permutation(shuffled: Seq<usize>, n: nat)
    requires
        n <= usize::MAX,
        shuffled.to_multiset() == identity_order(n).to_multiset(),
    ensures
        shuffled.len() == n,
        is_permutation(shuffled),
{
    let id = identity_order(n);
    broadcast use vstd::seq_lib::group_to_multiset_ensures;

    assert(id.no_duplicates()) by {
        assert forall|a: int, b: int| 0 <= a < id.len() && 0 <= b < id.len() && a != b
            implies id[a] != id[b] by {
            assert(id[a] == a as usize && id[b] == b as usize);
        }
    }
    id.lemma_multiset_has_no_duplicates();
    assert(shuffled.len() == shuffled.to_multiset().len());
    assert(id.len() == id.to_multiset().len());
    shuffled.lemma_multiset_has_no_duplicates_conv();
    assert forall|i: int| 0 <= i < shuffled.len() implies #[trigger] shuffled[i] < shuffled.len() by {
        assert(shuffled.contains(shuffled[i]));
        assert(shuffled.to_multiset().count(shuffled[i]) > 0);
        assert(id.contains(shuffled[i]));
        let j = choose|j: int| 0 <= j < id.len() && id[j] == shuffled[i];
    }
}

// ---------------------------------------------------------------------------
// Building the ring
// ---------------------------------------------------------------------------

/// Number of nodes that fit in a buffer of `buffer_size_bytes` bytes.
pub fn node_count(buffer_size_bytes: usize) -> (n: usize)
    ensures
        n == buffer_size_bytes / NODE_SIZE_BYTES,
        n * NODE_SIZE_BYTES <= buffer_size_bytes,
{
    buffer_size_bytes / NODE_SIZE_BYTES
}

/// The number of ring nodes that a buffer of `buffer_size_bytes` bytes holds, or `None`
/// when it holds fewer than two, too few for a ring to chase.
pub fn ring_nodes(buffer_size_bytes: usize) -> (nodes: Option<usize>)
    ensures
        buffer_size_bytes / NODE_SIZE_BYTES >= 2 ==> nodes == Some(
            (buffer_size_bytes / NODE_SIZE_BYTES) as usize,
        ),
        buffer_size_bytes / NODE_SIZE_BYTES < 2 ==> nodes is None,
{
    let num_elements = node_count(buffer_size_bytes);
    if num_elements < 2 {
        None
    } else {
        Some(num_elements)
    }
}

/// Links one node per entry of `order` into a ring that visits them in that order:
/// the successor of `order[i]` is `order[i + 1]`, and the last one leads back to
/// `order[0]`.
pub fn link_ring(order: &Vec<usize>) -> (arena: Vec<PaddedNode>)
    requires
        order.len() > 0,
        is_permutation(order@),
    ensures
        arena.len() == order.len(),
        links_in_order(successors(arena@), order@),
{
    let n = order.len();
    let mut arena: Vec<PaddedNode> = Vec::new();
    for _i in 0..n
        invariant
            arena.len() == _i,
    {
        arena.push(PaddedNode::default());
    }
    let ghost m = n as int;
    for i in 0..n - 1
        invariant
            n == order.len(),
            n > 0,
            m == n,
            arena.len() == n,
            is_permutation(order@),
            forall|j: int| 0 <= j < i ==> arena@[#[trigger] order@[j] as int].next_index == order@[j + 1],
    {
        let curr_idx = order[i];
        let next_idx = order[i + 1];
        let mut node = arena[curr_idx];
        node.next_index = next_idx;
        arena.set(curr_idx, node);
        assert forall|j: int| 0 <= j < i + 1 implies arena@[#[trigger] order@[j] as int].next_index
            == order@[j + 1] by {
            if j < i {
                assert(order@[j] != order@[i as int]);
            }
        }
    }
    let first_idx = order[0];
    let last_idx = order[n - 1];
    let mut last = arena[last_idx];
    last.next_index = first_idx;
    arena.set(last_idx, last);
    proof {
        let next = successors(arena@);
        assert forall|i: int| 0 <= i < m implies next[#[trigger] order@[i] as int] == order@[(i + 1) % m] by {
            if i < m - 1 {
                assert(order@[i] != order@[m - 1]);
                vstd::arithmetic::div_mod::lemma_small_mod((i + 1) as nat, m as nat);
            } else {
                vstd::arithmetic::div_mod::lemma_mod_self_0(m);
            }
        }
    }
    arena
}

/// The thread-local random generator of `rand`, carried through opaquely.
#[verifier::external_type_specification]
#[verifier::external_body]
pub struct ExThreadRng(rand::rngs::ThreadRng);

/// Calls `rand::rng()`, a handle to the thread-local random generator. Nothing is
/// claimed of the handle.
#[verifier::external_body]
fn thread_rng() -> ThreadRng {
    rand::rng()
}

/// Calls `SliceRandom::shuffle` on the indices. The contract claims only that the
/// shuffled vector holds the same items as before, each as often as before; which
/// order comes out depends on the generator and is not stated.
#[verifier::external_body]
fn shuffle_indices(indices: &mut Vec<usize>, rng: &mut ThreadRng)
    ensures
        final(indices)@.to_multiset() == old(indices)@.to_multiset(),
{
    indices.shuffle(rng);
}

/// The indices `0..num_elements` in a random order.
pub fn shuffled_indices(num_elements: usize) -> (order: Vec<usize>)
    ensures
        order.len() == num_elements,
        is_permutation(order@),
        order@.to_multiset() == identity_order(num_elements as nat).to_multiset(),
{
    let mut indices: Vec<usize> = Vec::new();
    for i in 0..num_elements
        invariant
            indices@ == identity_order(i as nat),
    {
        indices.push(i);
        assert(indices@ =~= identity_order((i + 1) as nat));
    }
    let mut rng = thread_rng();
    shuffle_indices(&mut indices, &mut rng);
    proof {
        lemma_shuffle_is_permutation(indices@, num_elements as nat);
    }
    indices
}

/// Links the nodes into a ring that visits them in `order`, entered at `order[0]`.
pub fn ring_from_order(order: &Vec<usize>) -> (ring: (Vec<PaddedNode>, usize))
    requires
        order.len() > 0,
        is_permutation(order@),
    ensures
        ring.0.len() == order.len(),
        links_in_order(successors(ring.0@), order@),
        ring.1 == order@[0],
        is_ring_from(successors(ring.0@), ring.1),
{
    let arena = link_ring(order);
    let first_idx = order[0];
    assert(links_in_order(successors(arena@), order@) && order@[0] == first_idx);
    (arena, first_idx)
}

/// Builds a ring of `num_elements` nodes linked in a random order, and returns it with
/// the node at which the ring is entered: the first node of that order.
pub fn build_pointer_ring(num_elements: usize) -> (ring: (Vec<PaddedNode>, usize))
    requires
        num_elements >= 2,
    ensures
        ring.0.len() == num_elements,
        ring.1 < num_elements,
        is_ring_from(successors(ring.0@), ring.1),
{
    let indices = shuffled_indices(num_elements);
    ring_from_order(&indices)
}

// ---------------------------------------------------------------------------
// Walking the ring
// ---------------------------------------------------------------------------

/// How long the ring is chased before it is measured, in milliseconds.
pub const WARMUP_MILLIS: u128 = 500;

/// Links followed per round of the warm-up, between two looks at the clock.
pub const WARMUP_ROUND_STEPS: usize = 10_000;

/// Whether the warm-up is over after `elapsed_millis` whole milliseconds of chasing.
pub fn warmup_finished(elapsed_millis: u128) -> (done: bool)
    ensures
        done == (elapsed_millis >= WARMUP_MILLIS),
{
    elapsed_millis >= WARMUP_MILLIS
}

/// Number of links followed per unrolled batch of the measuring loop.
pub const BATCH_SIZE: usize = 16;

/// Follows `steps` successor links from `start`.
pub fn chase(arena: &Vec<PaddedNode>, start: usize, steps: usize) -> (node: usize)
    requires
        start < arena.len(),
        links_in_range(successors(arena@)),
    ensures
        node < arena.len(),
        node == walk(successors(arena@), start as int, steps as nat),
{
    let ghost next = successors(arena@);
    let mut current = start;
    for i in 0..steps
        invariant
            next == successors(arena@),
            links_in_range(next),
            current < arena.len(),
            current == walk(next, start as int, i as nat),
    {
        assert(next[current as int] == arena@[current as int].next_index);
        current = arena[current].next_index;
    }
    current
}

/// Follows one batch of [`BATCH_SIZE`] successor links from `start`, as sixteen
/// dependent loads written out one after another.
pub fn chase_batch(arena: &Vec<PaddedNode>, start: usize) -> (node: usize)
    requires
        start < arena.len(),
        links_in_range(successors(arena@)),
    ensures
        node < arena.len(),
        node == walk(successors(arena@), start as int, BATCH_SIZE as nat),
{
    let ghost next = successors(arena@);
    assert(walk(next, start as int, 0) == start as int);
    proof { assert(next[start as int] == arena@[start as int].next_index); }
    let n1 = arena[start].next_index;
    assert(n1 == walk(next, start as int, 1));
    proof { assert(next[n1 as int] == arena@[n1 as int].next_index); }
    let n2 = arena[n1].next_index;
    assert(n2 == walk(next, start as int, 2));
    proof { assert(next[n2 as int] == arena@[n2 as int].next_index); }
    let n3 = arena[n2].next_index;
    assert(n3 == walk(next, start as int, 3));
    proof { assert(next[n3 as int] == arena@[n3 as int].next_index); }
    let n4 = arena[n3].next_index;
    assert(n4 == walk(next, start as int, 4));
    proof { assert(next[n4 as int] == arena@[n4 as int].next_index); }
    let n5 = arena[n4].next_index;
    assert(n5 == walk(next, start as int, 5));
    proof { assert(next[n5 as int] == arena@[n5 as int].next_index); }
    let n6 = arena[n5].next_index;
    assert(n6 == walk(next, start as int, 6));
    proof { assert(next[n6 as int] == arena@[n6 as int].next_index); }
    let n7 = arena[n6].next_index;
    assert(n7 == walk(next, start as int, 7));
    proof { assert(next[n7 as int] == arena@[n7 as int].next_index); }
    let n8 = arena[n7].next_index;
    assert(n8 == walk(next, start as int, 8));
    proof { assert(next[n8 as int] == arena@[n8 as int].next_index); }
    let n9 = arena[n8].next_index;
    assert(n9 == walk(next, start as int, 9));
    proof { assert(next[n9 as int] == arena@[n9 as int].next_index); }
    let n10 = arena[n9].next_index;
    assert(n10 == walk(next, start as int, 10));
    proof { assert(next[n10 as int] == arena@[n10 as int].next_index); }
    let n11 = arena[n10].next_index;
    assert(n11 == walk(next, start as int, 11));
    proof { assert(next[n11 as int] == arena@[n11 as int].next_index); }
    let n12 = arena[n11].next_index;
    assert(n12 == walk(next, start as int, 12));
    proof { assert(next[n12 as int] == arena@[n12 as int].next_index); }
    let n13 = arena[n12].next_index;
    assert(n13 == walk(next, start as int, 13));
    proof { assert(next[n13 as int] == arena@[n13 as int].next_index); }
    let n14 = arena[n13].next_index;
    assert(n14 == walk(next, start as int, 14));
    proof { assert(next[n14 as int] == arena@[n14 as int].next_index); }
    let n15 = arena[n14].next_index;
    assert(n15 == walk(next, start as int, 15));
    proof { assert(next[n15 as int] == arena@[n15 as int].next_index); }
    let n16 = arena[n15].next_index;
    assert(n16 == walk(next, start as int, 16));
    n16
}

/// Follows `num_iterations` successor links from `start`, as whole batches of
/// [`BATCH_SIZE`] links followed by the remaining single links.
pub fn chase_iterations(arena: &Vec<PaddedNode>, start: usize, num_iterations: usize) -> (node:
    usize)
    requires
        start < arena.len(),
        links_in_range(successors(arena@)),
    ensures
        node < arena.len(),
        node == walk(successors(arena@), start as int, num_iterations as nat),
{
    let ghost next = successors(arena@);
    let loop_count = num_iterations / BATCH_SIZE;
    let remainder = num_iterations % BATCH_SIZE;
    let mut current = start;
    for i in 0..loop_count
        invariant
            next == successors(arena@),
            links_in_range(next),
            current < arena.len(),
            current == walk(next, start as int, (i * BATCH_SIZE) as nat),
            loop_count * BATCH_SIZE <= num_iterations,
    {
        proof {
            lemma_walk_split(next, start as int, (i * BATCH_SIZE) as nat, BATCH_SIZE as nat);
        }
        current = chase_batch(arena, current);
    }
    let ghost done = (loop_count * BATCH_SIZE) as nat;
    let tail = chase(arena, current, remainder);
    proof {
        lemma_walk_split(next, start as int, done, remainder as nat);
        assert(done + remainder == num_iterations);
    }
    tail
}

// ---------------------------------------------------------------------------
// Timing the walk
// ---------------------------------------------------------------------------

/// The ticks of one timed sample: the two readings around the walk, their difference,
/// and the ticks that count.
#[derive(Clone, Copy)]
pub struct SampleTicks {
    /// The counter read just before the walk.
    pub start: u64,
    /// The counter read just after the walk.
    pub end: u64,
    /// Ticks between the start and the end reading (zero if the end is not past the start).
    pub raw: u64,
    /// The ticks that count for the sample: `raw`, less the counter overhead when it is
    /// subtracted (never below zero).
    pub elapsed: u64,
}

/// The ticks that count for a sample of `raw` ticks.
pub open spec fn counted_ticks(raw: u64, tsc_overhead: u64, subtract_overhead: bool) -> u64 {
    if subtract_overhead {
        if raw >= tsc_overhead {
            (raw - tsc_overhead) as u64
        } else {
            0
        }
    } else {
        raw
    }
}

/// The ticks that count for a sample of `raw` ticks.
pub fn elapsed_ticks(raw: u64, tsc_overhead: u64, subtract_overhead: bool) -> (ticks: u64)
    ensures
        ticks == counted_ticks(raw, tsc_overhead, subtract_overhead),
        ticks <= raw,
{
    if subtract_overhead {
        raw.saturating_sub(tsc_overhead)
    } else {
        raw
    }
}

/// The node at which sample `k` starts: `k * num_iterations` links along the ring.
pub open spec fn sample_origin(next: Seq<usize>, start: int, k: int, num_iterations: nat) -> int {
    walk(next, start, (k * num_iterations) as nat)
}

/// What a run of timed samples does: for each sample in turn, a start read, a walk of
/// `num_iterations` links from where the previous sample stopped, and an end read, with
/// the values that the reads gave.
pub open spec fn sample_events(
    samples: Seq<SampleTicks>,
    next: Seq<usize>,
    start: int,
    num_iterations: nat,
) -> Seq<TimedEvent>
    decreases samples.len(),
{
    if samples.len() == 0 {
        Seq::empty()
    } else {
        let k = samples.len() - 1;
        sample_events(samples.drop_last(), next, start, num_iterations) + seq![
            TimedEvent::Start(samples.last().start),
            TimedEvent::Walk(sample_origin(next, start, k, num_iterations) as usize, num_iterations as usize),
            TimedEvent::End(samples.last().end),
        ]
    }
}

/// Law: the steps of a run of timed samples come in threes, one three per sample in turn:
/// first the start read that gave the sample's start reading, then the walk of
/// `num_iterations` links from the node `k * num_iterations` links along the ring, then the
/// end read that gave the sample's end reading. The walk lies strictly between the reads.
pub proof fn lemma_sample_events_layout(
    samples: Seq<SampleTicks>,
    next: Seq<usize>,
    start: int,
    num_iterations: nat,
)
    ensures
        sample_events(samples, next, start, num_iterations).len() == 3 * samples.len(),
        forall|k: int|
            #![trigger samples[k]]
            0 <= k < samples.len() ==> sample_events(samples, next, start, num_iterations)[3 * k]
                == TimedEvent::Start(samples[k].start),
        forall|k: int|
            #![trigger sample_origin(next, start, k, num_iterations)]
            0 <= k < samples.len() ==> sample_events(samples, next, start, num_iterations)[3 * k
                + 1] == TimedEvent::Walk(
                sample_origin(next, start, k, num_iterations) as usize,
                num_iterations as usize,
            ),
        forall|k: int|
            #![trigger samples[k]]
            0 <= k < samples.len() ==> sample_events(samples, next, start, num_iterations)[3 * k
                + 2] == TimedEvent::End(samples[k].end),
    decreases samples.len(),
{
    if samples.len() > 0 {
        let prefix = samples.drop_last();
        lemma_sample_events_layout(prefix, next, start, num_iterations);
        let events = sample_events(samples, next, start, num_iterations);
        let before = sample_events(prefix, next, start, num_iterations);
        let last = samples.len() - 1;
        let tail = seq![
            TimedEvent::Start(samples.last().start),
            TimedEvent::Walk(
                sample_origin(next, start, last, num_iterations) as usize,
                num_iterations as usize,
            ),
            TimedEvent::End(samples.last().end),
        ];
        assert(events == before + tail);
        assert forall|k: int|
            #![trigger samples[k]]
            0 <= k < samples.len() implies events[3 * k] == TimedEvent::Start(samples[k].start) by {
            if k < prefix.len() {
                assert(prefix[k] == samples[k]);
                assert(events[3 * k] == before[3 * k]);
            } else {
                assert(events[3 * k] == tail[0]);
            }
        }
        assert forall|k: int|
            #![trigger sample_origin(next, start, k, num_iterations)]
            0 <= k < samples.len() implies events[3 * k + 1] == TimedEvent::Walk(
                sample_origin(next, start, k, num_iterations) as usize,
                num_iterations as usize,
            ) by {
            if k < prefix.len() {
                assert(events[3 * k + 1] == before[3 * k + 1]);
            } else {
                assert(events[3 * k + 1] == tail[1]);
            }
        }
        assert forall|k: int|
            #![trigger samples[k]]
            0 <= k < samples.len() implies events[3 * k + 2] == TimedEvent::End(samples[k].end) by {
            if k < prefix.len() {
                assert(prefix[k] == samples[k]);
                assert(events[3 * k + 2] == before[3 * k + 2]);
            } else {
                assert(events[3 * k + 2] == tail[2]);
            }
        }
    }
}

/// Takes `num_samples` timed samples of the ring that `run` holds, each reading the
/// counter, following `num_iterations` links from where the previous one stopped, and
/// reading the counter again; returns the node reached with the ticks of every sample.
pub fn measure_samples<C: TscSource>(
    start: usize,
    num_iterations: usize,
    num_samples: usize,
    tsc_overhead: u64,
    subtract_overhead: bool,
    run: &mut TimedRun<C>,
) -> (result: (usize, Vec<SampleTicks>))
    requires
        start < old(run).ring().len(),
        links_in_range(successors(old(run).ring())),
    ensures
        final(run).ring() == old(run).ring(),
        result.0 < old(run).ring().len(),
        result.0 == walk(
            successors(old(run).ring()),
            start as int,
            (num_samples * num_iterations) as nat,
        ),
        result.1.len() == num_samples,
        forall|i: int|
            0 <= i < num_samples ==> (#[trigger] result.1@[i]).raw == tick_delta_spec(
                result.1@[i].start,
                result.1@[i].end,
            ) && result.1@[i].elapsed == counted_ticks(
                result.1@[i].raw,
                tsc_overhead,
                subtract_overhead,
            ),
        final(run).history() == old(run).history() + sample_events(
            result.1@,
            successors(old(run).ring()),
            start as int,
            num_iterations as nat,
        ),
        final(run).history().len() == old(run).history().len() + 3 * num_samples,
        forall|i: int|
            0 <= i < old(run).history().len() ==> final(run).history()[i] == old(
                run,
            ).history()[i],
        forall|k: int|
            0 <= k < num_samples ==> final(run).history()[old(run).history().len() + 3 * k]
                == TimedEvent::Start((#[trigger] result.1@[k]).start),
        forall|k: int|
            0 <= k < num_samples ==> final(run).history()[old(run).history().len() + 3 * k + 1]
                == TimedEvent::Walk(
                #[trigger] sample_origin(
                    successors(old(run).ring()),
                    start as int,
                    k,
                    num_iterations as nat,
                ) as usize,
                num_iterations,
            ),
        forall|k: int|
            0 <= k < num_samples ==> final(run).history()[old(run).history().len() + 3 * k + 2]
                == TimedEvent::End((#[trigger] result.1@[k]).end),
{
    let ghost ring = run.ring();
    let ghost next = successors(ring);
    let ghost before = run.history();
    let mut samples: Vec<SampleTicks> = Vec::new();
    let mut current = start;
    assert(0 * num_iterations == 0);
    assert(sample_events(samples@, next, start as int, num_iterations as nat) =~= Seq::<
        TimedEvent,
    >::empty());
    assert(run.history() =~= before + sample_events(samples@, next, start as int, num_iterations as nat));
    for k in 0..num_samples
        invariant
            run.ring() == ring,
            next == successors(ring),
            links_in_range(next),
            current < ring.len(),
            current == walk(next, start as int, (k * num_iterations) as nat),
            samples.len() == k,
            forall|i: int|
                0 <= i < k ==> (#[trigger] samples@[i]).raw == tick_delta_spec(
                    samples@[i].start,
                    samples@[i].end,
                ) && samples@[i].elapsed == counted_ticks(
                    samples@[i].raw,
                    tsc_overhead,
                    subtract_overhead,
                ),
            run.history() == before + sample_events(samples@, next, start as int, num_iterations as nat),
    {
        compiler_fence_seq_cst();
        let tsc_begin = run.read_start();
        let reached = run.chase(current, num_iterations);
        let tsc_finish = run.read_end();
        compiler_fence_seq_cst();
        proof {
            lemma_walk_split(next, start as int, (k * num_iterations) as nat, num_iterations as nat);
            assert((k + 1) * num_iterations == k * num_iterations + num_iterations) by (nonlinear_arith);
        }
        current = reached;
        let raw = tick_delta(tsc_begin, tsc_finish);
        let elapsed = elapsed_ticks(raw, tsc_overhead, subtract_overhead);
        let ghost old_samples = samples@;
        samples.push(SampleTicks { start: tsc_begin, end: tsc_finish, raw, elapsed });
        proof {
            assert(samples@.drop_last() =~= old_samples);
            assert(run.history() =~= before + sample_events(samples@, next, start as int, num_iterations as nat));
        }
    }
    proof {
        lemma_sample_events_layout(samples@, next, start as int, num_iterations as nat);
        let events = sample_events(samples@, next, start as int, num_iterations as nat);
        assert forall|k: int| 0 <= k < num_samples implies run.history()[before.len() + 3 * k]
            == TimedEvent::Start((#[trigger] samples@[k]).start) by {
            assert(run.history()[before.len() + 3 * k] == events[3 * k]);
        }
        assert forall|k: int| 0 <= k < num_samples implies run.history()[before.len() + 3 * k
            + 1] == TimedEvent::Walk(
            #[trigger] sample_origin(next, start as int, k, num_iterations as nat) as usize,
            num_iterations,
        ) by {
            assert(run.history()[before.len() + 3 * k + 1] == events[3 * k + 1]);
        }
        assert forall|k: int| 0 <= k < num_samples implies run.history()[before.len() + 3 * k
            + 2] == TimedEvent::End((#[trigger] samples@[k]).end) by {
            assert(run.history()[before.len() + 3 * k + 2] == events[3 * k + 2]);
        }
    }
    (current, samples)
}

} // verus!
