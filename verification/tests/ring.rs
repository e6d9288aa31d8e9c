use cache_latency::benchmark::iterations_per_sample;
use cache_latency::pointer_chasing::{
    build_pointer_ring, chase, chase_batch, chase_iterations, link_ring, node_count, ring_nodes,
    ring_from_order, shuffled_indices, warmup_finished, PaddedNode, BATCH_SIZE, NODE_SIZE_BYTES,
    WARMUP_MILLIS, WARMUP_ROUND_STEPS,
};

fn successor_list(arena: &[PaddedNode]) -> Vec<usize> {
    arena.iter().map(|node| node.next_index).collect()
}

#[test]
fn padded_node_fills_one_cache_line() {
    assert_eq!(NODE_SIZE_BYTES, 64);
    assert_eq!(std::mem::size_of::<PaddedNode>(), NODE_SIZE_BYTES);
}

#[test]
fn padded_node_default_points_at_node_zero() {
    let node = PaddedNode::default();
    assert_eq!(node.next_index, 0);
}

#[test]
fn node_count_divides_by_node_size() {
    assert_eq!(node_count(8 * 1024), 128);
    assert_eq!(node_count(128), 2);
    assert_eq!(node_count(127), 1);
    assert_eq!(node_count(0), 0);
}

#[test]
fn link_ring_follows_the_given_order() {
    let order = vec![2, 0, 3, 1];
    let arena = link_ring(&order);
    assert_eq!(arena.len(), 4);
    assert_eq!(arena[2].next_index, 0);
    assert_eq!(arena[0].next_index, 3);
    assert_eq!(arena[3].next_index, 1);
    assert_eq!(arena[1].next_index, 2);
}

#[test]
fn link_ring_of_one_node_points_at_itself() {
    let arena = link_ring(&vec![0]);
    assert_eq!(successor_list(&arena), vec![0]);
}

#[test]
fn built_ring_visits_every_node_once_per_lap() {
    let n = 1000;
    let (arena, start) = build_pointer_ring(n);
    assert_eq!(arena.len(), n);
    assert!(start < n);
    let mut seen = vec![false; n];
    let mut current = start;
    for _ in 0..n {
        assert!(!seen[current]);
        seen[current] = true;
        current = arena[current].next_index;
    }
    assert_eq!(current, start);
    assert!(seen.iter().all(|&visited| visited));
}

#[test]
fn built_ring_is_shuffled() {
    let n = 1000;
    let (arena, start) = build_pointer_ring(n);
    let in_index_order = (0..n).all(|i| arena[i].next_index == (i + 1) % n);
    assert!(!(in_index_order && start == 0));
}

#[test]
fn smallest_ring_has_two_nodes() {
    let (arena, start) = build_pointer_ring(2);
    let other = 1 - start;
    assert_eq!(arena[start].next_index, other);
    assert_eq!(arena[other].next_index, start);
}

#[test]
fn chase_returns_to_start_after_one_lap() {
    let (arena, start) = build_pointer_ring(257);
    assert_eq!(chase(&arena, start, 257), start);
    assert_eq!(chase(&arena, start, 3 * 257), start);
    assert_ne!(chase(&arena, start, 100), start);
}

#[test]
fn chase_follows_the_links() {
    let order = vec![4, 1, 3, 0, 2];
    let arena = link_ring(&order);
    assert_eq!(chase(&arena, 4, 0), 4);
    assert_eq!(chase(&arena, 4, 1), 1);
    assert_eq!(chase(&arena, 4, 2), 3);
    assert_eq!(chase(&arena, 4, 7), 3);
    assert_eq!(chase(&arena, 0, 1), 2);
}

#[test]
fn batch_follows_sixteen_links() {
    assert_eq!(BATCH_SIZE, 16);
    let order = vec![4, 1, 3, 0, 2];
    let arena = link_ring(&order);
    // 16 steps around a ring of 5 is one step past three laps.
    assert_eq!(chase_batch(&arena, 4), 1);
}

#[test]
fn unrolled_chase_matches_plain_chase() {
    let (arena, start) = build_pointer_ring(97);
    for steps in [0, 1, 15, 16, 17, 31, 32, 33, 100, 1000, 30_000] {
        assert_eq!(chase_iterations(&arena, start, steps), chase(&arena, start, steps));
    }
}

#[test]
fn iterations_spread_over_samples() {
    assert_eq!(iterations_per_sample(30_000, 1000), 30);
    assert_eq!(iterations_per_sample(10, 3), 3);
    assert_eq!(iterations_per_sample(2, 5), 0);
}

#[test]
fn ring_from_order_is_entered_at_the_first_index() {
    let order = vec![3, 0, 2, 1];
    let (arena, start) = ring_from_order(&order);
    assert_eq!(start, 3);
    assert_eq!(successor_list(&arena), vec![2, 3, 1, 0]);
}

#[test]
fn shuffled_indices_are_a_permutation() {
    let mut order = shuffled_indices(500);
    assert_eq!(order.len(), 500);
    let shuffled = order.clone();
    order.sort();
    assert_eq!(order, (0..500).collect::<Vec<usize>>());
    assert_ne!(shuffled, order);
}

#[test]
fn warmup_lasts_half_a_second() {
    assert_eq!(WARMUP_MILLIS, 500);
    assert_eq!(WARMUP_ROUND_STEPS, 10_000);
    assert!(!warmup_finished(0));
    assert!(!warmup_finished(499));
    assert!(warmup_finished(500));
    assert!(warmup_finished(10_000));
}

#[test]
fn ring_needs_two_nodes() {
    assert_eq!(ring_nodes(8 * 1024), Some(128));
    assert_eq!(ring_nodes(128), Some(2));
    assert_eq!(ring_nodes(191), Some(2));
    assert_eq!(ring_nodes(127), None);
    assert_eq!(ring_nodes(0), None);
}

#[test]
fn batch_matches_sixteen_single_steps() {
    let (arena, start) = build_pointer_ring(41);
    let mut current = start;
    for _ in 0..16 {
        current = arena[current].next_index;
    }
    assert_eq!(chase_batch(&arena, start), current);
}
