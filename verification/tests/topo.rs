use cache_latency::topo::numa_bind_target;

#[test]
fn local_node_for_offset_zero() {
    let nodes = vec![3, 1, 2];
    assert_eq!(numa_bind_target(&nodes, Some(1), 0), Some(1));
    assert_eq!(numa_bind_target(&nodes, Some(3), 0), Some(3));
}

#[test]
fn remote_nodes_in_os_index_order() {
    let nodes = vec![3, 1, 2];
    assert_eq!(numa_bind_target(&nodes, Some(1), 1), Some(2));
    assert_eq!(numa_bind_target(&nodes, Some(1), 2), Some(3));
    assert_eq!(numa_bind_target(&nodes, Some(3), 1), Some(1));
}

#[test]
fn offset_wraps_around_node_count() {
    let nodes = vec![3, 1, 2];
    assert_eq!(numa_bind_target(&nodes, Some(2), 3), Some(2));
    assert_eq!(numa_bind_target(&nodes, Some(2), 4), Some(3));
}

#[test]
fn first_listed_node_is_local_when_none_found() {
    let nodes = vec![3, 1, 2];
    assert_eq!(numa_bind_target(&nodes, None, 0), Some(3));
    assert_eq!(numa_bind_target(&nodes, None, 1), Some(1));
}

#[test]
fn nothing_to_bind_on_uma_systems() {
    assert_eq!(numa_bind_target(&vec![], None, 1), None);
    assert_eq!(numa_bind_target(&vec![0], Some(0), 1), None);
}

#[test]
fn huge_offsets_do_not_overflow() {
    let nodes = vec![3, 1, 2];
    // usize::MAX % 3 == 0 on both 32- and 64-bit targets
    assert_eq!(numa_bind_target(&nodes, Some(2), usize::MAX), Some(2));
    assert_eq!(numa_bind_target(&nodes, Some(3), usize::MAX - 1), Some(2));
    assert_eq!(numa_bind_target(&vec![4], Some(4), usize::MAX), None);
    assert_eq!(numa_bind_target(&vec![4], Some(9), 0), None);
}

#[test]
fn next_offset_is_a_remote_node() {
    let nodes = vec![0, 1];
    assert_eq!(numa_bind_target(&nodes, Some(0), 1), Some(1));
    assert_eq!(numa_bind_target(&nodes, Some(1), 1), Some(0));
}
