//! Choosing the NUMA node whose memory the benchmark binds to.
use crate::order::{lemma_sorted_values, sort_values, sorted_values};
use vstd::prelude::*;

verus! {

/// The NUMA node to bind memory to, by OS index.
///
/// `node_os_indices` lists the NUMA nodes in topology order; `local_os_index` is the node
/// above the benchmark's core, if one was found (else the first listed node counts as
/// local). With nodes sorted by OS index, the target is the one `offset` places after the
/// local node, wrapping around. With at most one node nothing is bound: `None`.
pub open spec fn numa_target(node_os_indices: Seq<u64>, local_os_index: Option<u64>, offset: nat) -> Option<u64> {
    if node_os_indices.len() <= 1 {
        None
    } else {
        let local = match local_os_index {
            Some(l) => l,
            None => node_os_indices[0],
        };
        let sorted = sorted_values(node_os_indices);
        let pos = sorted.index_of_first(local).unwrap();
        Some(sorted[(pos + offset) % (sorted.len() as int)])
    }
}

/// Chooses the NUMA node to bind memory to: `numa_node_offset` is `0` for the local node,
/// `1` for the next remote node, and so on, counting nodes in order of their OS index.
pub fn numa_bind_target(
    node_os_indices: &Vec<u64>,
    local_os_index: Option<u64>,
    numa_node_offset: usize,
) -> (target: Option<u64>)
    requires
        node_os_indices.len() > 1 && local_os_index is Some ==> node_os_indices@.contains(
            local_os_index->0,
        ),
    ensures
        target == numa_target(node_os_indices@, local_os_index, numa_node_offset as nat),
        node_os_indices.len() <= 1 ==> target is None,
        node_os_indices.len() > 1 ==> target is Some && node_os_indices@.contains(target->0),
        node_os_indices.len() > 1 && numa_node_offset == 0 && local_os_index is Some ==> target
            == local_os_index,
        node_os_indices.len() > 1 && numa_node_offset == 0 && local_os_index is None ==> target
            == Some(node_os_indices@[0]),
{
    let len = node_os_indices.len();
    if len <= 1 {
        return None;
    }
    let local = match local_os_index {
        Some(l) => l,
        None => node_os_indices[0],
    };
    let mut sorted: Vec<u64> = Vec::new();
    for i in 0..len
        invariant
            len == node_os_indices.len(),
            sorted@ == node_os_indices@.subrange(0, i as int),
    {
        sorted.push(node_os_indices[i]);
        assert(sorted@ =~= node_os_indices@.subrange(0, i + 1));
    }
    assert(sorted@ =~= node_os_indices@);
    sort_values(&mut sorted);
    let ghost spec_sorted = sorted_values(node_os_indices@);
    proof {
        lemma_sorted_values(node_os_indices@);
        broadcast use vstd::seq_lib::group_to_multiset_ensures;

        assert(node_os_indices@.contains(local)) by {
            if local_os_index is None {
                assert(node_os_indices@[0] == local);
            }
        }
        assert(spec_sorted.to_multiset().count(local) > 0);
        assert(spec_sorted.contains(local));
        spec_sorted.index_of_first_ensures(local);
    }
    let mut pos: usize = 0;
    while sorted[pos] != local
        invariant
            sorted@ == spec_sorted,
            sorted.len() == len,
            spec_sorted.index_of_first(local) matches Some(first) && pos <= first,
            forall|j: int| 0 <= j < first_of(spec_sorted, local) ==> spec_sorted[j] != local,
            first_of(spec_sorted, local) == spec_sorted.index_of_first(local).unwrap(),
            0 <= first_of(spec_sorted, local) < len,
            spec_sorted[first_of(spec_sorted, local)] == local,
        decreases len - pos,
    {
        pos = pos + 1;
    }
    let shift = numa_node_offset % len;
    // (pos + shift) % len, without overflowing
    let target_pos = if pos < len - shift {
        pos + shift
    } else {
        pos - (len - shift)
    };
    proof {
        vstd::arithmetic::div_mod::lemma_add_mod_noop(pos as int, numa_node_offset as int, len as int);
        vstd::arithmetic::div_mod::lemma_small_mod(pos as nat, len as nat);
        if pos < len - shift {
            vstd::arithmetic::div_mod::lemma_small_mod((pos + shift) as nat, len as nat);
        } else {
            vstd::arithmetic::div_mod::lemma_fundamental_div_mod_converse(
                pos + shift,
                len as int,
                1,
                pos - (len - shift),
            );
        }
        assert(target_pos == (pos + numa_node_offset) % (len as int));
    }
    let target = Some(sorted[target_pos]);
    proof {
        lemma_target_is_listed(node_os_indices@, local_os_index, numa_node_offset as nat);
        match local_os_index {
            Some(l) => lemma_zero_offset_is_local(node_os_indices@, l),
            None => lemma_zero_offset_binds_first_listed(node_os_indices@),
        }
    }
    target
}

/// The first index at which `x` occurs in `s`.
pub open spec fn first_of(s: Seq<u64>, x: u64) -> int {
    s.index_of_first(x).unwrap()
}

/// Law: an offset of `0` binds to the local node itself.
pub proof fn lemma_zero_offset_is_local(node_os_indices: Seq<u64>, local_os_index: u64)
    requires
        node_os_indices.len() > 1,
        node_os_indices.contains(local_os_index),
    ensures
        numa_target(node_os_indices, Some(local_os_index), 0) == Some(local_os_index),
{
    lemma_sorted_values(node_os_indices);
    let sorted = sorted_values(node_os_indices);
    broadcast use vstd::seq_lib::group_to_multiset_ensures;

    assert(sorted.to_multiset().count(local_os_index) > 0);
    sorted.index_of_first_ensures(local_os_index);
    let pos = sorted.index_of_first(local_os_index).unwrap();
    vstd::arithmetic::div_mod::lemma_small_mod(pos as nat, sorted.len());
}

/// Law: when no local node was found, an offset of `0` binds to the first listed node.
pub proof fn lemma_zero_offset_binds_first_listed(node_os_indices: Seq<u64>)
    requires
        node_os_indices.len() > 1,
    ensures
        numa_target(node_os_indices, None, 0) == Some(node_os_indices[0]),
{
    assert(node_os_indices.contains(node_os_indices[0]));
    lemma_zero_offset_is_local(node_os_indices, node_os_indices[0]);
}

/// Law: with two or more nodes a node is always chosen, and it is one of the listed nodes.
pub proof fn lemma_target_is_listed(
    node_os_indices: Seq<u64>,
    local_os_index: Option<u64>,
    offset: nat,
)
    requires
        node_os_indices.len() > 1,
        local_os_index is Some ==> node_os_indices.contains(local_os_index->0),
    ensures
        numa_target(node_os_indices, local_os_index, offset) is Some,
        node_os_indices.contains(numa_target(node_os_indices, local_os_index, offset)->0),
{
    lemma_sorted_values(node_os_indices);
    let sorted = sorted_values(node_os_indices);
    broadcast use vstd::seq_lib::group_to_multiset_ensures;

    let local = match local_os_index {
        Some(l) => l,
        None => node_os_indices[0],
    };
    assert(node_os_indices.contains(local)) by {
        if local_os_index is None {
            assert(node_os_indices[0] == local);
        }
    }
    assert(sorted.to_multiset().count(local) > 0);
    sorted.index_of_first_ensures(local);
    let pos = sorted.index_of_first(local).unwrap();
    let n = sorted.len() as int;
    vstd::arithmetic::div_mod::lemma_mod_bound(pos + offset, n);
    let chosen = sorted[(pos + offset) % n];
    assert(sorted.contains(chosen));
    assert(node_os_indices.to_multiset().count(chosen) > 0);
}

/// Law: when the OS indices are distinct, an offset of `1` binds to a node other than the
/// local one.
pub proof fn lemma_next_offset_is_remote(node_os_indices: Seq<u64>, local_os_index: u64)
    requires
        node_os_indices.len() > 1,
        node_os_indices.no_duplicates(),
        node_os_indices.contains(local_os_index),
    ensures
        numa_target(node_os_indices, Some(local_os_index), 1) != Some(local_os_index),
{
    lemma_sorted_values(node_os_indices);
    let sorted = sorted_values(node_os_indices);
    broadcast use vstd::seq_lib::group_to_multiset_ensures;

    node_os_indices.lemma_multiset_has_no_duplicates();
    assert forall|x: u64| sorted.to_multiset().contains(x) implies sorted.to_multiset().count(x)
        == 1 by {
        assert(node_os_indices.to_multiset().contains(x));
    }
    sorted.lemma_multiset_has_no_duplicates_conv();
    assert(sorted.to_multiset().count(local_os_index) > 0);
    sorted.index_of_first_ensures(local_os_index);
    let pos = sorted.index_of_first(local_os_index).unwrap();
    let n = sorted.len() as int;
    let next = (pos + 1) % n;
    if pos + 1 < n {
        vstd::arithmetic::div_mod::lemma_small_mod((pos + 1) as nat, n as nat);
    } else {
        vstd::arithmetic::div_mod::lemma_mod_self_0(n);
    }
    assert(next != pos);
    assert(sorted[next] != sorted[pos]);
}

/// Law: offsets that differ by the number of nodes bind to the same node.
pub proof fn lemma_offset_wraps_around(
    node_os_indices: Seq<u64>,
    local_os_index: Option<u64>,
    offset: nat,
)
    ensures
        numa_target(node_os_indices, local_os_index, offset + node_os_indices.len())
            == numa_target(node_os_indices, local_os_index, offset),
{
    if node_os_indices.len() > 1 {
        lemma_sorted_values(node_os_indices);
        let sorted = sorted_values(node_os_indices);
        let local = match local_os_index {
            Some(l) => l,
            None => node_os_indices[0],
        };
        let pos = sorted.index_of_first(local).unwrap();
        let n = sorted.len() as int;
        vstd::arithmetic::div_mod::lemma_mod_add_multiples_vanish(pos + offset, n);
        assert(pos + (offset + node_os_indices.len()) == n + (pos + offset));
    }
}

} // verus!
