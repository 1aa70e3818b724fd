//! Membership of the demonstration cluster.

use vstd::prelude::*;

verus! {

/// Number of nodes in the demonstration cluster.
pub const NUM_NODES: usize = 5;

/// The identifiers of the cluster's nodes: `1 ..= NUM_NODES`.
pub open spec fn spec_node_ids() -> Seq<u64> {
    Seq::new(NUM_NODES as nat, |i: int| (i + 1) as u64)
}

/// The predicate "is a node other than `id`".
pub open spec fn other_than(id: u64) -> spec_fn(u64) -> bool {
    |n: u64| n != id
}

/// Every node of the cluster except `id`, in ascending order.
pub open spec fn spec_peers_of(id: u64) -> Seq<u64> {
    spec_node_ids().filter(other_than(id))
}

/// Returns the identifiers `1 ..= NUM_NODES` in ascending order.
pub fn node_ids() -> (ids: Vec<u64>)
    ensures
        ids@ == spec_node_ids(),
{
    let mut ids: Vec<u64> = Vec::new();
    let mut n: u64 = 1;
    while n <= NUM_NODES as u64
        invariant
            1 <= n <= NUM_NODES + 1,
            ids@ == spec_node_ids().take(n - 1),
        decreases NUM_NODES + 1 - n,
    {
        ids.push(n);
        n = n + 1;
    }
    ids
}

/// Returns every node of the cluster except `id`.
pub fn peers_of(id: u64) -> (peers: Vec<u64>)
    ensures
        peers@ == spec_peers_of(id),
{
    let all = node_ids();
    let mut peers: Vec<u64> = Vec::new();
    let mut i: usize = 0;
    while i < all.len()
        invariant
            all@ == spec_node_ids(),
            i <= all.len(),
            peers@ == all@.take(i as int).filter(other_than(id)),
        decreases all.len() - i,
    {
        proof {
            reveal_with_fuel(Seq::<_>::filter, 1);
            assert(all@.take(i + 1).drop_last() =~= all@.take(i as int));
        }
        if all[i] != id {
            peers.push(all[i]);
        }
        i = i + 1;
    }
    proof {
        assert(all@.take(all.len() as int) =~= all@);
    }
    peers
}

/// A node is never its own peer, and every other node of the cluster is.
pub proof fn law_peers_are_the_others(id: u64, n: u64)
    ensures
        !spec_peers_of(id).contains(id),
        spec_node_ids().contains(n) && n != id ==> spec_peers_of(id).contains(n),
        spec_node_ids().contains(n) <==> 1 <= n <= NUM_NODES,
{
    broadcast use vstd::seq_lib::group_filter_ensures;

    if spec_peers_of(id).contains(id) {
        spec_node_ids().lemma_filter_contains_rev(other_than(id), id);
    }
    if spec_node_ids().contains(n) && n != id {
        let i = choose|i: int| 0 <= i < spec_node_ids().len() && spec_node_ids()[i] == n;
        assert(other_than(id)(spec_node_ids()[i]));
    }
    if 1 <= n <= NUM_NODES {
        assert(spec_node_ids()[n - 1] == n);
    }
}

} // verus!
