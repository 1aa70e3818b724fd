//! The routing decisions of the simulated network: which node pairs are
//! partitioned from each other, and whether and when a message goes through.

use vstd::prelude::*;

verus! {

/// Calls `rand::Rng::gen_range(low..=high)` on `rand::thread_rng()`: a
/// random value in the inclusive range, which must not be empty (the call
/// panics on an empty range).
#[verifier::external_body]
fn random_latency_ms(low: u64, high: u64) -> (ms: u64)
    requires
        low <= high,
    ensures
        low <= ms <= high,
{
    rand::Rng::gen_range(&mut rand::thread_rng(), low..=high)
}

/// Whether the partition entry `pair` cuts the link between `a` and `b`, in
/// either direction.
pub open spec fn separates(pair: (u64, u64), a: u64, b: u64) -> bool {
    (pair.0 == a && pair.1 == b) || (pair.0 == b && pair.1 == a)
}

/// Whether some entry of `pairs` cuts the link between `from` and `to`.
pub open spec fn blocked(pairs: Seq<(u64, u64)>, from: u64, to: u64) -> bool {
    exists|i: int| 0 <= i < pairs.len() && separates(#[trigger] pairs[i], from, to)
}

/// The predicate "does not cut the link between `a` and `b`".
pub open spec fn keeps_link(a: u64, b: u64) -> spec_fn((u64, u64)) -> bool {
    |pair: (u64, u64)| !separates(pair, a, b)
}

/// Filtering twice is filtering once by both predicates.
pub proof fn lemma_filter_twice<A>(s: Seq<A>, p: spec_fn(A) -> bool, q: spec_fn(A) -> bool)
    ensures
        s.filter(p).filter(q) == s.filter(|x: A| p(x) && q(x)),
    decreases s.len(),
{
    reveal_with_fuel(Seq::<_>::filter, 1);
    if s.len() > 0 {
        lemma_filter_twice(s.drop_last(), p, q);
        let both = |x: A| p(x) && q(x);
        if p(s.last()) {
            assert(s.filter(p).drop_last() =~= s.drop_last().filter(p));
        }
        assert(s.filter(p).filter(q) =~= s.filter(both));
    }
}

/// A partition cuts a link in both directions.
pub proof fn law_blocked_symmetric(pairs: Seq<(u64, u64)>, a: u64, b: u64)
    ensures
        blocked(pairs, a, b) == blocked(pairs, b, a),
{
    if blocked(pairs, a, b) {
        let i = choose|i: int| 0 <= i < pairs.len() && separates(#[trigger] pairs[i], a, b);
        assert(separates(pairs[i], b, a));
    }
    if blocked(pairs, b, a) {
        let i = choose|i: int| 0 <= i < pairs.len() && separates(#[trigger] pairs[i], b, a);
        assert(separates(pairs[i], a, b));
    }
}

/// Adding a partition between `a` and `b` cuts that link both ways and
/// leaves every other link as it was.
pub proof fn law_add_partition_blocks(pairs: Seq<(u64, u64)>, a: u64, b: u64, c: u64, d: u64)
    ensures
        blocked(pairs.push((a, b)), a, b),
        blocked(pairs.push((a, b)), b, a),
        blocked(pairs.push((a, b)), c, d) == (blocked(pairs, c, d) || separates((a, b), c, d)),
{
    let next = pairs.push((a, b));
    assert(separates(next[pairs.len() as int], a, b));
    assert(separates(next[pairs.len() as int], b, a));
    if blocked(pairs, c, d) {
        let i = choose|i: int| 0 <= i < pairs.len() && separates(#[trigger] pairs[i], c, d);
        assert(separates(next[i], c, d));
    }
    if separates((a, b), c, d) {
        assert(separates(next[pairs.len() as int], c, d));
    }
    if blocked(next, c, d) {
        let i = choose|i: int| 0 <= i < next.len() && separates(#[trigger] next[i], c, d);
        if i < pairs.len() {
            assert(separates(pairs[i], c, d));
        }
    }
}

/// Removing the partition between `a` and `b` reopens that link both ways
/// and leaves every other link as it was.
pub proof fn law_remove_partition_unblocks(
    pairs: Seq<(u64, u64)>,
    a: u64,
    b: u64,
    c: u64,
    d: u64,
)
    ensures
        !blocked(pairs.filter(keeps_link(a, b)), a, b),
        !blocked(pairs.filter(keeps_link(a, b)), b, a),
        !separates((a, b), c, d) ==> blocked(pairs.filter(keeps_link(a, b)), c, d) == blocked(
            pairs,
            c,
            d,
        ),
{
    broadcast use vstd::seq_lib::group_filter_ensures;

    let next = pairs.filter(keeps_link(a, b));
    if blocked(next, a, b) {
        let i = choose|i: int| 0 <= i < next.len() && separates(#[trigger] next[i], a, b);
        assert(keeps_link(a, b)(next[i]));
    }
    if blocked(next, b, a) {
        let i = choose|i: int| 0 <= i < next.len() && separates(#[trigger] next[i], b, a);
        assert(keeps_link(a, b)(next[i]));
    }
    if !separates((a, b), c, d) {
        if blocked(next, c, d) {
            let i = choose|i: int| 0 <= i < next.len() && separates(#[trigger] next[i], c, d);
            assert(next.contains(next[i]));
            pairs.lemma_filter_contains_rev(keeps_link(a, b), next[i]);
            let j = choose|j: int| 0 <= j < pairs.len() && pairs[j] == next[i];
            assert(separates(pairs[j], c, d));
        }
        if blocked(pairs, c, d) {
            let i = choose|i: int| 0 <= i < pairs.len() && separates(#[trigger] pairs[i], c, d);
            assert(keeps_link(a, b)(pairs[i]));
            assert(next.contains(pairs[i]));
            let j = choose|j: int| 0 <= j < next.len() && next[j] == pairs[i];
            assert(separates(next[j], c, d));
        }
    }
}

/// The partitions in force: each entry cuts the link between its two nodes
/// in both directions. Entries may repeat.
pub struct PartitionTable {
    pairs: Vec<(u64, u64)>,
}

impl PartitionTable {
    /// The entries, in the order they were added.
    pub closed spec fn pairs(&self) -> Seq<(u64, u64)> {
        self.pairs@
    }

    /// A table without partitions.
    pub fn new() -> (t: Self)
        ensures
            t.pairs() == Seq::<(u64, u64)>::empty(),
    {
        PartitionTable { pairs: Vec::new() }
    }

    /// Cuts the link between `a` and `b`.
    pub fn add_partition(&mut self, a: u64, b: u64)
        ensures
            final(self).pairs() == old(self).pairs().push((a, b)),
    {
        self.pairs.push((a, b));
    }

    /// Removes every entry that cuts the link between `a` and `b`, in either
    /// order; the others stay, in order.
    pub fn remove_partition(&mut self, a: u64, b: u64)
        ensures
            final(self).pairs() == old(self).pairs().filter(keeps_link(a, b)),
    {
        let mut kept: Vec<(u64, u64)> = Vec::new();
        let mut i: usize = 0;
        while i < self.pairs.len()
            invariant
                i <= self.pairs@.len(),
                kept@ == self.pairs@.take(i as int).filter(keeps_link(a, b)),
            decreases self.pairs.len() - i,
        {
            proof {
                reveal_with_fuel(Seq::<_>::filter, 1);
                assert(self.pairs@.take(i + 1).drop_last() =~= self.pairs@.take(i as int));
            }
            let (x, y) = self.pairs[i];
            if !((x == a && y == b) || (x == b && y == a)) {
                kept.push((x, y));
            }
            i = i + 1;
        }
        proof {
            assert(self.pairs@.take(self.pairs@.len() as int) =~= self.pairs@);
        }
        self.pairs = kept;
    }

    /// Whether a message from `from` to `to` is cut off.
    pub fn blocks(&self, from: u64, to: u64) -> (r: bool)
        ensures
            r == blocked(self.pairs(), from, to),
    {
        let mut i: usize = 0;
        while i < self.pairs.len()
            invariant
                i <= self.pairs@.len(),
                forall|k: int| 0 <= k < i ==> !separates(#[trigger] self.pairs@[k], from, to),
            decreases self.pairs.len() - i,
        {
            let (x, y) = self.pairs[i];
            if (x == from && y == to) || (x == to && y == from) {
                proof {
                    assert(separates(self.pairs@[i as int], from, to));
                }
                return true;
            }
            i = i + 1;
        }
        false
    }

    /// The range a message's latency is drawn from: `None` when the message
    /// is dropped because the link is cut or the message was `lost`, else
    /// `latency_min_ms ..= latency_max_ms`.
    pub fn latency_range(
        &self,
        from: u64,
        to: u64,
        lost: bool,
        latency_min_ms: u64,
        latency_max_ms: u64,
    ) -> (r: Option<(u64, u64)>)
        ensures
            r == if blocked(self.pairs(), from, to) || lost {
                None
            } else {
                Some((latency_min_ms, latency_max_ms))
            },
    {
        if self.blocks(from, to) {
            return None;
        }
        if lost {
            return None;
        }
        Some((latency_min_ms, latency_max_ms))
    }

    /// Decides the fate of a message from `from` to `to`: dropped (`None`)
    /// when the link is cut or when the message was `lost`, else delivered
    /// after a latency drawn at random from the range `latency_range` gives.
    pub fn plan_delivery(
        &self,
        from: u64,
        to: u64,
        lost: bool,
        latency_min_ms: u64,
        latency_max_ms: u64,
    ) -> (r: Option<u64>)
        requires
            !blocked(self.pairs(), from, to) && !lost ==> latency_min_ms <= latency_max_ms,
        ensures
            r is None <==> (blocked(self.pairs(), from, to) || lost),
            r matches Some(ms) ==> latency_min_ms <= ms <= latency_max_ms,
    {
        match self.latency_range(from, to, lost, latency_min_ms, latency_max_ms) {
            Some((low, high)) => Some(random_latency_ms(low, high)),
            None => None,
        }
    }
}

} // verus!
