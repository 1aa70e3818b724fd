//! Fault-injection plans over the partition table: isolating one node from
//! its peers, and splitting the cluster into two groups that cannot reach
//! each other. Each fault has a start and an end; the wait in between is the
//! caller's.

use vstd::prelude::*;
use crate::transport::{PartitionTable, blocked, keeps_link, lemma_filter_twice, separates};

verus! {

/// Whether one of the `links` is the link between `c` and `d`.
pub open spec fn cut_by(links: Seq<(u64, u64)>, c: u64, d: u64) -> bool {
    exists|k: int| 0 <= k < links.len() && separates(#[trigger] links[k], c, d)
}

/// The predicate "cuts none of the `links`".
pub open spec fn kept_by_links(links: Seq<(u64, u64)>) -> spec_fn((u64, u64)) -> bool {
    |pair: (u64, u64)| !(exists|k: int| 0 <= k < links.len() && #[trigger] separates(pair, links[k].0, links[k].1))
}

/// The links between `victim` and each of `peers`, in the order of `peers`.
pub open spec fn isolation_links(victim: u64, peers: Seq<u64>) -> Seq<(u64, u64)> {
    peers.map_values(|p: u64| (victim, p))
}

/// The links between every node of `group_a` and every node of `group_b`,
/// ordered by the node of `group_a`, then by that of `group_b`.
pub open spec fn cross_links(group_a: Seq<u64>, group_b: Seq<u64>) -> Seq<(u64, u64)>
    decreases group_a.len(),
{
    if group_a.len() == 0 {
        Seq::empty()
    } else {
        cross_links(group_a.drop_last(), group_b) + isolation_links(group_a.last(), group_b)
    }
}

/// Adds one partition entry per link, in order.
fn add_links(table: &mut PartitionTable, links: &Vec<(u64, u64)>)
    ensures
        final(table).pairs() == old(table).pairs() + links@,
{
    let mut i: usize = 0;
    while i < links.len()
        invariant
            i <= links@.len(),
            table.pairs() == old(table).pairs() + links@.take(i as int),
        decreases links.len() - i,
    {
        let (a, b) = links[i];
        table.add_partition(a, b);
        i = i + 1;
        proof {
            assert(table.pairs() =~= old(table).pairs() + links@.take(i as int));
        }
    }
    proof {
        assert(links@.take(links@.len() as int) =~= links@);
    }
}

/// Removes, link by link, every partition entry that cuts one of the links.
fn remove_links(table: &mut PartitionTable, links: &Vec<(u64, u64)>)
    ensures
        final(table).pairs() == old(table).pairs().filter(kept_by_links(links@)),
{
    let mut i: usize = 0;
    proof {
        assert(kept_by_links(links@.take(0)) =~= (|pair: (u64, u64)| true));
        lemma_filter_all(old(table).pairs(), kept_by_links(links@.take(0)));
    }
    while i < links.len()
        invariant
            i <= links@.len(),
            table.pairs() == old(table).pairs().filter(kept_by_links(links@.take(i as int))),
        decreases links.len() - i,
    {
        let (a, b) = links[i];
        table.remove_partition(a, b);
        proof {
            let p = kept_by_links(links@.take(i as int));
            let q = keeps_link(a, b);
            lemma_filter_twice(old(table).pairs(), p, q);
            let both = |x: (u64, u64)| p(x) && q(x);
            assert forall|x: (u64, u64)| #[trigger] both(x) == kept_by_links(links@.take(i + 1))(x) by {
                let t = links@.take(i + 1);
                if !both(x) {
                    if !p(x) {
                        let k = choose|k: int|
                            0 <= k < i && #[trigger] separates(x, links@.take(i as int)[k].0, links@.take(i as int)[k].1);
                        assert(separates(x, t[k].0, t[k].1));
                    } else {
                        assert(separates(x, t[i as int].0, t[i as int].1));
                    }
                } else {
                    if exists|k: int| 0 <= k < t.len() && #[trigger] separates(x, t[k].0, t[k].1) {
                        let k = choose|k: int| 0 <= k < t.len() && #[trigger] separates(x, t[k].0, t[k].1);
                        if k < i {
                            assert(separates(x, links@.take(i as int)[k].0, links@.take(i as int)[k].1));
                        }
                    }
                }
            }
            assert(both =~= kept_by_links(links@.take(i + 1)));
        }
        i = i + 1;
    }
    proof {
        assert(links@.take(links@.len() as int) =~= links@);
    }
}

/// Filtering by a predicate that holds everywhere changes nothing.
proof fn lemma_filter_all(s: Seq<(u64, u64)>, p: spec_fn((u64, u64)) -> bool)
    requires
        forall|x: (u64, u64)| #[trigger] p(x),
    ensures
        s.filter(p) == s,
    decreases s.len(),
{
    reveal_with_fuel(Seq::<_>::filter, 1);
    if s.len() > 0 {
        lemma_filter_all(s.drop_last(), p);
        assert(s.drop_last().push(s.last()) =~= s);
    }
}

/// Builds the links between `victim` and each of `peers`.
fn isolation_link_list(victim: u64, peers: &[u64]) -> (links: Vec<(u64, u64)>)
    ensures
        links@ == isolation_links(victim, peers@),
{
    let mut links: Vec<(u64, u64)> = Vec::new();
    let mut j: usize = 0;
    while j < peers.len()
        invariant
            j <= peers@.len(),
            links@ == isolation_links(victim, peers@.take(j as int)),
        decreases peers.len() - j,
    {
        links.push((victim, peers[j]));
        j = j + 1;
        proof {
            assert(links@ =~= isolation_links(victim, peers@.take(j as int)));
        }
    }
    proof {
        assert(peers@.take(peers@.len() as int) =~= peers@);
    }
    links
}

/// Builds the links between the nodes of `group_a` and those of `group_b`.
fn cross_link_list(group_a: &[u64], group_b: &[u64]) -> (links: Vec<(u64, u64)>)
    ensures
        links@ == cross_links(group_a@, group_b@),
{
    let mut links: Vec<(u64, u64)> = Vec::new();
    let mut i: usize = 0;
    while i < group_a.len()
        invariant
            i <= group_a@.len(),
            links@ == cross_links(group_a@.take(i as int), group_b@),
        decreases group_a.len() - i,
    {
        let row = isolation_link_list(group_a[i], group_b);
        let mut j: usize = 0;
        let ghost start = links@;
        while j < row.len()
            invariant
                j <= row@.len(),
                links@ == start + row@.take(j as int),
            decreases row.len() - j,
        {
            links.push(row[j]);
            j = j + 1;
            proof {
                assert(links@ =~= start + row@.take(j as int));
            }
        }
        proof {
            assert(row@.take(row@.len() as int) =~= row@);
            assert(group_a@.take(i + 1).drop_last() =~= group_a@.take(i as int));
        }
        i = i + 1;
    }
    proof {
        assert(group_a@.take(group_a@.len() as int) =~= group_a@);
    }
    links
}

/// Starts isolating `victim`: cuts its link to each of `peers`.
pub fn isolation_start(table: &mut PartitionTable, victim: u64, peers: &[u64])
    ensures
        final(table).pairs() == old(table).pairs() + isolation_links(victim, peers@),
{
    let links = isolation_link_list(victim, peers);
    add_links(table, &links);
}

/// Ends the isolation of `victim`: removes every entry that cuts its link to
/// one of `peers`.
pub fn isolation_end(table: &mut PartitionTable, victim: u64, peers: &[u64])
    ensures
        final(table).pairs() == old(table).pairs().filter(
            kept_by_links(isolation_links(victim, peers@)),
        ),
{
    let links = isolation_link_list(victim, peers);
    remove_links(table, &links);
}

/// Starts a split brain: cuts every link between a node of `group_a` and a
/// node of `group_b`.
pub fn split_brain_start(table: &mut PartitionTable, group_a: &[u64], group_b: &[u64])
    ensures
        final(table).pairs() == old(table).pairs() + cross_links(group_a@, group_b@),
{
    let links = cross_link_list(group_a, group_b);
    add_links(table, &links);
}

/// Heals a split brain: removes every entry that cuts a link between a node
/// of `group_a` and a node of `group_b`.
pub fn split_brain_end(table: &mut PartitionTable, group_a: &[u64], group_b: &[u64])
    ensures
        final(table).pairs() == old(table).pairs().filter(
            kept_by_links(cross_links(group_a@, group_b@)),
        ),
{
    let links = cross_link_list(group_a, group_b);
    remove_links(table, &links);
}

/// Appending entries cuts exactly the links the new entries cut, on top of
/// those cut before.
pub proof fn lemma_append_blocked(pairs: Seq<(u64, u64)>, links: Seq<(u64, u64)>, c: u64, d: u64)
    ensures
        blocked(pairs + links, c, d) == (blocked(pairs, c, d) || cut_by(links, c, d)),
{
    let all = pairs + links;
    if blocked(pairs, c, d) {
        let i = choose|i: int| 0 <= i < pairs.len() && separates(#[trigger] pairs[i], c, d);
        assert(separates(all[i], c, d));
    }
    if cut_by(links, c, d) {
        let k = choose|k: int| 0 <= k < links.len() && separates(#[trigger] links[k], c, d);
        assert(separates(all[pairs.len() + k], c, d));
    }
    if blocked(all, c, d) {
        let i = choose|i: int| 0 <= i < all.len() && separates(#[trigger] all[i], c, d);
        if i < pairs.len() {
            assert(separates(pairs[i], c, d));
        } else {
            assert(separates(links[i - pairs.len()], c, d));
        }
    }
}

/// Removing every entry that cuts one of `links` reopens those links and
/// leaves every other link as it was.
pub proof fn lemma_filter_blocked(pairs: Seq<(u64, u64)>, links: Seq<(u64, u64)>, c: u64, d: u64)
    ensures
        blocked(pairs.filter(kept_by_links(links)), c, d) == (blocked(pairs, c, d) && !cut_by(
            links,
            c,
            d,
        )),
{
    broadcast use vstd::seq_lib::group_filter_ensures;

    let p = kept_by_links(links);
    let next = pairs.filter(p);
    if blocked(next, c, d) {
        let i = choose|i: int| 0 <= i < next.len() && separates(#[trigger] next[i], c, d);
        assert(p(next[i]));
        assert(next.contains(next[i]));
        pairs.lemma_filter_contains_rev(p, next[i]);
        let j = choose|j: int| 0 <= j < pairs.len() && pairs[j] == next[i];
        assert(separates(pairs[j], c, d));
        if cut_by(links, c, d) {
            let k = choose|k: int| 0 <= k < links.len() && separates(#[trigger] links[k], c, d);
            assert(separates(next[i], links[k].0, links[k].1));
        }
    }
    if blocked(pairs, c, d) && !cut_by(links, c, d) {
        let i = choose|i: int| 0 <= i < pairs.len() && separates(#[trigger] pairs[i], c, d);
        assert forall|k: int| 0 <= k < links.len() implies !#[trigger] separates(
            pairs[i],
            links[k].0,
            links[k].1,
        ) by {
            if separates(pairs[i], links[k].0, links[k].1) {
                assert(separates(links[k], c, d));
            }
        }
        assert(p(pairs[i]));
        assert(next.contains(pairs[i]));
        let j = choose|j: int| 0 <= j < next.len() && next[j] == pairs[i];
        assert(separates(next[j], c, d));
    }
}

/// The link between a node of `group_a` and a node of `group_b` is among
/// their cross links.
pub proof fn lemma_cross_links_member(group_a: Seq<u64>, group_b: Seq<u64>, i: int, j: int)
    requires
        0 <= i < group_a.len(),
        0 <= j < group_b.len(),
    ensures
        cut_by(cross_links(group_a, group_b), group_a[i], group_b[j]),
    decreases group_a.len(),
{
    let front = cross_links(group_a.drop_last(), group_b);
    let row = isolation_links(group_a.last(), group_b);
    let all = front + row;
    if i == group_a.len() - 1 {
        assert(row[j] == (group_a[i], group_b[j]));
        assert(separates(all[front.len() + j], group_a[i], group_b[j]));
    } else {
        lemma_cross_links_member(group_a.drop_last(), group_b, i, j);
        let k = choose|k: int| 0 <= k < front.len() && separates(#[trigger] front[k], group_a[i], group_b[j]);
        assert(separates(all[k], group_a[i], group_b[j]));
    }
}

/// While `victim` is isolated, its link to every peer is cut both ways.
pub proof fn law_isolation_cuts_victim(pairs: Seq<(u64, u64)>, victim: u64, peers: Seq<u64>, j: int)
    requires
        0 <= j < peers.len(),
    ensures
        blocked(pairs + isolation_links(victim, peers), victim, peers[j]),
        blocked(pairs + isolation_links(victim, peers), peers[j], victim),
{
    let links = isolation_links(victim, peers);
    assert(separates(links[j], victim, peers[j]));
    assert(separates(links[j], peers[j], victim));
    lemma_append_blocked(pairs, links, victim, peers[j]);
    lemma_append_blocked(pairs, links, peers[j], victim);
}

/// After an isolation starts and ends, the victim reaches every peer again,
/// and every link not between the victim and a peer is cut exactly when it
/// was cut before the isolation.
pub proof fn law_isolation_round_trip(
    pairs: Seq<(u64, u64)>,
    victim: u64,
    peers: Seq<u64>,
    c: u64,
    d: u64,
)
    ensures
        ({
            let links = isolation_links(victim, peers);
            let after = (pairs + links).filter(kept_by_links(links));
            &&& cut_by(links, c, d) ==> !blocked(after, c, d)
            &&& !cut_by(links, c, d) ==> blocked(after, c, d) == blocked(pairs, c, d)
        }),
{
    let links = isolation_links(victim, peers);
    lemma_append_blocked(pairs, links, c, d);
    lemma_filter_blocked(pairs + links, links, c, d);
}

/// During a split brain every link between the two groups is cut.
pub proof fn law_split_brain_cuts(
    pairs: Seq<(u64, u64)>,
    group_a: Seq<u64>,
    group_b: Seq<u64>,
    i: int,
    j: int,
)
    requires
        0 <= i < group_a.len(),
        0 <= j < group_b.len(),
    ensures
        blocked(pairs + cross_links(group_a, group_b), group_a[i], group_b[j]),
        blocked(pairs + cross_links(group_a, group_b), group_b[j], group_a[i]),
{
    let links = cross_links(group_a, group_b);
    lemma_cross_links_member(group_a, group_b, i, j);
    let k = choose|k: int| 0 <= k < links.len() && separates(#[trigger] links[k], group_a[i], group_b[j]);
    assert(separates(links[k], group_b[j], group_a[i]));
    lemma_append_blocked(pairs, links, group_a[i], group_b[j]);
    lemma_append_blocked(pairs, links, group_b[j], group_a[i]);
}

/// After a split brain starts and heals, the groups reach each other again,
/// and every other link is cut exactly when it was cut before.
pub proof fn law_split_brain_round_trip(
    pairs: Seq<(u64, u64)>,
    group_a: Seq<u64>,
    group_b: Seq<u64>,
    c: u64,
    d: u64,
)
    ensures
        ({
            let links = cross_links(group_a, group_b);
            let after = (pairs + links).filter(kept_by_links(links));
            &&& cut_by(links, c, d) ==> !blocked(after, c, d)
            &&& !cut_by(links, c, d) ==> blocked(after, c, d) == blocked(pairs, c, d)
        }),
{
    let links = cross_links(group_a, group_b);
    lemma_append_blocked(pairs, links, c, d);
    lemma_filter_blocked(pairs + links, links, c, d);
}

/// Whether `(c, d)` is the link between `victim` and one of `peers`.
pub open spec fn victim_link(victim: u64, peers: Seq<u64>, c: u64, d: u64) -> bool {
    exists|j: int| 0 <= j < peers.len() && separates((victim, #[trigger] peers[j]), c, d)
}

/// Whether `(c, d)` is a link between a node of `group_a` and one of
/// `group_b`.
pub open spec fn between_groups(group_a: Seq<u64>, group_b: Seq<u64>, c: u64, d: u64) -> bool {
    exists|i: int, j: int|
        0 <= i < group_a.len() && 0 <= j < group_b.len() && separates(
            (#[trigger] group_a[i], #[trigger] group_b[j]),
            c,
            d,
        )
}

/// The isolation links cut exactly the links between the victim and its
/// peers.
proof fn lemma_isolation_links_cut(victim: u64, peers: Seq<u64>, c: u64, d: u64)
    ensures
        cut_by(isolation_links(victim, peers), c, d) == victim_link(victim, peers, c, d),
{
    let links = isolation_links(victim, peers);
    if cut_by(links, c, d) {
        let k = choose|k: int| 0 <= k < links.len() && separates(#[trigger] links[k], c, d);
        assert(links[k] == (victim, peers[k]));
        assert(separates((victim, peers[k]), c, d));
    }
    if victim_link(victim, peers, c, d) {
        let j = choose|j: int| 0 <= j < peers.len() && separates((victim, #[trigger] peers[j]), c, d);
        assert(separates(links[j], c, d));
    }
}

/// The cross links cut exactly the links between the two groups.
proof fn lemma_cross_links_cut(group_a: Seq<u64>, group_b: Seq<u64>, c: u64, d: u64)
    ensures
        cut_by(cross_links(group_a, group_b), c, d) == between_groups(group_a, group_b, c, d),
    decreases group_a.len(),
{
    if between_groups(group_a, group_b, c, d) {
        let (i, j) = choose|i: int, j: int|
            0 <= i < group_a.len() && 0 <= j < group_b.len() && separates(
                (#[trigger] group_a[i], #[trigger] group_b[j]),
                c,
                d,
            );
        lemma_cross_links_member(group_a, group_b, i, j);
        let links = cross_links(group_a, group_b);
        let k = choose|k: int| 0 <= k < links.len() && separates(#[trigger] links[k], group_a[i], group_b[j]);
        assert(separates(links[k], c, d));
    }
    if group_a.len() > 0 && cut_by(cross_links(group_a, group_b), c, d) {
        let front = cross_links(group_a.drop_last(), group_b);
        let row = isolation_links(group_a.last(), group_b);
        let links = front + row;
        let k = choose|k: int| 0 <= k < links.len() && separates(#[trigger] links[k], c, d);
        if k < front.len() {
            assert(separates(front[k], c, d));
            lemma_cross_links_cut(group_a.drop_last(), group_b, c, d);
            let (i, j) = choose|i: int, j: int|
                0 <= i < group_a.drop_last().len() && 0 <= j < group_b.len() && separates(
                    (#[trigger] group_a.drop_last()[i], #[trigger] group_b[j]),
                    c,
                    d,
                );
            assert(group_a[i] == group_a.drop_last()[i]);
        } else {
            let j = k - front.len();
            assert(row[j] == (group_a.last(), group_b[j]));
            assert(separates((group_a[group_a.len() - 1], group_b[j]), c, d));
        }
    }
}

/// Isolating a node cuts the link between it and each peer, and no other
/// link: every link not between the victim and a peer is cut exactly when
/// it was cut before.
pub proof fn law_isolation_cuts_only_victim_links(
    pairs: Seq<(u64, u64)>,
    victim: u64,
    peers: Seq<u64>,
    c: u64,
    d: u64,
)
    ensures
        blocked(pairs + isolation_links(victim, peers), c, d) == (blocked(pairs, c, d)
            || victim_link(victim, peers, c, d)),
        !victim_link(victim, peers, c, d) ==> blocked(pairs + isolation_links(victim, peers), c, d)
            == blocked(pairs, c, d),
{
    lemma_append_blocked(pairs, isolation_links(victim, peers), c, d);
    lemma_isolation_links_cut(victim, peers, c, d);
}

/// Ending an isolation reopens every link between the victim and a peer
/// and leaves every other link as it was.
pub proof fn law_isolation_end_reopens_only_victim_links(
    pairs: Seq<(u64, u64)>,
    victim: u64,
    peers: Seq<u64>,
    c: u64,
    d: u64,
)
    ensures
        blocked(pairs.filter(kept_by_links(isolation_links(victim, peers))), c, d) == (blocked(
            pairs,
            c,
            d,
        ) && !victim_link(victim, peers, c, d)),
{
    lemma_filter_blocked(pairs, isolation_links(victim, peers), c, d);
    lemma_isolation_links_cut(victim, peers, c, d);
}

/// A split brain cuts the links between the two groups and no other link;
/// healing it reopens those links and leaves every other link as it was.
pub proof fn law_split_brain_cuts_only_cross_links(
    pairs: Seq<(u64, u64)>,
    group_a: Seq<u64>,
    group_b: Seq<u64>,
    c: u64,
    d: u64,
)
    ensures
        blocked(pairs + cross_links(group_a, group_b), c, d) == (blocked(pairs, c, d)
            || between_groups(group_a, group_b, c, d)),
        blocked(pairs.filter(kept_by_links(cross_links(group_a, group_b))), c, d) == (blocked(
            pairs,
            c,
            d,
        ) && !between_groups(group_a, group_b, c, d)),
{
    lemma_append_blocked(pairs, cross_links(group_a, group_b), c, d);
    lemma_filter_blocked(pairs, cross_links(group_a, group_b), c, d);
    lemma_cross_links_cut(group_a, group_b, c, d);
}

} // verus!
