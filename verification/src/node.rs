//! The decisions of a telemetry node and of the ingester that feeds the
//! cluster: which node receives the next frame, and which committed frames
//! enter a node's window.

use vstd::prelude::*;
use crate::consensus::{CommitResult, NodeId, RaftMsg, Role};
use crate::metrics::{Metrics, wrapped_sum};
use crate::telemetry::{
    Quality, TelemetryBuffer, TelemetryFrame, frame_checksum, channels_after_pushes, first_index, held, lemma_first_index,
    window_after_push, window_after_pushes,
};

verus! {

/// The node that the frame with sequence position `seq` goes to: the nodes
/// are taken in turn.
pub open spec fn round_robin_target(node_ids: Seq<NodeId>, seq: u64) -> NodeId {
    node_ids[(seq as usize) as int % node_ids.len() as int]
}

/// Round-robin hands out every node in turn: within any `n` consecutive
/// submissions to `n` nodes, each node receives one (as long as the
/// sequence positions fit in `usize`).
pub proof fn law_round_robin_reaches_every_node(node_ids: Seq<NodeId>, seq: u64, j: int)
    requires
        0 <= j < node_ids.len(),
        seq + node_ids.len() <= usize::MAX,
        seq + node_ids.len() <= u64::MAX,
    ensures
        exists|k: int|
            0 <= k < node_ids.len() && #[trigger] round_robin_target(node_ids, (seq + k) as u64)
                == node_ids[j],
{
    let n = node_ids.len() as int;
    let r = seq as int % n;
    let k = if j >= r {
        j - r
    } else {
        j - r + n
    };
    assert((seq + k) as u64 as usize as int == seq + k);
    vstd::arithmetic::div_mod::lemma_fundamental_div_mod(seq as int, n);
    let q = seq as int / n;
    assert(seq + k == n * q + j || seq + k == n * (q + 1) + j) by (nonlinear_arith)
        requires
            seq as int == n * q + r,
            k == (if j >= r {
                j - r
            } else {
                j - r + n
            }),
    ;
    vstd::arithmetic::div_mod::lemma_small_mod(j as nat, n as nat);
    if seq + k == n * q + j {
        vstd::arithmetic::div_mod::lemma_mod_multiples_vanish(q, j, n);
    } else {
        vstd::arithmetic::div_mod::lemma_mod_multiples_vanish(q + 1, j, n);
    }
    assert((seq + k) % n == j);
    assert(round_robin_target(node_ids, (seq + k) as u64) == node_ids[j]);
}

/// Draining committed entries never lets a frame with a mismatching
/// checksum into a window that holds only frames whose checksums match.
pub proof fn law_window_holds_only_verified(
    window: Seq<TelemetryFrame>,
    cap: nat,
    committed: Seq<TelemetryFrame>,
)
    requires
        forall|i: int| 0 <= i < window.len() ==> (#[trigger] window[i]).checksum_ok(),
    ensures
        ({
            let after = window_after_pushes(window, cap, committed.filter(checksum_verifies()));
            forall|i: int| 0 <= i < after.len() ==> (#[trigger] after[i]).checksum_ok()
        }),
{
    broadcast use vstd::seq_lib::group_filter_ensures;

    lemma_pushes_keep_verified(window, cap, committed.filter(checksum_verifies()));
}

/// Pushing only frames whose checksums match keeps every frame of the
/// window matching.
proof fn lemma_pushes_keep_verified(window: Seq<TelemetryFrame>, cap: nat, frames: Seq<TelemetryFrame>)
    requires
        forall|i: int| 0 <= i < window.len() ==> (#[trigger] window[i]).checksum_ok(),
        forall|i: int| 0 <= i < frames.len() ==> (#[trigger] frames[i]).checksum_ok(),
    ensures
        ({
            let after = window_after_pushes(window, cap, frames);
            forall|i: int| 0 <= i < after.len() ==> (#[trigger] after[i]).checksum_ok()
        }),
    decreases frames.len(),
{
    if frames.len() > 0 {
        let rest = frames.drop_last();
        assert forall|i: int| 0 <= i < rest.len() implies (#[trigger] rest[i]).checksum_ok() by {
            assert(rest[i] == frames[i]);
        }
        lemma_pushes_keep_verified(window, cap, rest);
        let w = window_after_pushes(window, cap, rest);
        let f = frames.last();
        let after = window_after_push(w, cap, f);
        if cap > 0 {
            if held(w, f.channel@).len() >= cap {
                lemma_first_index(w, f.channel@);
                let r = first_index(w, f.channel@);
                let base = w.remove(r);
                assert forall|i: int| 0 <= i < after.len() implies (#[trigger] after[i]).checksum_ok() by {
                    if i < base.len() {
                        if i < r {
                            assert(after[i] == w[i]);
                        } else {
                            assert(after[i] == w[i + 1]);
                        }
                    }
                }
            } else {
                assert forall|i: int| 0 <= i < after.len() implies (#[trigger] after[i]).checksum_ok() by {
                    if i < w.len() {
                        assert(after[i] == w[i]);
                    }
                }
            }
        }
    }
}

/// Feeds frames into the cluster, handing them to the nodes in turn.
pub struct TelemetryIngester {
    source_id: String,
    seq: u64,
    node_ids: Vec<NodeId>,
}

impl TelemetryIngester {
    /// The source the ingester speaks for.
    pub closed spec fn source(&self) -> Seq<char> {
        self.source_id@
    }

    /// How many frames have been submitted.
    pub closed spec fn submitted(&self) -> u64 {
        self.seq
    }

    /// The nodes frames are handed to.
    pub closed spec fn nodes(&self) -> Seq<NodeId> {
        self.node_ids@
    }

    /// An ingester for `source_id` that has submitted nothing yet.
    pub fn new(source_id: &str, node_ids: Vec<NodeId>) -> (ing: Self)
        ensures
            ing.source() == source_id@,
            ing.submitted() == 0,
            ing.nodes() == node_ids@,
    {
        TelemetryIngester { source_id: source_id.to_owned(), seq: 0, node_ids }
    }

    /// How many frames have been submitted.
    pub fn submitted_count(&self) -> (n: u64)
        ensures
            n == self.submitted(),
    {
        self.seq
    }

    /// How many nodes frames are handed to.
    pub fn node_count(&self) -> (n: usize)
        ensures
            n == self.nodes().len(),
    {
        self.node_ids.len()
    }

    /// Chooses the node that receives `frame` and counts the frame as
    /// ingested. With no node to send to, nothing happens and `None` comes
    /// back. Otherwise the result is the target node and the client write
    /// that carries the frame.
    pub fn submit(&mut self, frame: TelemetryFrame, metrics: &mut Metrics) -> (r: Option<
        (NodeId, RaftMsg),
    >)
        requires
            old(self).nodes().len() > 0 ==> old(self).submitted() < u64::MAX,
        ensures
            final(self).source() == old(self).source(),
            final(self).nodes() == old(self).nodes(),
            old(self).nodes().len() == 0 ==> {
                &&& r is None
                &&& final(self).submitted() == old(self).submitted()
                &&& final(metrics).counters() == old(metrics).counters()
            },
            old(self).nodes().len() > 0 ==> {
                &&& r == Some(
                    (
                        round_robin_target(old(self).nodes(), old(self).submitted()),
                        RaftMsg::ClientWrite(frame),
                    ),
                )
                &&& final(self).submitted() == old(self).submitted() + 1
                &&& final(metrics).counters() == old(metrics).counters().insert(
                    "frames_ingested"@,
                    wrapped_sum(old(metrics).counter("frames_ingested"@), 1),
                )
            },
            final(metrics).started() == old(metrics).started(),
    {
        if self.node_ids.len() == 0 {
            return None;
        }
        let target = self.node_ids[(self.seq as usize) % self.node_ids.len()];
        self.seq = self.seq + 1;
        metrics.increment("frames_ingested");
        Some((target, RaftMsg::ClientWrite(frame)))
    }
}

/// After a consensus tick, counts a newly started election: the node has
/// just become a candidate, having not been one before the tick.
pub fn count_election_start(metrics: &mut Metrics, before: Role, after: Role)
    ensures
        (before != Role::Candidate && after == Role::Candidate) ==> final(metrics).counters()
            == old(metrics).counters().insert(
            "elections_started"@,
            wrapped_sum(old(metrics).counter("elections_started"@), 1),
        ),
        !(before != Role::Candidate && after == Role::Candidate) ==> final(metrics).counters()
            == old(metrics).counters(),
        final(metrics).started() == old(metrics).started(),
{
    if before != Role::Candidate && after == Role::Candidate {
        metrics.increment("elections_started");
    }
}

/// After a message is handled, counts a change of leadership: the node has
/// gained or lost the leader role.
pub fn count_leader_change(metrics: &mut Metrics, was_leader: bool, is_leader: bool)
    ensures
        was_leader != is_leader ==> final(metrics).counters() == old(metrics).counters().insert(
            "leader_changes"@,
            wrapped_sum(old(metrics).counter("leader_changes"@), 1),
        ),
        was_leader == is_leader ==> final(metrics).counters() == old(metrics).counters(),
        final(metrics).started() == old(metrics).started(),
{
    if was_leader != is_leader {
        metrics.increment("leader_changes");
    }
}

/// The predicate "carries a matching checksum".
pub open spec fn checksum_verifies() -> spec_fn(TelemetryFrame) -> bool {
    |f: TelemetryFrame| f.checksum_ok()
}

/// The drain's gate is the checksum alone: a committed frame passes exactly
/// when its stored checksum is the CRC-32 of its source, timestamp, sequence
/// number and value, whatever its quality, id or channel.
pub proof fn law_drain_gate_is_checksum(frame: TelemetryFrame, q: Quality)
    ensures
        checksum_verifies()(frame) == (frame.checksum == frame_checksum(
            frame.source_id@,
            frame.timestamp_us,
            frame.sequence_num,
            frame.value_bits,
        )),
        checksum_verifies()(TelemetryFrame { quality: q, ..frame }) == checksum_verifies()(frame),
{
}

/// Draining a single committed entry: its frame enters the window exactly
/// when its checksum matches; otherwise the window stays as it was.
pub proof fn law_drain_single_entry(
    window: Seq<TelemetryFrame>,
    cap: nat,
    entry: CommitResult,
)
    ensures
        window_after_pushes(window, cap, committed_frames(seq![entry]).filter(checksum_verifies()))
            == if entry.frame.checksum == frame_checksum(
            entry.frame.source_id@,
            entry.frame.timestamp_us,
            entry.frame.sequence_num,
            entry.frame.value_bits,
        ) {
            window_after_push(window, cap, entry.frame)
        } else {
            window
        },
        committed_frames(seq![entry]).filter(checksum_verifies()).len() == if entry.frame.checksum
            == frame_checksum(
            entry.frame.source_id@,
            entry.frame.timestamp_us,
            entry.frame.sequence_num,
            entry.frame.value_bits,
        ) {
            1nat
        } else {
            0nat
        },
{
    reveal_with_fuel(Seq::<_>::filter, 2);
    let frames = committed_frames(seq![entry]);
    assert(frames =~= seq![entry.frame]);
    assert(frames.drop_last() =~= Seq::<TelemetryFrame>::empty());
    if entry.frame.checksum_ok() {
        let kept = frames.filter(checksum_verifies());
        assert(kept =~= seq![entry.frame]);
        assert(kept.drop_last() =~= Seq::<TelemetryFrame>::empty());
        assert(window_after_pushes(window, cap, kept) == window_after_push(
            window_after_pushes(window, cap, kept.drop_last()),
            cap,
            kept.last(),
        ));
    } else {
        assert(frames.filter(checksum_verifies()) =~= Seq::<TelemetryFrame>::empty());
    }
}

/// The frames of `committed`, in order.
pub open spec fn committed_frames(committed: Seq<CommitResult>) -> Seq<TelemetryFrame> {
    committed.map_values(|c: CommitResult| c.frame)
}

/// Hands committed entries to a node's state: every frame whose checksum
/// matches enters the window (and the statistics) and counts as replicated;
/// every other frame is rejected and counts as a checksum failure.
pub fn drain_committed(
    buffer: &mut TelemetryBuffer,
    metrics: &mut Metrics,
    committed: Vec<CommitResult>,
)
    ensures
        final(buffer).capacity() == old(buffer).capacity(),
        final(buffer).window() == window_after_pushes(
            old(buffer).window(),
            old(buffer).capacity(),
            committed_frames(committed@).filter(checksum_verifies()),
        ),
        final(buffer).seen_channels() == channels_after_pushes(
            old(buffer).seen_channels(),
            committed_frames(committed@).filter(checksum_verifies()),
        ),
        final(metrics).counter("frames_replicated"@) == (old(metrics).counter(
            "frames_replicated"@,
        ) + committed_frames(committed@).filter(checksum_verifies()).len()) % 0x1_0000_0000_0000_0000,
        final(metrics).counter("checksum_failures"@) == (old(metrics).counter(
            "checksum_failures"@,
        ) + committed@.len() - committed_frames(committed@).filter(checksum_verifies()).len())
            % 0x1_0000_0000_0000_0000,
        forall|k: Seq<char>|
            k != "frames_replicated"@ && k != "checksum_failures"@ ==> (
            #[trigger] final(metrics).counters().contains_key(k) == old(metrics).counters().contains_key(k)
                && final(metrics).counter(k) == old(metrics).counter(k)),
        final(metrics).started() == old(metrics).started(),
{
    let ghost frames = committed_frames(committed@);
    let ghost old_seen = buffer.seen_channels();
    let ghost old_window = buffer.window();
    let ghost cap = buffer.capacity();
    let ghost replicated0 = metrics.counter("frames_replicated"@);
    let ghost failures0 = metrics.counter("checksum_failures"@);
    let ghost counters0 = metrics.counters();
    let ghost started0 = metrics.started();
    proof {
        reveal_strlit("frames_replicated");
        reveal_strlit("checksum_failures");
        assert("frames_replicated"@[0] != "checksum_failures"@[0]);
        assert(frames.take(0).filter(checksum_verifies()) =~= Seq::<TelemetryFrame>::empty()) by {
            reveal_with_fuel(Seq::<_>::filter, 1);
        }
        assert((replicated0 + 0) % 0x1_0000_0000_0000_0000 == replicated0);
        assert((failures0 + 0 - 0) % 0x1_0000_0000_0000_0000 == failures0);
    }
    let mut i: usize = 0;
    while i < committed.len()
        invariant
            i <= committed@.len(),
            frames == committed_frames(committed@),
            "frames_replicated"@ != "checksum_failures"@,
            buffer.capacity() == cap,
            frames.take(i as int).filter(checksum_verifies()).len() <= i,
            buffer.window() == window_after_pushes(
                old_window,
                cap,
                frames.take(i as int).filter(checksum_verifies()),
            ),
            buffer.seen_channels() == channels_after_pushes(
                old_seen,
                frames.take(i as int).filter(checksum_verifies()),
            ),
            metrics.counter("frames_replicated"@) == (replicated0 + frames.take(i as int).filter(
                checksum_verifies(),
            ).len()) % 0x1_0000_0000_0000_0000,
            metrics.counter("checksum_failures"@) == (failures0 + i - frames.take(i as int).filter(
                checksum_verifies(),
            ).len()) % 0x1_0000_0000_0000_0000,
            forall|k: Seq<char>|
                k != "frames_replicated"@ && k != "checksum_failures"@ ==> (
                #[trigger] metrics.counters().contains_key(k) == counters0.contains_key(k)
                    && metrics.counter(k) == counters0.get(k).unwrap_or(0)),
            metrics.started() == started0,
            counters0 == old(metrics).counters(),
        decreases committed@.len() - i,
    {
        let frame = committed[i].frame.clone();
        let ghost acc = frames.take(i as int).filter(checksum_verifies());
        proof {
            reveal_with_fuel(Seq::<_>::filter, 1);
            assert(frames.take(i + 1).drop_last() =~= frames.take(i as int));
            assert(frames[i as int] == frame);
        }
        if frame.verify_checksum() {
            proof {
                assert(frames.take(i + 1).filter(checksum_verifies()) == acc.push(frame));
                assert(acc.push(frame).drop_last() =~= acc);
            }
            buffer.push(frame);
            metrics.increment("frames_replicated");
            proof {
                vstd::arithmetic::div_mod::lemma_add_mod_noop(
                    replicated0 + acc.len(),
                    1,
                    0x1_0000_0000_0000_0000,
                );
            }
        } else {
            proof {
                assert(frames.take(i + 1).filter(checksum_verifies()) == acc);
            }
            metrics.increment("checksum_failures");
            proof {
                vstd::arithmetic::div_mod::lemma_add_mod_noop(
                    failures0 + i - acc.len(),
                    1,
                    0x1_0000_0000_0000_0000,
                );
            }
        }
        i = i + 1;
    }
    proof {
        assert(frames.take(committed@.len() as int) =~= frames);
        assert forall|k: Seq<char>|
            k != "frames_replicated"@ && k != "checksum_failures"@ implies (
            #[trigger] metrics.counters().contains_key(k) == old(metrics).counters().contains_key(k)
                && metrics.counter(k) == old(metrics).counter(k)) by {
            assert(metrics.counters().contains_key(k) == counters0.contains_key(k));
        }
    }
}

} // verus!
