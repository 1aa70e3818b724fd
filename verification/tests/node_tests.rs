use fault_tolerant_telemetry::consensus::{CommitResult, RaftMsg, Role};
use fault_tolerant_telemetry::metrics::{Metrics, MetricsSnapshot};
use fault_tolerant_telemetry::node::{
    count_election_start, count_leader_change, drain_committed, TelemetryIngester,
};
use fault_tolerant_telemetry::telemetry::{TelemetryBuffer, TelemetryChannel, TelemetryFrame};

fn frame(seq: u64) -> TelemetryFrame {
    TelemetryFrame::from_parts(
        uuid::Uuid::nil(),
        "falcon9-stage1".to_string(),
        1000 + seq,
        seq,
        TelemetryChannel::ThrustN,
        (800_000.0f64 + seq as f64).to_bits(),
    )
}

#[test]
fn metrics_counters() {
    let mut m = Metrics::new();
    assert_eq!(m.get("frames_ingested"), 0);
    m.increment("frames_ingested");
    m.increment("frames_ingested");
    m.add("frames_replicated", 5);
    m.set("write_errors", 9);
    assert_eq!(m.get("frames_ingested"), 2);
    assert_eq!(m.get("frames_replicated"), 5);
    assert_eq!(m.get("write_errors"), 9);
    m.set("leader_changes", u64::MAX);
    m.increment("leader_changes");
    assert_eq!(m.get("leader_changes"), 0);
    let snap = m.report();
    assert_eq!(snap.frames_ingested, 2);
    assert_eq!(snap.frames_replicated, 5);
    assert_eq!(snap.write_errors, 9);
    assert_eq!(snap.leader_changes, 0);
    assert_eq!(snap.checksum_failures, 0);
}

#[test]
fn report_line() {
    let snap = MetricsSnapshot {
        frames_ingested: 120,
        frames_replicated: 96,
        elections_started: 3,
        leader_changes: 2,
        write_errors: 0,
        checksum_failures: 0,
        network_partitions: 7,
        uptime_secs: 42,
    };
    assert_eq!(
        snap.to_report_string(),
        "uptime=42s ingested=120 replicated=96 elections=3 leaders=2 write_err=0 checksum_fail=0 partitions=7"
    );
}

#[test]
fn default_metrics_report_zero_uptime() {
    let m = Metrics::default();
    assert_eq!(m.uptime_secs(), 0);
    assert_eq!(
        m.report(),
        MetricsSnapshot {
            frames_ingested: 0,
            frames_replicated: 0,
            elections_started: 0,
            leader_changes: 0,
            write_errors: 0,
            checksum_failures: 0,
            network_partitions: 0,
            uptime_secs: 0,
        }
    );
}

#[test]
fn ingester_round_robin() {
    let mut m = Metrics::new();
    let mut ing = TelemetryIngester::new("falcon9-stage1", vec![1, 2, 3]);
    let mut targets = Vec::new();
    for seq in 0..7u64 {
        match ing.submit(frame(seq), &mut m) {
            Some((target, RaftMsg::ClientWrite(f))) => {
                assert_eq!(f.sequence_num, seq);
                targets.push(target);
            }
            _ => panic!("expected a client write"),
        }
    }
    assert_eq!(targets, vec![1, 2, 3, 1, 2, 3, 1]);
    assert_eq!(ing.submitted_count(), 7);
    assert_eq!(ing.node_count(), 3);
    assert_eq!(m.get("frames_ingested"), 7);
}

#[test]
fn ingester_without_nodes_does_nothing() {
    let mut m = Metrics::new();
    let mut ing = TelemetryIngester::new("s", Vec::new());
    assert!(ing.submit(frame(0), &mut m).is_none());
    assert_eq!(m.get("frames_ingested"), 0);
}

#[test]
fn drain_rejects_bad_checksums() {
    let mut m = Metrics::new();
    let mut buffer = TelemetryBuffer::new(10);
    let mut bad = frame(2);
    bad.value_bits = 1.0f64.to_bits();
    let committed = vec![
        CommitResult { index: 1, frame: frame(1) },
        CommitResult { index: 2, frame: bad },
        CommitResult { index: 3, frame: frame(3) },
    ];
    drain_committed(&mut buffer, &mut m, committed);
    assert_eq!(buffer.len(), 2);
    let seqs: Vec<u64> = buffer.recent(10).iter().map(|f| f.sequence_num).collect();
    assert_eq!(seqs, vec![1, 3]);
    assert!(buffer.recent(10).iter().all(|f| f.verify_checksum()));
    assert_eq!(m.get("frames_replicated"), 2);
    assert_eq!(m.get("checksum_failures"), 1);
    assert_eq!(buffer.stats()[0].count, 2);
}

#[test]
fn election_and_leadership_counters() {
    let mut m = Metrics::new();
    count_election_start(&mut m, Role::Follower, Role::Candidate);
    count_election_start(&mut m, Role::Candidate, Role::Candidate);
    count_election_start(&mut m, Role::Candidate, Role::Leader);
    count_election_start(&mut m, Role::Leader, Role::Candidate);
    assert_eq!(m.get("elections_started"), 2);
    count_leader_change(&mut m, false, true);
    count_leader_change(&mut m, true, true);
    count_leader_change(&mut m, true, false);
    assert_eq!(m.get("leader_changes"), 2);
}
