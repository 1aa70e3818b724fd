//! The messages and log entries that the replicated telemetry log exchanges
//! between nodes.

use vstd::prelude::*;
use crate::telemetry::TelemetryFrame;

verus! {

/// Identifier of a cluster node.
pub type NodeId = u64;

/// A leadership term.
pub type Term = u64;

/// Position in the replicated log.
pub type LogIdx = u64;

/// The part a node currently plays in the consensus protocol.
#[derive(Debug, Clone, Copy, PartialEq, Eq, Structural)]
pub enum Role {
    Follower,
    Candidate,
    Leader,
}

/// One entry of the replicated log.
#[derive(Debug, Clone)]
pub struct LogEntry {
    pub term: Term,
    pub index: LogIdx,
    pub frame: TelemetryFrame,
}

/// Replication request from the leader.
#[derive(Debug, Clone)]
pub struct AppendEntries {
    pub term: Term,
    pub leader_id: NodeId,
    pub prev_log_idx: LogIdx,
    pub prev_log_term: Term,
    pub entries: Vec<LogEntry>,
    pub leader_commit: LogIdx,
}

/// A follower's answer to `AppendEntries`.
#[derive(Debug, Clone, Copy, PartialEq, Eq, Structural)]
pub struct AppendEntriesReply {
    pub term: Term,
    pub success: bool,
    pub node_id: NodeId,
    pub match_idx: LogIdx,
}

/// A candidate's request for a vote.
#[derive(Debug, Clone, Copy, PartialEq, Eq, Structural)]
pub struct RequestVote {
    pub term: Term,
    pub candidate_id: NodeId,
    pub last_log_idx: LogIdx,
    pub last_log_term: Term,
}

/// A node's answer to `RequestVote`.
#[derive(Debug, Clone, Copy, PartialEq, Eq, Structural)]
pub struct RequestVoteReply {
    pub term: Term,
    pub vote_granted: bool,
    pub voter_id: NodeId,
}

/// Every message of the protocol, including the client's writes.
#[derive(Debug, Clone)]
pub enum RaftMsg {
    AppendEntries(AppendEntries),
    AppendEntriesReply(AppendEntriesReply),
    RequestVote(RequestVote),
    RequestVoteReply(RequestVoteReply),
    ClientWrite(TelemetryFrame),
    ClientWriteAck { index: LogIdx, success: bool },
}

/// A log entry that the cluster has committed, handed to the node's state
/// machine.
#[derive(Debug, Clone)]
pub struct CommitResult {
    pub index: LogIdx,
    pub frame: TelemetryFrame,
}

} // verus!
