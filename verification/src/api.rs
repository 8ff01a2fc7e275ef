//! Core protocol data types of the Raft state machine: events, RPCs and
//! side-effect descriptors, plus the specification-level views of each.

use vstd::prelude::*;

verus! {

/// A logical election epoch; `0` means "no term yet".
pub type Term = u64;
/// A cluster-wide unique node identifier. The protocol treats identifiers
/// as opaque: beyond equality and a fixed tie-breaking order nothing is
/// read from them, so plain integers stand in for any unique naming
/// scheme an environment might use.
pub type NodeId = u64;
/// A 1-based position in the replicated log; `0` denotes "before the first entry".
pub type LogIndex = usize;
/// The payload carried by one log entry. Payloads are supplied by clients
/// and never inspected by the protocol; a fixed integer payload stands in
/// for whatever opaque value an environment replicates.
pub type LogEntryValue = u64;

/// Identifies a log entry cluster-wide by the term it was created in and
/// its 1-based index; ordered lexicographically by `(term, index)`.
#[derive(Clone, Copy, PartialEq, Eq, Structural, Debug)]
pub struct LogEntryId {
    pub term: Term,
    pub index: LogIndex,
}

/// One replicated log entry: an opaque payload and the creating term.
#[derive(Clone, Copy, PartialEq, Eq, Structural, Debug)]
pub struct LogEntry {
    pub data: LogEntryValue,
    pub term: Term,
}

/// Static configuration of one node: its identity, the full cluster
/// (including itself), and the two timer durations in virtual ticks.
pub struct NodeConfig {
    pub node_id: NodeId,
    pub cluster: Vec<NodeId>,
    pub election_timeout: u64,
    pub heartbeat_interval: u64,
}

/// A leader's knowledge about one peer's log.
#[derive(Clone, Copy, PartialEq, Eq, Structural, Debug)]
pub struct NodeReplicationState {
    pub next_index: LogIndex,
    pub match_index: LogIndex,
}

/// The votes collected by a candidate; holds each granting node once.
pub struct CandidateState {
    pub votes_received: Vec<NodeId>,
}

/// Per-peer replication bookkeeping of a leader, keyed by peer id.
pub struct LeaderState {
    pub replication: Vec<(NodeId, NodeReplicationState)>,
}

/// The role a node currently plays.
pub enum NodeRole {
    Follower,
    Candidate(CandidateState),
    Leader(LeaderState),
}

/// A request for a vote, sent by a candidate to every other node.
#[derive(Clone, Copy, PartialEq, Eq, Structural, Debug)]
pub struct VoteRequestRpc {
    pub candidate_id: NodeId,
    pub term: Term,
    pub last_log: LogEntryId,
}

/// The answer to a `VoteRequestRpc`.
#[derive(Clone, Copy, PartialEq, Eq, Structural, Debug)]
pub struct VoteResponseRpc {
    pub node_id: NodeId,
    pub vote_granted: bool,
    pub current_term: Term,
}

/// A leader's replication round towards one follower: everything from
/// `prev_log` on, plus the leader's commit length.
pub struct ReplicateLogRequestRpc {
    pub leader_id: NodeId,
    pub term: Term,
    pub prev_log: LogEntryId,
    pub entries: Vec<LogEntry>,
    pub commit_len: usize,
}

/// The answer to a `ReplicateLogRequestRpc`.
#[derive(Clone, Copy, PartialEq, Eq, Structural, Debug)]
pub struct ReplicateLogResponseRpc {
    pub node_id: NodeId,
    pub request_term: Term,
    pub current_term: Term,
    pub log_len: usize,
    pub success: bool,
}

/// A client value proposed for replication.
#[derive(Clone, Copy, PartialEq, Eq, Structural, Debug)]
pub struct ProposeValueRequestRpc {
    pub value: LogEntryValue,
}

/// The closed set of RPCs exchanged between nodes.
pub enum Rpc {
    VoteRequest(VoteRequestRpc),
    VoteResponse(VoteResponseRpc),
    ReplicateLogRequest(ReplicateLogRequestRpc),
    ReplicateLogResponse(ReplicateLogResponseRpc),
    ProposeValueRequest(ProposeValueRequestRpc),
}

/// An input delivered to a node: its timer fired, or an RPC arrived.
pub enum Event {
    TimerUp,
    ReceivedRpc(Rpc),
}

/// A descriptor of something the environment should do on the node's
/// behalf; the state machine itself performs no I/O.
pub enum SideEffect {
    SetTimer { duration: u64 },
    SendRpc { to: NodeId, rpc: Rpc },
    ValueCommitted { value: LogEntryValue },
}

/// The side effects of one event, in emission order.
pub type SideEffects = Vec<SideEffect>;

// --- Specification-level views -------------------------------------------

/// View of a `ReplicateLogRequestRpc`, with the entries as a sequence.
pub struct ReplicateLogRequestView {
    pub leader_id: NodeId,
    pub term: Term,
    pub prev_log: LogEntryId,
    pub entries: Seq<LogEntry>,
    pub commit_len: int,
}

/// View of an `Rpc`.
pub enum RpcView {
    VoteRequest(VoteRequestRpc),
    VoteResponse(VoteResponseRpc),
    ReplicateLogRequest(ReplicateLogRequestView),
    ReplicateLogResponse(ReplicateLogResponseRpc),
    ProposeValueRequest(ProposeValueRequestRpc),
}

/// View of an `Event`.
pub enum EventView {
    TimerUp,
    ReceivedRpc(RpcView),
}

/// View of a `SideEffect`.
pub enum EffectView {
    SetTimer { duration: u64 },
    SendRpc { to: NodeId, rpc: RpcView },
    ValueCommitted { value: LogEntryValue },
}

/// View of a node's role.
pub enum RoleView {
    Follower,
    Candidate { votes: Seq<NodeId> },
    Leader { replication: Seq<(NodeId, NodeReplicationState)> },
}

/// The full abstract state of one node, over which the transition
/// function and all protocol laws are stated.
pub struct NodeView {
    pub node_id: NodeId,
    pub cluster: Seq<NodeId>,
    pub election_timeout: u64,
    pub heartbeat_interval: u64,
    pub role: RoleView,
    pub current_term: Term,
    pub commit_len: int,
    pub voted_for: Option<NodeId>,
    pub leader_id: Option<NodeId>,
    pub log: Seq<LogEntry>,
}

impl View for NodeRole {
    type V = RoleView;

    open spec fn view(&self) -> RoleView {
        match self {
            NodeRole::Follower => RoleView::Follower,
            NodeRole::Candidate(c) => RoleView::Candidate { votes: c.votes_received@ },
            NodeRole::Leader(l) => RoleView::Leader { replication: l.replication@ },
        }
    }
}

impl View for ReplicateLogRequestRpc {
    type V = ReplicateLogRequestView;

    open spec fn view(&self) -> ReplicateLogRequestView {
        ReplicateLogRequestView {
            leader_id: self.leader_id,
            term: self.term,
            prev_log: self.prev_log,
            entries: self.entries@,
            commit_len: self.commit_len as int,
        }
    }
}

impl View for Rpc {
    type V = RpcView;

    open spec fn view(&self) -> RpcView {
        match self {
            Rpc::VoteRequest(r) => RpcView::VoteRequest(*r),
            Rpc::VoteResponse(r) => RpcView::VoteResponse(*r),
            Rpc::ReplicateLogRequest(r) => RpcView::ReplicateLogRequest(r@),
            Rpc::ReplicateLogResponse(r) => RpcView::ReplicateLogResponse(*r),
            Rpc::ProposeValueRequest(r) => RpcView::ProposeValueRequest(*r),
        }
    }
}

impl View for Event {
    type V = EventView;

    open spec fn view(&self) -> EventView {
        match self {
            Event::TimerUp => EventView::TimerUp,
            Event::ReceivedRpc(rpc) => EventView::ReceivedRpc(rpc@),
        }
    }
}

impl View for SideEffect {
    type V = EffectView;

    open spec fn view(&self) -> EffectView {
        match self {
            SideEffect::SetTimer { duration } => EffectView::SetTimer { duration: *duration },
            SideEffect::SendRpc { to, rpc } => EffectView::SendRpc { to: *to, rpc: rpc@ },
            SideEffect::ValueCommitted { value } => EffectView::ValueCommitted { value: *value },
        }
    }
}

/// The duration a timer effect asks for; 0 for any other effect.
pub open spec fn timer_duration(e: SideEffect) -> u64 {
    match e {
        SideEffect::SetTimer { duration } => duration,
        _ => 0,
    }
}

/// The views of a sequence of side effects, in order.
pub open spec fn effects_view(effects: Seq<SideEffect>) -> Seq<EffectView> {
    effects.map(|_i: int, e: SideEffect| e@)
}

impl NodeConfig {
    /// Configuration the state machine can run on: positive timer
    /// durations whose randomized election delay cannot overflow, and a
    /// cluster that contains the node itself.
    pub open spec fn wf(&self) -> bool {
        &&& 1 <= self.election_timeout
        &&& self.election_timeout <= u64::MAX / 2
        &&& 1 <= self.heartbeat_interval
        &&& self.cluster@.contains(self.node_id)
    }
}

} // verus!
