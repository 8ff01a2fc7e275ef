//! The specification-level transition function of the Raft state machine.
//!
//! `step_full` maps a node's abstract state and one input event to the
//! successor state and the sequence of side effects, parameterized by the
//! randomized election-timer jitter. The executable machine in `state` is
//! verified to compute exactly this function; every protocol law in `laws`
//! is a theorem about it.

use vstd::prelude::*;

use crate::api::{
    EffectView, EventView, LogEntry, LogEntryId, NodeId, NodeReplicationState, NodeView,
    ProposeValueRequestRpc, ReplicateLogRequestView, ReplicateLogResponseRpc, RoleView, RpcView,
    Term, VoteRequestRpc, VoteResponseRpc,
};

verus! {

/// The size of a strict majority of `n` cluster members.
pub open spec fn majority(n: int) -> int {
    n / 2 + 1
}

/// The lesser of two integers.
pub open spec fn imin(a: int, b: int) -> int {
    if a < b {
        a
    } else {
        b
    }
}

/// The greater of two integers.
pub open spec fn imax(a: int, b: int) -> int {
    if a < b {
        b
    } else {
        a
    }
}

/// The term of the entry at 1-based position `i`, or 0 off the log.
pub open spec fn term_at(log: Seq<LogEntry>, i: int) -> Term {
    if 1 <= i <= log.len() {
        log[i - 1].term
    } else {
        0
    }
}

/// The term of the last log entry, or 0 for an empty log.
pub open spec fn last_term(log: Seq<LogEntry>) -> Term {
    term_at(log, log.len() as int)
}

/// Lexicographic order on log-entry identifiers `(term, index)`.
pub open spec fn log_id_le(a_term: Term, a_index: int, b_term: Term, b_index: int) -> bool {
    a_term < b_term || (a_term == b_term && a_index <= b_index)
}

/// `index + 1`, saturating at the largest representable position.
pub open spec fn next_position(i: usize) -> usize {
    if i < usize::MAX {
        (i + 1) as usize
    } else {
        usize::MAX
    }
}

/// Whether the replication table has a row for `id`.
pub open spec fn repl_contains(repl: Seq<(NodeId, NodeReplicationState)>, id: NodeId) -> bool
    decreases repl.len(),
{
    if repl.len() == 0 {
        false
    } else if repl[0].0 == id {
        true
    } else {
        repl_contains(repl.drop_first(), id)
    }
}

/// The first replication row for `id`; a fresh row if there is none.
pub open spec fn repl_lookup(repl: Seq<(NodeId, NodeReplicationState)>, id: NodeId) -> NodeReplicationState
    decreases repl.len(),
{
    if repl.len() == 0 {
        NodeReplicationState { next_index: 1, match_index: 0 }
    } else if repl[0].0 == id {
        repl[0].1
    } else {
        repl_lookup(repl.drop_first(), id)
    }
}

/// The table with the first row for `id` replaced by `state`.
pub open spec fn repl_update(
    repl: Seq<(NodeId, NodeReplicationState)>,
    id: NodeId,
    state: NodeReplicationState,
) -> Seq<(NodeId, NodeReplicationState)>
    decreases repl.len(),
{
    if repl.len() == 0 {
        repl
    } else if repl[0].0 == id {
        seq![(id, state)] + repl.drop_first()
    } else {
        seq![repl[0]] + repl_update(repl.drop_first(), id, state)
    }
}

/// A fresh replication table for every cluster member but the node
/// itself, in cluster order: nothing matched, everything still to send.
pub open spec fn init_replication(cluster: Seq<NodeId>, self_id: NodeId, log_len: usize) -> Seq<
    (NodeId, NodeReplicationState),
>
    decreases cluster.len(),
{
    if cluster.len() == 0 {
        Seq::empty()
    } else {
        let rest = init_replication(cluster.drop_last(), self_id, log_len);
        if cluster.last() == self_id {
            rest
        } else {
            rest + seq![
                (
                    cluster.last(),
                    NodeReplicationState { next_index: next_position(log_len), match_index: 0 },
                ),
            ]
        }
    }
}

/// The state after observing `term`: a strictly greater term turns the
/// node into a follower with no vote and no known leader.
pub open spec fn advance_term(v: NodeView, term: Term) -> NodeView {
    if term > v.current_term {
        NodeView {
            current_term: term,
            role: RoleView::Follower,
            voted_for: None,
            leader_id: None,
            ..v
        }
    } else {
        v
    }
}

/// The randomized election timer: the configured timeout plus `jitter`.
pub open spec fn election_timer_effect(v: NodeView, jitter: u64) -> EffectView {
    EffectView::SetTimer { duration: (v.election_timeout + jitter) as u64 }
}

/// The exact heartbeat timer.
pub open spec fn heartbeat_timer_effect(v: NodeView) -> EffectView {
    EffectView::SetTimer { duration: v.heartbeat_interval }
}

/// One `ValueCommitted` per 0-based log position in `[from, to)`, ascending.
pub open spec fn committed_effects(log: Seq<LogEntry>, from: int, to: int) -> Seq<EffectView>
    decreases to - from,
{
    if from >= to {
        Seq::empty()
    } else {
        seq![EffectView::ValueCommitted { value: log[from].data }] + committed_effects(
            log,
            from + 1,
            to,
        )
    }
}

/// A vote request to every other cluster member, in cluster order.
pub open spec fn vote_round(v: NodeView, peers: Seq<NodeId>) -> Seq<EffectView>
    decreases peers.len(),
{
    if peers.len() == 0 {
        Seq::empty()
    } else {
        let rest = vote_round(v, peers.drop_last());
        if peers.last() == v.node_id {
            rest
        } else {
            rest + seq![
                EffectView::SendRpc {
                    to: peers.last(),
                    rpc: RpcView::VoteRequest(
                        VoteRequestRpc {
                            candidate_id: v.node_id,
                            term: v.current_term,
                            last_log: LogEntryId {
                                term: last_term(v.log),
                                index: v.log.len() as usize,
                            },
                        },
                    ),
                },
            ]
        }
    }
}

/// The replication request for one peer: everything after the position
/// the leader believes the peer has, bounded to the leader's own log.
pub open spec fn replicate_rpc_to(
    v: NodeView,
    repl: Seq<(NodeId, NodeReplicationState)>,
    peer: NodeId,
) -> RpcView {
    let next = repl_lookup(repl, peer).next_index as int;
    let prev = if next >= 1 {
        imin(next - 1, v.log.len() as int)
    } else {
        0
    };
    RpcView::ReplicateLogRequest(
        ReplicateLogRequestView {
            leader_id: v.node_id,
            term: v.current_term,
            prev_log: LogEntryId { term: term_at(v.log, prev), index: prev as usize },
            entries: v.log.skip(prev),
            commit_len: v.commit_len,
        },
    )
}

/// A replication request to every other cluster member, in cluster order.
pub open spec fn repl_round(
    v: NodeView,
    repl: Seq<(NodeId, NodeReplicationState)>,
    peers: Seq<NodeId>,
) -> Seq<EffectView>
    decreases peers.len(),
{
    if peers.len() == 0 {
        Seq::empty()
    } else {
        let rest = repl_round(v, repl, peers.drop_last());
        if peers.last() == v.node_id {
            rest
        } else {
            rest + seq![
                EffectView::SendRpc { to: peers.last(), rpc: replicate_rpc_to(v, repl, peers.last()) },
            ]
        }
    }
}

/// How many of the clamped match indices, the leader's own log length
/// included, are at least `x`.
pub open spec fn count_at_least(
    repl: Seq<(NodeId, NodeReplicationState)>,
    log_len: int,
    x: int,
) -> int
    decreases repl.len(),
{
    if repl.len() == 0 {
        if log_len >= x {
            1
        } else {
            0
        }
    } else {
        let head: int = if imin(repl.last().1.match_index as int, log_len) >= x {
            1
        } else {
            0
        };
        count_at_least(repl.drop_last(), log_len, x) + head
    }
}

/// The largest candidate among `cands` that a majority of the cluster is
/// known to have replicated, or 0 when there is none.
pub open spec fn best_quorum_index(
    cands: Seq<(NodeId, NodeReplicationState)>,
    repl: Seq<(NodeId, NodeReplicationState)>,
    log_len: int,
    maj: int,
) -> int
    decreases cands.len(),
{
    if cands.len() == 0 {
        if count_at_least(repl, log_len, log_len) >= maj {
            log_len
        } else {
            0
        }
    } else {
        let rest = best_quorum_index(cands.drop_last(), repl, log_len, maj);
        let x = imin(cands.last().1.match_index as int, log_len);
        if count_at_least(repl, log_len, x) >= maj && x > rest {
            x
        } else {
            rest
        }
    }
}

/// The majority-highest match index of a leader: the largest log position
/// that a strict majority (the leader itself counted) has replicated.
pub open spec fn majority_match_index(
    repl: Seq<(NodeId, NodeReplicationState)>,
    log_len: int,
    maj: int,
) -> int {
    best_quorum_index(repl, repl, log_len, maj)
}

// --- Per-event transitions ------------------------------------------------

/// Start a new election: become a candidate voting for oneself in the
/// next term, ask every peer for a vote, rearm the election timer. With
/// the term space exhausted the node only rearms its timer.
pub open spec fn sf_new_election(v: NodeView, jitter: u64) -> (NodeView, Seq<EffectView>) {
    if v.current_term == u64::MAX {
        (v, seq![election_timer_effect(v, jitter)])
    } else {
        let v2 = NodeView {
            role: RoleView::Candidate { votes: seq![v.node_id] },
            current_term: (v.current_term + 1) as u64,
            voted_for: Some(v.node_id),
            ..v
        };
        (v2, vote_round(v2, v2.cluster) + seq![election_timer_effect(v2, jitter)])
    }
}

/// The timer fired: a leader sends a heartbeat round, anyone else starts
/// a new election.
pub open spec fn sf_timer_up(v: NodeView, jitter: u64) -> (NodeView, Seq<EffectView>) {
    match v.role {
        RoleView::Leader { replication } => (
            v,
            repl_round(v, replication, v.cluster) + seq![heartbeat_timer_effect(v)],
        ),
        _ => sf_new_election(v, jitter),
    }
}

/// Handle a vote request: grant when the candidate's term is current,
/// no conflicting vote was given, and the candidate's log is at least as
/// up to date; always answer. The election timer is rearmed both on a
/// granted vote and on any observed higher term.
pub open spec fn sf_vote_request(v: NodeView, r: VoteRequestRpc, jitter: u64) -> (
    NodeView,
    Seq<EffectView>,
) {
    let term_ok = r.term >= v.current_term;
    let v1 = advance_term(v, r.term);
    let vote_ok = v1.voted_for is None || v1.voted_for == Some(r.candidate_id);
    let log_ok = log_id_le(
        last_term(v1.log),
        v1.log.len() as int,
        r.last_log.term,
        r.last_log.index as int,
    );
    let granted = term_ok && vote_ok && log_ok;
    let v2 = if granted && v1.voted_for is None {
        NodeView { voted_for: Some(r.candidate_id), ..v1 }
    } else {
        v1
    };
    let timer: Seq<EffectView> = if granted || r.term > v.current_term {
        seq![election_timer_effect(v2, jitter)]
    } else {
        Seq::empty()
    };
    (
        v2,
        timer + seq![
            EffectView::SendRpc {
                to: r.candidate_id,
                rpc: RpcView::VoteResponse(
                    VoteResponseRpc {
                        node_id: v2.node_id,
                        vote_granted: granted,
                        current_term: v2.current_term,
                    },
                ),
            },
        ],
    )
}

/// Handle a vote response: a candidate collects current-term grants and
/// becomes leader on a strict majority, sending an immediate replication
/// round; a stale term observed in the response turns the node follower.
pub open spec fn sf_vote_response(v: NodeView, r: VoteResponseRpc, jitter: u64) -> (
    NodeView,
    Seq<EffectView>,
) {
    if v.current_term == r.current_term && r.vote_granted {
        match v.role {
            RoleView::Candidate { votes } => {
                let votes2 = if votes.contains(r.node_id) {
                    votes
                } else {
                    votes.push(r.node_id)
                };
                if votes2.len() as int >= majority(v.cluster.len() as int) {
                    let lead = NodeView {
                        role: RoleView::Leader {
                            replication: init_replication(
                                v.cluster,
                                v.node_id,
                                v.log.len() as usize,
                            ),
                        },
                        ..v
                    };
                    let repl = init_replication(v.cluster, v.node_id, v.log.len() as usize);
                    (lead, repl_round(lead, repl, lead.cluster) + seq![heartbeat_timer_effect(lead)])
                } else {
                    (NodeView { role: RoleView::Candidate { votes: votes2 }, ..v }, Seq::empty())
                }
            },
            _ => (v, Seq::empty()),
        }
    } else if r.current_term > v.current_term {
        (advance_term(v, r.current_term), seq![election_timer_effect(v, jitter)])
    } else {
        (v, Seq::empty())
    }
}

/// Handle a replication request: with an acceptable term and a matching
/// previous entry, truncate after the match point, append the entries,
/// and advance the commit length (never past the log, never backwards),
/// announcing each newly committed payload in ascending order; always
/// answer with the outcome.
pub open spec fn sf_replicate_request(v: NodeView, r: ReplicateLogRequestView, jitter: u64) -> (
    NodeView,
    Seq<EffectView>,
) {
    let term_ok = r.term >= v.current_term;
    let v1 = if term_ok {
        NodeView { leader_id: Some(r.leader_id), ..advance_term(v, r.term) }
    } else {
        v
    };
    let log_ok = v1.log.len() >= r.prev_log.index && (r.prev_log.index == 0 || term_at(
        v1.log,
        r.prev_log.index as int,
    ) == r.prev_log.term);
    let success = term_ok && log_ok;
    let stepped = if success {
        let new_log = v1.log.take(r.prev_log.index as int) + r.entries;
        let v_log = NodeView { log: new_log, ..v1 };
        if r.commit_len > v_log.commit_len {
            let nc = imax(v_log.commit_len, imin(r.commit_len, new_log.len() as int));
            (
                NodeView { commit_len: nc, ..v_log },
                committed_effects(new_log, v_log.commit_len, nc),
            )
        } else {
            (v_log, Seq::empty())
        }
    } else {
        (v1, Seq::empty())
    };
    let v2 = stepped.0;
    let timer: Seq<EffectView> = if term_ok {
        seq![election_timer_effect(v2, jitter)]
    } else {
        Seq::empty()
    };
    (
        v2,
        timer + stepped.1 + seq![
            EffectView::SendRpc {
                to: r.leader_id,
                rpc: RpcView::ReplicateLogResponse(
                    ReplicateLogResponseRpc {
                        node_id: v2.node_id,
                        request_term: r.term,
                        current_term: v2.current_term,
                        log_len: v2.log.len() as usize,
                        success,
                    },
                ),
            },
        ],
    )
}

/// Handle a replication response at the leader: on success raise the
/// peer's match index and try to advance the commit length under the
/// current-term guard; on failure back the peer's next index off by one
/// and retry immediately. A higher term turns the node follower. A
/// same-term response reaching a non-leader, or one from a peer absent
/// from the replication table, is deliberately absorbed without effect:
/// such an input marks a broken environment, and a total machine that
/// ignores it keeps every law intact where a crash would end the run.
pub open spec fn sf_replicate_response(v: NodeView, r: ReplicateLogResponseRpc, jitter: u64) -> (
    NodeView,
    Seq<EffectView>,
) {
    if r.current_term > v.current_term {
        (advance_term(v, r.current_term), seq![election_timer_effect(v, jitter)])
    } else if v.current_term == r.request_term {
        match v.role {
            RoleView::Leader { replication } => {
                if !repl_contains(replication, r.node_id) {
                    (v, Seq::empty())
                } else {
                    let cur = repl_lookup(replication, r.node_id);
                    if r.success {
                        if r.log_len > cur.match_index {
                            let repl2 = repl_update(
                                replication,
                                r.node_id,
                                NodeReplicationState {
                                    next_index: next_position(r.log_len),
                                    match_index: r.log_len,
                                },
                            );
                            let v2 = NodeView { role: RoleView::Leader { replication: repl2 }, ..v };
                            let n = majority_match_index(
                                repl2,
                                v2.log.len() as int,
                                majority(v2.cluster.len() as int),
                            );
                            if n > v2.commit_len && term_at(v2.log, n) == v2.current_term {
                                let v3 = NodeView { commit_len: n, ..v2 };
                                (
                                    v3,
                                    committed_effects(v3.log, v2.commit_len, n) + repl_round(
                                        v3,
                                        repl2,
                                        v3.cluster,
                                    ),
                                )
                            } else {
                                (v2, Seq::empty())
                            }
                        } else {
                            (v, Seq::empty())
                        }
                    } else {
                        let backed = if cur.next_index > 1 {
                            (cur.next_index - 1) as usize
                        } else {
                            cur.next_index
                        };
                        let repl2 = repl_update(
                            replication,
                            r.node_id,
                            NodeReplicationState {
                                next_index: backed,
                                match_index: cur.match_index,
                            },
                        );
                        let v2 = NodeView { role: RoleView::Leader { replication: repl2 }, ..v };
                        (
                            v2,
                            seq![
                                EffectView::SendRpc {
                                    to: r.node_id,
                                    rpc: replicate_rpc_to(v2, repl2, r.node_id),
                                },
                            ],
                        )
                    }
                }
            },
            _ => (v, Seq::empty()),
        }
    } else {
        (v, Seq::empty())
    }
}

/// Handle a proposed value: a leader appends it to its log in the current
/// term and replicates at once; a follower forwards to the leader it
/// knows of; otherwise the value is dropped.
pub open spec fn sf_propose(v: NodeView, r: ProposeValueRequestRpc) -> (NodeView, Seq<EffectView>) {
    match v.role {
        RoleView::Leader { replication } => {
            let v2 = NodeView {
                log: v.log.push(LogEntry { data: r.value, term: v.current_term }),
                ..v
            };
            (v2, repl_round(v2, replication, v2.cluster) + seq![heartbeat_timer_effect(v2)])
        },
        _ => match v.leader_id {
            Some(leader) => (
                v,
                seq![
                    EffectView::SendRpc { to: leader, rpc: RpcView::ProposeValueRequest(r) },
                ],
            ),
            None => (v, Seq::empty()),
        },
    }
}

/// The complete transition: the successor state and the emitted side
/// effects of delivering `event` with election jitter `jitter`.
pub open spec fn step_full(v: NodeView, event: EventView, jitter: u64) -> (
    NodeView,
    Seq<EffectView>,
) {
    match event {
        EventView::TimerUp => sf_timer_up(v, jitter),
        EventView::ReceivedRpc(rpc) => match rpc {
            RpcView::VoteRequest(r) => sf_vote_request(v, r, jitter),
            RpcView::VoteResponse(r) => sf_vote_response(v, r, jitter),
            RpcView::ReplicateLogRequest(r) => sf_replicate_request(v, r, jitter),
            RpcView::ReplicateLogResponse(r) => sf_replicate_response(v, r, jitter),
            RpcView::ProposeValueRequest(r) => sf_propose(v, r),
        },
    }
}

/// The successor state alone; it does not depend on the jitter.
pub open spec fn step(v: NodeView, event: EventView) -> NodeView {
    step_full(v, event, 0).0
}

} // verus!
