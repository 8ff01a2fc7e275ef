//! Protocol laws: theorems about the specification-level transition of
//! `model`, which the executable machine in `state` computes exactly.
//!
//! Per-step laws hold of every reachable and unreachable state alike
//! unless a hypothesis says otherwise; trace laws quantify over whole
//! event sequences through `run`.

use vstd::prelude::*;

use crate::api::{
    EffectView, EventView, LogEntry, LogEntryValue, NodeId, NodeReplicationState, NodeView,
    RpcView, Term,
};
use crate::model::{
    best_quorum_index, committed_effects, imin, last_term, log_id_le, majority,
    majority_match_index, repl_round, sf_new_election, sf_propose, sf_replicate_request,
    sf_replicate_response, sf_timer_up, sf_vote_request, sf_vote_response, step, step_full,
    term_at, vote_round,
};

verus! {

/// The successor state does not depend on the election-timer jitter;
/// only the duration inside an emitted `SetTimer` does.
pub proof fn lemma_step_state_ignores_jitter(v: NodeView, event: EventView, jitter: u64)
    ensures
        step_full(v, event, jitter).0 == step(v, event),
{
    match event {
        EventView::TimerUp => {
            assert(sf_timer_up(v, jitter).0 == sf_timer_up(v, 0).0);
        },
        EventView::ReceivedRpc(rpc) => match rpc {
            RpcView::VoteRequest(r) => {
                assert(sf_vote_request(v, r, jitter).0 == sf_vote_request(v, r, 0).0);
            },
            RpcView::VoteResponse(r) => {
                assert(sf_vote_response(v, r, jitter).0 == sf_vote_response(v, r, 0).0);
            },
            RpcView::ReplicateLogRequest(r) => {
                assert(sf_replicate_request(v, r, jitter).0 == sf_replicate_request(v, r, 0).0);
            },
            RpcView::ReplicateLogResponse(r) => {
                assert(sf_replicate_response(v, r, jitter).0 == sf_replicate_response(v, r, 0).0);
            },
            RpcView::ProposeValueRequest(_) => {},
        },
    }
}

/// The majority-highest match index never leaves the leader's own log.
pub proof fn lemma_best_quorum_bounds(
    cands: Seq<(NodeId, NodeReplicationState)>,
    repl: Seq<(NodeId, NodeReplicationState)>,
    log_len: int,
    maj: int,
)
    requires
        log_len >= 0,
    ensures
        0 <= best_quorum_index(cands, repl, log_len, maj) <= log_len,
    decreases cands.len(),
{
    if cands.len() > 0 {
        lemma_best_quorum_bounds(cands.drop_last(), repl, log_len, maj);
    }
}

/// The majority-highest match index is a valid log position.
pub proof fn lemma_majority_match_bounds(
    repl: Seq<(NodeId, NodeReplicationState)>,
    log_len: int,
    maj: int,
)
    requires
        log_len >= 0,
    ensures
        0 <= majority_match_index(repl, log_len, maj) <= log_len,
{
    lemma_best_quorum_bounds(repl, repl, log_len, maj);
}

// --- Monotonicity ----------------------------------------------------------

/// The current term never decreases across an event.
pub proof fn lemma_term_monotone(v: NodeView, event: EventView)
    ensures
        step(v, event).current_term >= v.current_term,
{
}

/// The commit length never decreases across an event.
pub proof fn lemma_commit_monotone(v: NodeView, event: EventView)
    ensures
        step(v, event).commit_len >= v.commit_len,
{
}

/// An event never changes a node's identity, cluster or timer durations.
pub proof fn lemma_step_preserves_config(v: NodeView, event: EventView)
    ensures
        step(v, event).node_id == v.node_id,
        step(v, event).cluster == v.cluster,
        step(v, event).election_timeout == v.election_timeout,
        step(v, event).heartbeat_interval == v.heartbeat_interval,
{
}

// --- Commit-prefix stability -----------------------------------------------

/// The one input that may rewrite a committed position: a replication
/// request whose match point lies inside the committed prefix. A leader
/// of a correct cluster never sends one below a follower's commit length.
pub open spec fn truncates_committed_prefix(v: NodeView, event: EventView) -> bool {
    match event {
        EventView::ReceivedRpc(RpcView::ReplicateLogRequest(r)) => (r.prev_log.index as int)
            < v.commit_len,
        _ => false,
    }
}

/// Entries inside the committed prefix never change across an event that
/// does not truncate into it.
pub proof fn lemma_commit_prefix_stable(v: NodeView, event: EventView)
    requires
        0 <= v.commit_len <= v.log.len(),
        !truncates_committed_prefix(v, event),
    ensures
        step(v, event).log.len() >= v.commit_len,
        step(v, event).log.take(v.commit_len) == v.log.take(v.commit_len),
{
    let post = step(v, event);
    match event {
        EventView::TimerUp => {
            assert(post.log =~= v.log);
        },
        EventView::ReceivedRpc(rpc) => match rpc {
            RpcView::ReplicateLogRequest(r) => {
                if post.log != v.log {
                    let prev = r.prev_log.index as int;
                    assert(post.log =~= v.log.take(prev) + r.entries);
                    assert(post.log.take(v.commit_len) =~= v.log.take(v.commit_len));
                } else {
                    assert(post.log.take(v.commit_len) =~= v.log.take(v.commit_len));
                }
            },
            RpcView::ProposeValueRequest(r) => {
                assert(post.log.take(v.commit_len) =~= v.log.take(v.commit_len));
            },
            _ => {
                assert(post.log =~= v.log);
            },
        },
    }
}

// --- Election safety: quorum overlap ---------------------------------------

/// Two strict majorities of one cluster always share a member: the seat
/// of election safety. With at most one vote per node and term, two
/// leaders of the same term would need two majorities of granted votes,
/// which this lemma and `lemma_at_most_one_vote_per_term` rule out for
/// any set of voters that voted once.
pub proof fn lemma_quorum_overlap(cluster: Set<NodeId>, a: Set<NodeId>, b: Set<NodeId>)
    requires
        cluster.finite(),
        a.subset_of(cluster),
        b.subset_of(cluster),
        a.len() >= majority(cluster.len() as int),
        b.len() >= majority(cluster.len() as int),
    ensures
        exists|n: NodeId| a.contains(n) && b.contains(n),
{
    if !(exists|n: NodeId| a.contains(n) && b.contains(n)) {
        vstd::set_lib::lemma_len_subset(a, cluster);
        vstd::set_lib::lemma_len_subset(b, cluster);
        assert(a.disjoint(b));
        vstd::set_lib::lemma_set_disjoint_lens(a, b);
        assert((a + b).subset_of(cluster));
        vstd::set_lib::lemma_len_subset(a + b, cluster);
        assert(false);
    }
}

// --- At most one vote per term ---------------------------------------------

/// A standing vote survives any event that leaves the term unchanged.
pub proof fn lemma_vote_stability(v: NodeView, event: EventView)
    ensures
        (step(v, event).current_term == v.current_term && v.voted_for is Some) ==> step(
            v,
            event,
        ).voted_for == v.voted_for,
{
}

/// The candidate granted a vote by this event, if any: the vote goes out
/// as a positive `VoteResponse` and is recorded in `voted_for`.
pub open spec fn grants_vote(v: NodeView, event: EventView) -> Option<NodeId> {
    match event {
        EventView::ReceivedRpc(RpcView::VoteRequest(r)) => {
            let term_ok = r.term >= v.current_term;
            let v1 = crate::model::advance_term(v, r.term);
            let vote_ok = v1.voted_for is None || v1.voted_for == Some(r.candidate_id);
            let log_ok = log_id_le(
                last_term(v1.log),
                v1.log.len() as int,
                r.last_log.term,
                r.last_log.index as int,
            );
            if term_ok && vote_ok && log_ok {
                Some(r.candidate_id)
            } else {
                None
            }
        },
        _ => None,
    }
}

/// A granted vote is registered: afterwards the node's vote names the
/// candidate, in the node's (possibly advanced) current term.
pub proof fn lemma_granted_vote_registered(v: NodeView, event: EventView, c: NodeId)
    requires
        grants_vote(v, event) == Some(c),
    ensures
        step(v, event).voted_for == Some(c),
{
}

/// A granted vote goes out as a positive `VoteResponse` to the candidate,
/// carrying the node's new term; and only vote requests are answered with
/// vote responses at all.
pub proof fn lemma_granted_vote_effect(v: NodeView, event: EventView, jitter: u64, c: NodeId)
    requires
        grants_vote(v, event) == Some(c),
    ensures
        step_full(v, event, jitter).1.last() == (EffectView::SendRpc {
            to: c,
            rpc: RpcView::VoteResponse(
                crate::api::VoteResponseRpc {
                    node_id: v.node_id,
                    vote_granted: true,
                    current_term: step(v, event).current_term,
                },
            ),
        }),
{
}

/// Folding a sequence of events through the transition, front to back.
pub open spec fn run(v: NodeView, events: Seq<EventView>) -> NodeView
    decreases events.len(),
{
    if events.len() == 0 {
        v
    } else {
        step(run(v, events.drop_last()), events.last())
    }
}

/// Running a concatenation runs the parts in order.
pub proof fn lemma_run_append(v: NodeView, a: Seq<EventView>, b: Seq<EventView>)
    ensures
        run(v, a + b) == run(run(v, a), b),
    decreases b.len(),
{
    if b.len() == 0 {
        assert(a + b =~= a);
    } else {
        lemma_run_append(v, a, b.drop_last());
        assert((a + b).drop_last() =~= a + b.drop_last());
        assert((a + b).last() == b.last());
    }
}

/// The current term never decreases along a whole trace.
pub proof fn lemma_run_term_monotone(v: NodeView, events: Seq<EventView>)
    ensures
        run(v, events).current_term >= v.current_term,
    decreases events.len(),
{
    if events.len() > 0 {
        lemma_run_term_monotone(v, events.drop_last());
        lemma_term_monotone(run(v, events.drop_last()), events.last());
    }
}

/// A standing vote survives any trace that ends in the same term.
pub proof fn lemma_vote_persists(v: NodeView, events: Seq<EventView>)
    requires
        v.voted_for is Some,
        run(v, events).current_term == v.current_term,
    ensures
        run(v, events).voted_for == v.voted_for,
    decreases events.len(),
{
    if events.len() > 0 {
        let mid = run(v, events.drop_last());
        lemma_run_term_monotone(v, events.drop_last());
        lemma_term_monotone(mid, events.last());
        lemma_vote_persists(v, events.drop_last());
        lemma_vote_stability(mid, events.last());
    }
}

/// Across a node's whole lifetime, all votes it grants while its term
/// stays at `t` name one and the same candidate: granting at step `i`
/// pins `voted_for`, which every later same-term grant must match.
pub proof fn lemma_at_most_one_vote_per_term(
    v0: NodeView,
    events: Seq<EventView>,
    i: int,
    j: int,
    ci: NodeId,
    cj: NodeId,
    t: Term,
)
    requires
        0 <= i < j < events.len(),
        grants_vote(run(v0, events.take(i)), events[i]) == Some(ci),
        step(run(v0, events.take(i)), events[i]).current_term == t,
        grants_vote(run(v0, events.take(j)), events[j]) == Some(cj),
        step(run(v0, events.take(j)), events[j]).current_term == t,
    ensures
        ci == cj,
{
    let si = run(v0, events.take(i));
    let si_post = step(si, events[i]);
    lemma_granted_vote_registered(si, events[i], ci);
    // si_post is the state after step i: vote Some(ci), term t.
    assert(events.take(i + 1).drop_last() =~= events.take(i));
    assert(events.take(i + 1).last() == events[i]);
    assert(run(v0, events.take(i + 1)) == si_post);
    // Decompose the trace so the state before step j is a run from si_post.
    let between = events.subrange(i + 1, j);
    assert(events.take(i + 1) + between =~= events.take(j));
    lemma_run_append(v0, events.take(i + 1), between);
    let sj = run(si_post, between);
    assert(sj == run(v0, events.take(j)));
    // Terms are monotone and end where they started, so they never moved.
    lemma_run_term_monotone(si_post, between);
    let sj_post = step(sj, events[j]);
    lemma_term_monotone(sj, events[j]);
    // A grant in term t means the request's term was at most t, so the
    // step does not advance past t; monotonicity then pins sj at t.
    assert(sj.current_term <= t);
    assert(si_post.current_term == t);
    lemma_vote_persists(si_post, between);
    assert(sj.voted_for == Some(ci));
    // The grant at j required the standing vote to name its candidate.
    assert(ci == cj);
}

// --- Leader commit guard ---------------------------------------------------

/// A same-term replication request delivered to a standing leader: two
/// leaders of one term would be needed to produce it, which election
/// safety rules out; it is the one input this module cannot exclude
/// locally.
pub open spec fn same_term_replicate_request(v: NodeView, event: EventView) -> bool {
    match event {
        EventView::ReceivedRpc(RpcView::ReplicateLogRequest(r)) => r.term == v.current_term,
        _ => false,
    }
}

/// A leader advances its commit length only to a position whose entry
/// carries its own current term.
pub proof fn lemma_leader_commits_only_current_term(v: NodeView, event: EventView)
    requires
        v.role is Leader,
        step(v, event).role is Leader,
        step(v, event).commit_len > v.commit_len,
        !same_term_replicate_request(v, event),
    ensures
        step(v, event).current_term == v.current_term,
        step(v, event).log == v.log,
        term_at(v.log, step(v, event).commit_len) == v.current_term,
{
}

// --- Committed-values sequence ---------------------------------------------

/// The payloads announced by a list of effects, in emission order.
pub open spec fn committed_of(effs: Seq<EffectView>) -> Seq<LogEntryValue>
    decreases effs.len(),
{
    if effs.len() == 0 {
        Seq::empty()
    } else {
        (match effs[0] {
            EffectView::ValueCommitted { value } => seq![value],
            _ => Seq::empty(),
        }) + committed_of(effs.drop_first())
    }
}

/// The payloads of the log positions in `[from, to)`.
pub open spec fn payloads(log: Seq<LogEntry>, from: int, to: int) -> Seq<LogEntryValue> {
    log.subrange(from, to).map(|_i: int, e: LogEntry| e.data)
}

/// Announced payloads distribute over concatenation.
pub proof fn lemma_committed_of_concat(a: Seq<EffectView>, b: Seq<EffectView>)
    ensures
        committed_of(a + b) == committed_of(a) + committed_of(b),
    decreases a.len(),
{
    if a.len() == 0 {
        assert(a + b =~= b);
        assert(committed_of(a) + committed_of(b) =~= committed_of(b));
    } else {
        lemma_committed_of_concat(a.drop_first(), b);
        assert((a + b).drop_first() =~= a.drop_first() + b);
        assert(committed_of(a + b) =~= committed_of(a) + committed_of(b));
    }
}

/// What one effect announces: its value if it is a committed value,
/// nothing otherwise.
pub proof fn lemma_committed_of_one(e: EffectView)
    ensures
        committed_of(seq![e]) == (match e {
            EffectView::ValueCommitted { value } => seq![value],
            _ => Seq::<LogEntryValue>::empty(),
        }),
{
    assert(seq![e].drop_first() =~= Seq::<EffectView>::empty());
    assert(committed_of(Seq::<EffectView>::empty()) =~= Seq::<LogEntryValue>::empty());
    match e {
        EffectView::ValueCommitted { value } => {
            assert(committed_of(seq![e]) =~= seq![value]);
        },
        _ => {
            assert(committed_of(seq![e]) =~= Seq::<LogEntryValue>::empty());
        },
    }
}

/// A list without `ValueCommitted` effects announces nothing.
pub proof fn lemma_committed_of_no_values(effs: Seq<EffectView>)
    requires
        forall|i: int| 0 <= i < effs.len() ==> !(effs[i] is ValueCommitted),
    ensures
        committed_of(effs) == Seq::<LogEntryValue>::empty(),
    decreases effs.len(),
{
    if effs.len() > 0 {
        lemma_committed_of_no_values(effs.drop_first());
        assert(committed_of(effs) =~= Seq::<LogEntryValue>::empty());
    }
}

/// The committed-range effects announce exactly the payloads of the range.
pub proof fn lemma_committed_of_range(log: Seq<LogEntry>, from: int, to: int)
    requires
        0 <= from <= to <= log.len(),
    ensures
        committed_of(committed_effects(log, from, to)) == payloads(log, from, to),
    decreases to - from,
{
    if from == to {
        assert(payloads(log, from, to) =~= Seq::<LogEntryValue>::empty());
    } else {
        lemma_committed_of_range(log, from + 1, to);
        let head = seq![EffectView::ValueCommitted { value: log[from].data }];
        lemma_committed_of_concat(head, committed_effects(log, from + 1, to));
        assert(head.drop_first() =~= Seq::<EffectView>::empty());
        assert(committed_of(Seq::<EffectView>::empty()) =~= Seq::<LogEntryValue>::empty());
        assert(committed_of(head) =~= seq![log[from].data]);
        assert(payloads(log, from, to) =~= seq![log[from].data] + payloads(log, from + 1, to));
    }
}

/// Every effect of a vote-request round is a sent RPC.
pub proof fn lemma_vote_round_no_values(v: NodeView, peers: Seq<NodeId>)
    ensures
        forall|i: int| 0 <= i < vote_round(v, peers).len() ==> !(#[trigger] vote_round(
            v,
            peers,
        )[i] is ValueCommitted),
    decreases peers.len(),
{
    if peers.len() > 0 {
        lemma_vote_round_no_values(v, peers.drop_last());
    }
}

/// Every effect of a replication round is a sent RPC.
pub proof fn lemma_repl_round_no_values(
    v: NodeView,
    repl: Seq<(NodeId, NodeReplicationState)>,
    peers: Seq<NodeId>,
)
    ensures
        forall|i: int| 0 <= i < repl_round(v, repl, peers).len() ==> !(#[trigger] repl_round(
            v,
            repl,
            peers,
        )[i] is ValueCommitted),
    decreases peers.len(),
{
    if peers.len() > 0 {
        lemma_repl_round_no_values(v, repl, peers.drop_last());
    }
}

/// A replication round announces nothing.
pub proof fn lemma_repl_round_commits_nothing(
    v: NodeView,
    repl: Seq<(NodeId, NodeReplicationState)>,
    peers: Seq<NodeId>,
)
    ensures
        committed_of(repl_round(v, repl, peers)) == Seq::<LogEntryValue>::empty(),
{
    lemma_repl_round_no_values(v, repl, peers);
    lemma_committed_of_no_values(repl_round(v, repl, peers));
}

/// A vote-request round announces nothing.
pub proof fn lemma_vote_round_commits_nothing(v: NodeView, peers: Seq<NodeId>)
    ensures
        committed_of(vote_round(v, peers)) == Seq::<LogEntryValue>::empty(),
{
    lemma_vote_round_no_values(v, peers);
    lemma_committed_of_no_values(vote_round(v, peers));
}

/// A replication round followed by one timer announces nothing.
proof fn lemma_round_and_timer_commits_nothing(
    v: NodeView,
    repl: Seq<(NodeId, NodeReplicationState)>,
    peers: Seq<NodeId>,
    timer: EffectView,
)
    requires
        !(timer is ValueCommitted),
    ensures
        committed_of(repl_round(v, repl, peers) + seq![timer]) == Seq::<LogEntryValue>::empty(),
{
    lemma_committed_of_concat(repl_round(v, repl, peers), seq![timer]);
    lemma_repl_round_commits_nothing(v, repl, peers);
    assert(seq![timer].drop_first() =~= Seq::<EffectView>::empty());
    assert(committed_of(Seq::<EffectView>::empty()) =~= Seq::<LogEntryValue>::empty());
    assert(committed_of(seq![timer]) =~= Seq::<LogEntryValue>::empty());
}

/// One step announces exactly the payloads of the log positions that
/// entered the committed prefix, in ascending index order: no gaps, no
/// duplicates, no other values.
pub proof fn lemma_committed_values_per_step(v: NodeView, event: EventView, jitter: u64)
    requires
        0 <= v.commit_len <= v.log.len(),
        !truncates_committed_prefix(v, event),
    ensures
        committed_of(step_full(v, event, jitter).1) == payloads(
            step(v, event).log,
            v.commit_len,
            step(v, event).commit_len,
        ),
{
    let post = step(v, event);
    let effs = step_full(v, event, jitter).1;
    match event {
        EventView::TimerUp => {
            match v.role {
                crate::api::RoleView::Leader { replication } => {
                    lemma_round_and_timer_commits_nothing(
                        v,
                        replication,
                        v.cluster,
                        crate::model::heartbeat_timer_effect(v),
                    );
                    assert(payloads(post.log, v.commit_len, post.commit_len) =~= Seq::<
                        LogEntryValue,
                    >::empty());
                },
                _ => {
                    lemma_new_election_commits_nothing(v, jitter);
                    assert(payloads(post.log, v.commit_len, post.commit_len) =~= Seq::<
                        LogEntryValue,
                    >::empty());
                },
            }
        },
        EventView::ReceivedRpc(rpc) => match rpc {
            RpcView::VoteRequest(r) => {
                assert(forall|i: int| 0 <= i < effs.len() ==> !(effs[i] is ValueCommitted));
                lemma_committed_of_no_values(effs);
                assert(payloads(post.log, v.commit_len, post.commit_len) =~= Seq::<
                    LogEntryValue,
                >::empty());
            },
            RpcView::VoteResponse(r) => {
                lemma_vote_response_commits_nothing(v, r, jitter);
                assert(payloads(post.log, v.commit_len, post.commit_len) =~= Seq::<
                    LogEntryValue,
                >::empty());
            },
            RpcView::ReplicateLogRequest(r) => {
                lemma_replicate_request_commit_effects(v, r, jitter);
            },
            RpcView::ReplicateLogResponse(r) => {
                lemma_replicate_response_commit_effects(v, r, jitter);
            },
            RpcView::ProposeValueRequest(r) => {
                match v.role {
                    crate::api::RoleView::Leader { replication } => {
                        let v2 = sf_propose(v, r).0;
                        lemma_round_and_timer_commits_nothing(
                            v2,
                            replication,
                            v2.cluster,
                            crate::model::heartbeat_timer_effect(v2),
                        );
                        assert(payloads(post.log, v.commit_len, post.commit_len) =~= Seq::<
                            LogEntryValue,
                        >::empty());
                    },
                    _ => {
                        assert(forall|i: int|
                            0 <= i < effs.len() ==> !(effs[i] is ValueCommitted));
                        lemma_committed_of_no_values(effs);
                        assert(payloads(post.log, v.commit_len, post.commit_len) =~= Seq::<
                            LogEntryValue,
                        >::empty());
                    },
                }
            },
        },
    }
}

proof fn lemma_new_election_commits_nothing(v: NodeView, jitter: u64)
    ensures
        committed_of(sf_new_election(v, jitter).1) == Seq::<LogEntryValue>::empty(),
{
    let effs = sf_new_election(v, jitter).1;
    if v.current_term == u64::MAX {
        lemma_committed_of_no_values(effs);
    } else {
        let v2 = sf_new_election(v, jitter).0;
        lemma_vote_round_commits_nothing(v2, v2.cluster);
        lemma_committed_of_concat(
            vote_round(v2, v2.cluster),
            seq![crate::model::election_timer_effect(v2, jitter)],
        );
        lemma_committed_of_no_values(seq![crate::model::election_timer_effect(v2, jitter)]);
    }
}

proof fn lemma_vote_response_commits_nothing(
    v: NodeView,
    r: crate::api::VoteResponseRpc,
    jitter: u64,
)
    ensures
        committed_of(sf_vote_response(v, r, jitter).1) == Seq::<LogEntryValue>::empty(),
{
    let effs = sf_vote_response(v, r, jitter).1;
    if v.current_term == r.current_term && r.vote_granted {
        match v.role {
            crate::api::RoleView::Candidate { votes } => {
                let votes2 = if votes.contains(r.node_id) {
                    votes
                } else {
                    votes.push(r.node_id)
                };
                if votes2.len() as int >= majority(v.cluster.len() as int) {
                    let lead = sf_vote_response(v, r, jitter).0;
                    let repl = crate::model::init_replication(
                        v.cluster,
                        v.node_id,
                        v.log.len() as usize,
                    );
                    lemma_round_and_timer_commits_nothing(
                        lead,
                        repl,
                        lead.cluster,
                        crate::model::heartbeat_timer_effect(lead),
                    );
                } else {
                    lemma_committed_of_no_values(effs);
                }
            },
            _ => {
                lemma_committed_of_no_values(effs);
            },
        }
    } else {
        lemma_committed_of_no_values(effs);
    }
}

proof fn lemma_replicate_request_commit_effects(
    v: NodeView,
    r: crate::api::ReplicateLogRequestView,
    jitter: u64,
)
    requires
        0 <= v.commit_len <= v.log.len(),
        v.commit_len <= r.prev_log.index as int,
    ensures
        committed_of(sf_replicate_request(v, r, jitter).1) == payloads(
            sf_replicate_request(v, r, jitter).0.log,
            v.commit_len,
            sf_replicate_request(v, r, jitter).0.commit_len,
        ),
{
    let post = sf_replicate_request(v, r, jitter).0;
    let effs = sf_replicate_request(v, r, jitter).1;
    let term_ok = r.term >= v.current_term;
    let v1 = if term_ok {
        NodeView { leader_id: Some(r.leader_id), ..crate::model::advance_term(v, r.term) }
    } else {
        v
    };
    let log_ok = v1.log.len() >= r.prev_log.index && (r.prev_log.index == 0 || term_at(
        v1.log,
        r.prev_log.index as int,
    ) == r.prev_log.term);
    let success = term_ok && log_ok;
    let commits: Seq<EffectView> = if success {
        let new_log = v1.log.take(r.prev_log.index as int) + r.entries;
        if r.commit_len > v1.commit_len {
            committed_effects(
                new_log,
                v1.commit_len,
                crate::model::imax(v1.commit_len, imin(r.commit_len, new_log.len() as int)),
            )
        } else {
            Seq::empty()
        }
    } else {
        Seq::empty()
    };
    let timer: Seq<EffectView> = if term_ok {
        seq![crate::model::election_timer_effect(post, jitter)]
    } else {
        Seq::empty()
    };
    let resp = EffectView::SendRpc {
        to: r.leader_id,
        rpc: RpcView::ReplicateLogResponse(
            crate::api::ReplicateLogResponseRpc {
                node_id: post.node_id,
                request_term: r.term,
                current_term: post.current_term,
                log_len: post.log.len() as usize,
                success,
            },
        ),
    };
    assert(effs == timer + commits + seq![resp]);
    lemma_committed_of_concat(timer + commits, seq![resp]);
    lemma_committed_of_concat(timer, commits);
    lemma_committed_of_no_values(timer);
    lemma_committed_of_no_values(seq![resp]);
    if success {
        let prev = r.prev_log.index as int;
        let new_log = v1.log.take(prev) + r.entries;
        if r.commit_len > v1.commit_len {
            let nc = crate::model::imax(v1.commit_len, imin(r.commit_len, new_log.len() as int));
            lemma_committed_of_range(new_log, v1.commit_len, nc);
        } else {
            assert(payloads(post.log, v.commit_len, post.commit_len) =~= Seq::<
                LogEntryValue,
            >::empty());
        }
    } else {
        assert(payloads(post.log, v.commit_len, post.commit_len) =~= Seq::<
            LogEntryValue,
        >::empty());
    }
}

proof fn lemma_replicate_response_commit_effects(
    v: NodeView,
    r: crate::api::ReplicateLogResponseRpc,
    jitter: u64,
)
    requires
        0 <= v.commit_len <= v.log.len(),
    ensures
        committed_of(sf_replicate_response(v, r, jitter).1) == payloads(
            sf_replicate_response(v, r, jitter).0.log,
            v.commit_len,
            sf_replicate_response(v, r, jitter).0.commit_len,
        ),
{
    let post = sf_replicate_response(v, r, jitter).0;
    let effs = sf_replicate_response(v, r, jitter).1;
    if r.current_term > v.current_term {
        lemma_committed_of_no_values(effs);
        assert(payloads(post.log, v.commit_len, post.commit_len) =~= Seq::<
            LogEntryValue,
        >::empty());
    } else if v.current_term == r.request_term {
        match v.role {
            crate::api::RoleView::Leader { replication } => {
                if !crate::model::repl_contains(replication, r.node_id) {
                    lemma_committed_of_no_values(effs);
                    assert(payloads(post.log, v.commit_len, post.commit_len) =~= Seq::<
                        LogEntryValue,
                    >::empty());
                } else {
                    let cur = crate::model::repl_lookup(replication, r.node_id);
                    if r.success {
                        if r.log_len > cur.match_index {
                            let repl2 = crate::model::repl_update(
                                replication,
                                r.node_id,
                                NodeReplicationState {
                                    next_index: crate::model::next_position(r.log_len),
                                    match_index: r.log_len,
                                },
                            );
                            let v2 = NodeView {
                                role: crate::api::RoleView::Leader { replication: repl2 },
                                ..v
                            };
                            let n = majority_match_index(
                                repl2,
                                v2.log.len() as int,
                                majority(v2.cluster.len() as int),
                            );
                            lemma_majority_match_bounds(
                                repl2,
                                v2.log.len() as int,
                                majority(v2.cluster.len() as int),
                            );
                            if n > v2.commit_len && term_at(v2.log, n) == v2.current_term {
                                let v3 = NodeView { commit_len: n, ..v2 };
                                lemma_committed_of_concat(
                                    committed_effects(v3.log, v2.commit_len, n),
                                    repl_round(v3, repl2, v3.cluster),
                                );
                                lemma_repl_round_commits_nothing(v3, repl2, v3.cluster);
                                lemma_committed_of_range(v3.log, v2.commit_len, n);
                            } else {
                                lemma_committed_of_no_values(effs);
                                assert(payloads(post.log, v.commit_len, post.commit_len) =~= Seq::<
                                    LogEntryValue,
                                >::empty());
                            }
                        } else {
                            lemma_committed_of_no_values(effs);
                            assert(payloads(post.log, v.commit_len, post.commit_len) =~= Seq::<
                                LogEntryValue,
                            >::empty());
                        }
                    } else {
                        lemma_committed_of_no_values(effs);
                        assert(payloads(post.log, v.commit_len, post.commit_len) =~= Seq::<
                            LogEntryValue,
                        >::empty());
                    }
                }
            },
            _ => {
                lemma_committed_of_no_values(effs);
                assert(payloads(post.log, v.commit_len, post.commit_len) =~= Seq::<
                    LogEntryValue,
                >::empty());
            },
        }
    } else {
        lemma_committed_of_no_values(effs);
        assert(payloads(post.log, v.commit_len, post.commit_len) =~= Seq::<
            LogEntryValue,
        >::empty());
    }
}

// --- Idempotence -----------------------------------------------------------

/// A heartbeat that matches the follower's log tail exactly leaves the
/// log as it is.
pub proof fn lemma_matched_heartbeat_is_log_noop(
    v: NodeView,
    r: crate::api::ReplicateLogRequestView,
)
    requires
        r.term == v.current_term,
        r.entries.len() == 0,
        r.prev_log.index as int == v.log.len(),
        r.prev_log.term == last_term(v.log),
        v.log.len() <= usize::MAX,
    ensures
        step(v, EventView::ReceivedRpc(RpcView::ReplicateLogRequest(r))).log == v.log,
{
    let post = step(v, EventView::ReceivedRpc(RpcView::ReplicateLogRequest(r)));
    assert(post.log =~= v.log);
}

/// Re-delivering the replication request a follower just applied changes
/// neither its log nor its commit length, and announces no value.
pub proof fn lemma_redelivery_idempotent(
    v: NodeView,
    r: crate::api::ReplicateLogRequestView,
    jitter: u64,
)
    requires
        r.prev_log.index as int + r.entries.len() == v.log.len(),
        v.log.skip(r.prev_log.index as int) == r.entries,
        r.commit_len <= v.commit_len,
    ensures
        step(v, EventView::ReceivedRpc(RpcView::ReplicateLogRequest(r))).log == v.log,
        step(v, EventView::ReceivedRpc(RpcView::ReplicateLogRequest(r))).commit_len
            == v.commit_len,
        committed_of(
            step_full(v, EventView::ReceivedRpc(RpcView::ReplicateLogRequest(r)), jitter).1,
        ) == Seq::<LogEntryValue>::empty(),
{
    let ev = EventView::ReceivedRpc(RpcView::ReplicateLogRequest(r));
    let post = step(v, ev);
    let effs = step_full(v, ev, jitter).1;
    let term_ok = r.term >= v.current_term;
    let v1 = if term_ok {
        NodeView { leader_id: Some(r.leader_id), ..crate::model::advance_term(v, r.term) }
    } else {
        v
    };
    let log_ok = v1.log.len() >= r.prev_log.index && (r.prev_log.index == 0 || term_at(
        v1.log,
        r.prev_log.index as int,
    ) == r.prev_log.term);
    if term_ok && log_ok {
        assert(v1.log.take(r.prev_log.index as int) + r.entries =~= v.log);
    }
    assert(post.log =~= v.log);
    assert(forall|i: int| 0 <= i < effs.len() ==> !(effs[i] is ValueCommitted));
    lemma_committed_of_no_values(effs);
}

} // verus!
