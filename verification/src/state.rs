//! The executable Raft state machine.
//!
//! Every public entry point is verified to compute exactly the
//! specification-level transition of `model`: `on_event` returns the
//! side effects of `step_full` and leaves the machine in the state
//! `step` prescribes.

use vstd::prelude::*;
use vstd::pervasive::VecAdditionalExecFns;

use crate::api::{
    CandidateState, Event, LeaderState, LogEntry, LogEntryId, NodeConfig, NodeId, NodeRole,
    NodeReplicationState, NodeView, ProposeValueRequestRpc, ReplicateLogRequestRpc,
    ReplicateLogResponseRpc, RoleView, Rpc, SideEffect, SideEffects, Term, VoteRequestRpc,
    VoteResponseRpc, effects_view,
};
use crate::model::{
    advance_term, best_quorum_index, committed_effects, count_at_least, election_timer_effect,
    heartbeat_timer_effect, imin, init_replication, last_term, log_id_le, majority,
    majority_match_index, next_position, repl_contains, repl_lookup, repl_round, repl_update,
    replicate_rpc_to, sf_new_election, sf_propose, sf_replicate_request, sf_replicate_response,
    sf_timer_up, sf_vote_request, sf_vote_response, step, step_full, term_at, vote_round,
};
use crate::rng::{new_seeded_rng, rng_below};

verus! {

/// One Raft node: a pure protocol state machine plus the seeded source
/// of its election-timer jitter.
pub struct RaftStateMachine {
    config: NodeConfig,
    role: NodeRole,
    current_term: Term,
    commit_len: usize,
    voted_for: Option<NodeId>,
    leader_id: Option<NodeId>,
    log: Vec<LogEntry>,
    rng: rand::rngs::StdRng,
}

impl View for RaftStateMachine {
    type V = NodeView;

    closed spec fn view(&self) -> NodeView {
        NodeView {
            node_id: self.config.node_id,
            cluster: self.config.cluster@,
            election_timeout: self.config.election_timeout,
            heartbeat_interval: self.config.heartbeat_interval,
            role: self.role@,
            current_term: self.current_term,
            commit_len: self.commit_len as int,
            voted_for: self.voted_for,
            leader_id: self.leader_id,
            log: self.log@,
        }
    }
}

/// The replication table of a leader view; empty in any other role.
pub open spec fn role_replication(role: RoleView) -> Seq<(NodeId, NodeReplicationState)> {
    match role {
        RoleView::Leader { replication } => replication,
        _ => Seq::empty(),
    }
}

impl NodeView {
    /// A node the machine can run on: positive timer durations whose
    /// randomized election delay cannot overflow, and a cluster that
    /// contains the node itself.
    pub open spec fn wf(&self) -> bool {
        &&& 1 <= self.election_timeout
        &&& self.election_timeout <= u64::MAX / 2
        &&& 1 <= self.heartbeat_interval
        &&& self.cluster.contains(self.node_id)
    }
}

// --- Structural helper lemmas ---------------------------------------------

/// Mapping views commutes with appending one effect.
pub proof fn lemma_effects_view_push(a: Seq<SideEffect>, e: SideEffect)
    ensures
        effects_view(a.push(e)) == effects_view(a) + seq![e@],
{
    assert(effects_view(a.push(e)) =~= effects_view(a) + seq![e@]);
}

/// At the first row holding `id`, membership, lookup and update of the
/// replication table reduce to plain indexing.
pub proof fn lemma_repl_first_index(
    repl: Seq<(NodeId, NodeReplicationState)>,
    id: NodeId,
    i: int,
    st: NodeReplicationState,
)
    requires
        0 <= i < repl.len(),
        repl[i].0 == id,
        forall|k: int| 0 <= k < i ==> repl[k].0 != id,
    ensures
        repl_contains(repl, id),
        repl_lookup(repl, id) == repl[i].1,
        repl_update(repl, id, st) == repl.update(i, (id, st)),
    decreases i,
{
    if i == 0 {
        assert(repl_update(repl, id, st) =~= repl.update(0, (id, st)));
    } else {
        lemma_repl_first_index(repl.drop_first(), id, i - 1, st);
        assert(repl.drop_first().update(i - 1, (id, st)) =~= repl.update(i, (id, st)).drop_first());
        assert(repl_update(repl, id, st) =~= repl.update(i, (id, st)));
    }
}

/// Looking up an absent row yields the fresh default.
pub proof fn lemma_repl_lookup_absent(repl: Seq<(NodeId, NodeReplicationState)>, id: NodeId)
    requires
        !repl_contains(repl, id),
    ensures
        repl_lookup(repl, id) == (NodeReplicationState { next_index: 1, match_index: 0 }),
    decreases repl.len(),
{
    if repl.len() > 0 {
        lemma_repl_lookup_absent(repl.drop_first(), id);
    }
}

/// A table with no row for `id` does not contain `id`.
pub proof fn lemma_repl_absent(repl: Seq<(NodeId, NodeReplicationState)>, id: NodeId)
    requires
        forall|k: int| 0 <= k < repl.len() ==> repl[k].0 != id,
    ensures
        !repl_contains(repl, id),
    decreases repl.len(),
{
    if repl.len() > 0 {
        lemma_repl_absent(repl.drop_first(), id);
    }
}

/// The committed range yields one effect per position.
pub proof fn lemma_committed_effects_len(log: Seq<LogEntry>, a: int, b: int)
    ensures
        committed_effects(log, a, b).len() == if a <= b {
            b - a
        } else {
            0
        },
    decreases b - a,
{
    if a < b {
        lemma_committed_effects_len(log, a + 1, b);
    }
}

/// The effect at offset `i` announces the payload at position `a + i`.
pub proof fn lemma_committed_effects_index(log: Seq<LogEntry>, a: int, b: int, i: int)
    requires
        0 <= i < b - a,
    ensures
        committed_effects(log, a, b)[i] == (crate::api::EffectView::ValueCommitted {
            value: log[a + i].data,
        }),
    decreases i,
{
    lemma_committed_effects_len(log, a + 1, b);
    if i > 0 {
        lemma_committed_effects_index(log, a + 1, b, i - 1);
    }
}

/// Extending the committed range by one position appends exactly one
/// `ValueCommitted` effect.
pub proof fn lemma_committed_effects_snoc(log: Seq<LogEntry>, a: int, b: int)
    requires
        a <= b,
    ensures
        committed_effects(log, a, b + 1) == committed_effects(log, a, b) + seq![
            crate::api::EffectView::ValueCommitted { value: log[b].data },
        ],
{
    lemma_committed_effects_len(log, a, b);
    lemma_committed_effects_len(log, a, b + 1);
    assert forall|i: int| 0 <= i < b + 1 - a implies committed_effects(log, a, b + 1)[i]
        == (committed_effects(log, a, b) + seq![
        crate::api::EffectView::ValueCommitted { value: log[b].data },
    ])[i] by {
        lemma_committed_effects_index(log, a, b + 1, i);
        if i < b - a {
            lemma_committed_effects_index(log, a, b, i);
        }
    }
    assert(committed_effects(log, a, b + 1) =~= committed_effects(log, a, b) + seq![
        crate::api::EffectView::ValueCommitted { value: log[b].data },
    ]);
}

// --- Small executable helpers ---------------------------------------------

/// Whether `ids` holds `id`.
fn contains_id(ids: &Vec<NodeId>, id: NodeId) -> (r: bool)
    ensures
        r == ids@.contains(id),
{
    let mut k: usize = 0;
    while k < ids.len()
        invariant
            k <= ids@.len(),
            forall|j: int| 0 <= j < k ==> ids@[j] != id,
        decreases ids@.len() - k,
    {
        if ids[k] == id {
            assert(ids@.contains(id));
            return true;
        }
        k = k + 1;
    }
    false
}

/// Lexicographic comparison of log-entry identifiers.
fn log_id_le_exec(a: LogEntryId, b: LogEntryId) -> (r: bool)
    ensures
        r == log_id_le(a.term, a.index as int, b.term, b.index as int),
{
    a.term < b.term || (a.term == b.term && a.index <= b.index)
}

impl RaftStateMachine {
    /// Well-formedness carried by every machine this module hands out.
    pub open spec fn wf(&self) -> bool {
        self@.wf()
    }

    /// A fresh follower with an empty log in term 0; its election jitter
    /// is drawn from a generator seeded with `seed`.
    pub fn new(config: NodeConfig, seed: u64) -> (r: Self)
        requires
            config.wf(),
        ensures
            r.wf(),
            r@ == (NodeView {
                node_id: config.node_id,
                cluster: config.cluster@,
                election_timeout: config.election_timeout,
                heartbeat_interval: config.heartbeat_interval,
                role: RoleView::Follower,
                current_term: 0,
                commit_len: 0,
                voted_for: None::<NodeId>,
                leader_id: None::<NodeId>,
                log: Seq::<LogEntry>::empty(),
            }),
    {
        let r = Self {
            config,
            role: NodeRole::Follower,
            current_term: 0,
            commit_len: 0,
            voted_for: None,
            leader_id: None,
            log: Vec::new(),
            rng: new_seeded_rng(seed),
        };
        assert(r@.log =~= Seq::<LogEntry>::empty());
        r
    }

    /// Arm the first election timer. Must be called once before any event.
    pub fn start(&mut self) -> (r: SideEffects)
        requires
            old(self).wf(),
        ensures
            final(self).wf(),
            final(self)@ == old(self)@,
            exists|j: u64|
                j < old(self)@.election_timeout && effects_view(r@) == seq![
                    election_timer_effect(old(self)@, j),
                ],
            r@.len() == 1,
            r@[0] is SetTimer,
            old(self)@.election_timeout <= crate::api::timer_duration(r@[0]) < 2 * old(
                self,
            )@.election_timeout,
    {
        let j = rng_below(&mut self.rng, self.config.election_timeout);
        let timer = self.set_election_timer(j);
        let mut effects: SideEffects = Vec::new();
        effects.push(timer);
        proof {
            assert(effects_view(effects@) =~= seq![election_timer_effect(self@, j)]);
        }
        effects
    }

    /// The most recent leader this node has acknowledged, if any.
    pub fn get_leader(&self) -> (r: Option<NodeId>)
        ensures
            r == self@.leader_id,
    {
        self.leader_id
    }

    /// The role the node currently plays.
    pub fn get_role(&self) -> (r: &NodeRole)
        ensures
            r@ == self@.role,
    {
        &self.role
    }

    /// The highest term the node has observed.
    pub fn get_current_term(&self) -> (r: Term)
        ensures
            r == self@.current_term,
    {
        self.current_term
    }

    /// Deliver one event: the sole mutator. The machine moves to exactly
    /// the state of the specification transition and returns exactly its
    /// side effects, for the drawn election jitter.
    pub fn on_event(&mut self, event: Event) -> (r: SideEffects)
        requires
            old(self).wf(),
        ensures
            final(self).wf(),
            final(self)@ == step(old(self)@, event@),
            exists|j: u64|
                j < old(self)@.election_timeout && effects_view(r@) == #[trigger] step_full(
                    old(self)@,
                    event@,
                    j,
                ).1,
    {
        let j = rng_below(&mut self.rng, self.config.election_timeout);
        let ghost pre = self@;
        let ghost ev = event@;
        let r = match event {
            Event::TimerUp => {
                if self.is_leader() {
                    self.send_heartbeat()
                } else {
                    self.start_new_election(j)
                }
            },
            Event::ReceivedRpc(rpc) => match rpc {
                Rpc::VoteRequest(r) => self.handle_vote_request(r, j),
                Rpc::VoteResponse(r) => self.handle_vote_response(r, j),
                Rpc::ReplicateLogRequest(r) => self.handle_replicate_log_request(r, j),
                Rpc::ReplicateLogResponse(r) => self.handle_replicate_log_response(r, j),
                Rpc::ProposeValueRequest(r) => self.handle_propose_value_request(r),
            },
        };
        proof {
            crate::laws::lemma_step_state_ignores_jitter(pre, ev, j);
            assert(effects_view(r@) == step_full(pre, ev, j).1);
        }
        r
    }

    // --- Role and timer helpers -------------------------------------------

    fn is_leader(&self) -> (r: bool)
        ensures
            r == (self@.role is Leader),
    {
        match &self.role {
            NodeRole::Leader(_) => true,
            _ => false,
        }
    }

    fn set_election_timer(&self, jitter: u64) -> (r: SideEffect)
        requires
            self.wf(),
            jitter < self@.election_timeout,
        ensures
            r@ == election_timer_effect(self@, jitter),
    {
        SideEffect::SetTimer { duration: self.config.election_timeout + jitter }
    }

    fn set_heartbeat_timer(&self) -> (r: SideEffect)
        ensures
            r@ == heartbeat_timer_effect(self@),
    {
        SideEffect::SetTimer { duration: self.config.heartbeat_interval }
    }

    /// The identifier just past the log: `(last term, length)`.
    fn last_log_id(&self) -> (r: LogEntryId)
        ensures
            r == (LogEntryId { term: last_term(self@.log), index: self@.log.len() as usize }),
            self@.log.len() <= usize::MAX,
    {
        self.log_id_at(self.log.len())
    }

    /// The identifier of the entry at 1-based position `i` (0 for `i == 0`).
    fn log_id_at(&self, i: usize) -> (r: LogEntryId)
        requires
            i <= self@.log.len(),
        ensures
            r == (LogEntryId { term: term_at(self@.log, i as int), index: i }),
    {
        let term = if i > 0 {
            self.log[i - 1].term
        } else {
            0
        };
        LogEntryId { term, index: i }
    }

    fn nodes_majority(&self) -> (r: usize)
        ensures
            r as int == majority(self@.cluster.len() as int),
    {
        self.config.cluster.len() / 2 + 1
    }

    /// If `term` is ahead of the node, adopt it and fall back to an
    /// undecided follower.
    fn maybe_advance_current_term(&mut self, term: Term) -> (advanced: bool)
        requires
            old(self).wf(),
        ensures
            final(self).wf(),
            final(self)@ == advance_term(old(self)@, term),
            advanced == (term > old(self)@.current_term),
    {
        if self.current_term < term {
            self.current_term = term;
            self.role = NodeRole::Follower;
            self.voted_for = None;
            self.leader_id = None;
            true
        } else {
            false
        }
    }

    // --- Elections ---------------------------------------------------------

    fn start_new_election(&mut self, jitter: u64) -> (r: SideEffects)
        requires
            old(self).wf(),
            jitter < old(self)@.election_timeout,
        ensures
            final(self).wf(),
            final(self)@ == sf_new_election(old(self)@, jitter).0,
            effects_view(r@) == sf_new_election(old(self)@, jitter).1,
    {
        if self.current_term == u64::MAX {
            let timer = self.set_election_timer(jitter);
            let mut effects: SideEffects = Vec::new();
            effects.push(timer);
            proof {
                assert(effects_view(effects@) =~= sf_new_election(self@, jitter).1);
            }
            return effects;
        }
        let mut votes: Vec<NodeId> = Vec::new();
        votes.push(self.config.node_id);
        proof {
            assert(votes@ =~= seq![self@.node_id]);
        }
        self.role = NodeRole::Candidate(CandidateState { votes_received: votes });
        self.current_term = self.current_term + 1;
        self.voted_for = Some(self.config.node_id);
        let mut effects: SideEffects = Vec::new();
        self.broadcast_vote_requests(&mut effects);
        let timer = self.set_election_timer(jitter);
        effects.push(timer);
        proof {
            lemma_effects_view_push(effects@.drop_last(), effects@.last());
            assert(effects@.drop_last().push(effects@.last()) =~= effects@);
        }
        effects
    }

    /// One vote request per other cluster member, appended in cluster order.
    fn broadcast_vote_requests(&self, effects: &mut SideEffects)
        requires
            self.wf(),
        ensures
            effects_view(final(effects)@) == effects_view(old(effects)@) + vote_round(
                self@,
                self@.cluster,
            ),
    {
        let last_log = self.last_log_id();
        let mut i: usize = 0;
        while i < self.config.cluster.len()
            invariant
                self.wf(),
                i <= self@.cluster.len(),
                last_log == (LogEntryId {
                    term: last_term(self@.log),
                    index: self@.log.len() as usize,
                }),
                effects_view(effects@) == effects_view(old(effects)@) + vote_round(
                    self@,
                    self@.cluster.take(i as int),
                ),
            decreases self@.cluster.len() - i,
        {
            let ghost before = effects@;
            let peer = self.config.cluster[i];
            if peer != self.config.node_id {
                effects.push(
                    SideEffect::SendRpc {
                        to: peer,
                        rpc: Rpc::VoteRequest(
                            VoteRequestRpc {
                                candidate_id: self.config.node_id,
                                term: self.current_term,
                                last_log,
                            },
                        ),
                    },
                );
                proof {
                    lemma_effects_view_push(before, effects@.last());
                }
            }
            proof {
                assert(self@.cluster.take(i + 1).drop_last() =~= self@.cluster.take(i as int));
                assert(self@.cluster.take(i + 1).last() == self@.cluster[i as int]);
            }
            i = i + 1;
        }
        proof {
            assert(self@.cluster.take(self@.cluster.len() as int) =~= self@.cluster);
        }
    }

    /// A heartbeat: one full replication round, then a fresh heartbeat timer.
    fn send_heartbeat(&mut self) -> (r: SideEffects)
        requires
            old(self).wf(),
            old(self)@.role is Leader,
        ensures
            final(self).wf(),
            final(self)@ == old(self)@,
            effects_view(r@) == repl_round(
                old(self)@,
                role_replication(old(self)@.role),
                old(self)@.cluster,
            ) + seq![heartbeat_timer_effect(old(self)@)],
    {
        let mut effects: SideEffects = Vec::new();
        self.replicate_log_all_nodes(&mut effects);
        let timer = self.set_heartbeat_timer();
        let ghost before = effects@;
        effects.push(timer);
        proof {
            lemma_effects_view_push(before, effects@.last());
        }
        effects
    }

    fn handle_vote_request(&mut self, rpc: VoteRequestRpc, jitter: u64) -> (r: SideEffects)
        requires
            old(self).wf(),
            jitter < old(self)@.election_timeout,
        ensures
            final(self).wf(),
            final(self)@ == sf_vote_request(old(self)@, rpc, jitter).0,
            effects_view(r@) == sf_vote_request(old(self)@, rpc, jitter).1,
    {
        let ghost pre = self@;
        let term_ok = rpc.term >= self.current_term;
        let advanced = self.maybe_advance_current_term(rpc.term);
        let vote_ok = match self.voted_for {
            Some(id) => id == rpc.candidate_id,
            None => true,
        };
        let own = self.last_log_id();
        let log_ok = log_id_le_exec(own, rpc.last_log);
        let vote_granted = term_ok && vote_ok && log_ok;
        if vote_granted && self.voted_for.is_none() {
            self.voted_for = Some(rpc.candidate_id);
        }
        let mut effects: SideEffects = Vec::new();
        if vote_granted || advanced {
            let timer = self.set_election_timer(jitter);
            effects.push(timer);
        }
        let ghost before = effects@;
        effects.push(
            SideEffect::SendRpc {
                to: rpc.candidate_id,
                rpc: Rpc::VoteResponse(
                    VoteResponseRpc {
                        node_id: self.config.node_id,
                        vote_granted,
                        current_term: self.current_term,
                    },
                ),
            },
        );
        proof {
            lemma_effects_view_push(before, effects@.last());
            assert(effects_view(effects@) =~= sf_vote_request(pre, rpc, jitter).1);
        }
        effects
    }

    fn handle_vote_response(&mut self, rpc: VoteResponseRpc, jitter: u64) -> (r: SideEffects)
        requires
            old(self).wf(),
            jitter < old(self)@.election_timeout,
        ensures
            final(self).wf(),
            final(self)@ == sf_vote_response(old(self)@, rpc, jitter).0,
            effects_view(r@) == sf_vote_response(old(self)@, rpc, jitter).1,
    {
        let mut effects: SideEffects = Vec::new();
        if self.current_term == rpc.current_term && rpc.vote_granted {
            let total = match &mut self.role {
                NodeRole::Candidate(st) => {
                    if !contains_id(&st.votes_received, rpc.node_id) {
                        st.votes_received.push(rpc.node_id);
                    }
                    st.votes_received.len()
                },
                _ => {
                    return effects;
                },
            };
            if total >= self.nodes_majority() {
                self.transition_to_leader();
                self.replicate_log_all_nodes(&mut effects);
                let timer = self.set_heartbeat_timer();
                let ghost before = effects@;
                effects.push(timer);
                proof {
                    lemma_effects_view_push(before, effects@.last());
                }
            }
        } else if self.maybe_advance_current_term(rpc.current_term) {
            let timer = self.set_election_timer(jitter);
            effects.push(timer);
            proof {
                assert(effects_view(effects@) =~= seq![election_timer_effect(old(self)@, jitter)]);
            }
        }
        effects
    }

    /// Install the leader role with a fresh replication table.
    fn transition_to_leader(&mut self)
        requires
            old(self).wf(),
        ensures
            final(self).wf(),
            final(self)@ == (NodeView {
                role: RoleView::Leader {
                    replication: init_replication(
                        old(self)@.cluster,
                        old(self)@.node_id,
                        old(self)@.log.len() as usize,
                    ),
                },
                ..old(self)@
            }),
    {
        let log_len = self.log.len();
        let next = if log_len < usize::MAX {
            log_len + 1
        } else {
            usize::MAX
        };
        assert(next == next_position(self@.log.len() as usize));
        let mut replication: Vec<(NodeId, NodeReplicationState)> = Vec::new();
        let mut i: usize = 0;
        while i < self.config.cluster.len()
            invariant
                self.wf(),
                i <= self@.cluster.len(),
                next == next_position(self@.log.len() as usize),
                replication@ == init_replication(
                    self@.cluster.take(i as int),
                    self@.node_id,
                    self@.log.len() as usize,
                ),
            decreases self@.cluster.len() - i,
        {
            let peer = self.config.cluster[i];
            if peer != self.config.node_id {
                replication.push((peer, NodeReplicationState { next_index: next, match_index: 0 }));
            }
            proof {
                assert(self@.cluster.take(i + 1).drop_last() =~= self@.cluster.take(i as int));
                assert(self@.cluster.take(i + 1).last() == self@.cluster[i as int]);
            }
            i = i + 1;
        }
        proof {
            assert(self@.cluster.take(self@.cluster.len() as int) =~= self@.cluster);
        }
        self.role = NodeRole::Leader(LeaderState { replication });
    }

    // --- Log replication ---------------------------------------------------

    fn handle_replicate_log_request(&mut self, rpc: ReplicateLogRequestRpc, jitter: u64) -> (r:
        SideEffects)
        requires
            old(self).wf(),
            jitter < old(self)@.election_timeout,
        ensures
            final(self).wf(),
            final(self)@ == sf_replicate_request(old(self)@, rpc@, jitter).0,
            effects_view(r@) == sf_replicate_request(old(self)@, rpc@, jitter).1,
    {
        let mut effects: SideEffects = Vec::new();
        let term_ok = rpc.term >= self.current_term;
        if term_ok {
            let timer = self.set_election_timer(jitter);
            effects.push(timer);
            self.maybe_advance_current_term(rpc.term);
            self.leader_id = Some(rpc.leader_id);
        }
        let len_ok = self.log.len() >= rpc.prev_log.index;
        let log_ok = len_ok && (rpc.prev_log.index == 0 || self.term_at_index(rpc.prev_log.index)
            == rpc.prev_log.term);
        let success = term_ok && log_ok;
        if success {
            self.log.truncate(rpc.prev_log.index);
            let mut entries = rpc.entries;
            self.log.append(&mut entries);
            if self.commit_len < rpc.commit_len {
                let capped = if rpc.commit_len < self.log.len() {
                    rpc.commit_len
                } else {
                    self.log.len()
                };
                if capped > self.commit_len {
                    self.commit_entries(capped, &mut effects);
                }
            }
        }
        let ghost before = effects@;
        effects.push(
            SideEffect::SendRpc {
                to: rpc.leader_id,
                rpc: Rpc::ReplicateLogResponse(
                    ReplicateLogResponseRpc {
                        node_id: self.config.node_id,
                        request_term: rpc.term,
                        current_term: self.current_term,
                        log_len: self.log.len(),
                        success,
                    },
                ),
            },
        );
        proof {
            lemma_effects_view_push(before, effects@.last());
        }
        effects
    }

    /// The term at 1-based position `i` of the log.
    fn term_at_index(&self, i: usize) -> (r: Term)
        requires
            1 <= i <= self@.log.len(),
        ensures
            r == term_at(self@.log, i as int),
    {
        self.log[i - 1].term
    }

    /// Advance the commit length to `new_commit`, announcing each newly
    /// committed payload in ascending index order.
    fn commit_entries(&mut self, new_commit: usize, effects: &mut SideEffects)
        requires
            old(self).wf(),
            old(self)@.commit_len <= new_commit <= old(self)@.log.len(),
        ensures
            final(self).wf(),
            final(self)@ == (NodeView { commit_len: new_commit as int, ..old(self)@ }),
            effects_view(final(effects)@) == effects_view(old(effects)@) + committed_effects(
                old(self)@.log,
                old(self)@.commit_len,
                new_commit as int,
            ),
    {
        let mut i: usize = self.commit_len;
        while i < new_commit
            invariant
                self.wf(),
                self@ == old(self)@,
                old(self)@.commit_len <= i <= new_commit,
                new_commit <= self@.log.len(),
                effects_view(effects@) == effects_view(old(effects)@) + committed_effects(
                    self@.log,
                    self@.commit_len,
                    i as int,
                ),
            decreases new_commit - i,
        {
            let ghost before = effects@;
            effects.push(SideEffect::ValueCommitted { value: self.log[i].data });
            proof {
                lemma_effects_view_push(before, effects@.last());
                lemma_committed_effects_snoc(self@.log, self@.commit_len, i as int);
            }
            i = i + 1;
        }
        self.commit_len = new_commit;
    }

    fn handle_replicate_log_response(&mut self, rpc: ReplicateLogResponseRpc, jitter: u64) -> (r:
        SideEffects)
        requires
            old(self).wf(),
            jitter < old(self)@.election_timeout,
        ensures
            final(self).wf(),
            final(self)@ == sf_replicate_response(old(self)@, rpc, jitter).0,
            effects_view(r@) == sf_replicate_response(old(self)@, rpc, jitter).1,
    {
        let mut effects: SideEffects = Vec::new();
        if self.maybe_advance_current_term(rpc.current_term) {
            let timer = self.set_election_timer(jitter);
            effects.push(timer);
            proof {
                assert(effects_view(effects@) =~= seq![election_timer_effect(old(self)@, jitter)]);
            }
            return effects;
        }
        if self.current_term != rpc.request_term {
            return effects;
        }
        if !self.is_leader() {
            return effects;
        }
        let found = self.find_replication(rpc.node_id);
        let (i, cur) = match found {
            Some(pair) => pair,
            None => {
                return effects;
            },
        };
        if rpc.success {
            if rpc.log_len > cur.match_index {
                let next = if rpc.log_len < usize::MAX {
                    rpc.log_len + 1
                } else {
                    usize::MAX
                };
                self.set_replication_at(
                    i,
                    rpc.node_id,
                    NodeReplicationState { next_index: next, match_index: rpc.log_len },
                );
                self.maybe_commit_leader_entries(&mut effects);
            }
        } else {
            let backed = if cur.next_index > 1 {
                cur.next_index - 1
            } else {
                cur.next_index
            };
            self.set_replication_at(
                i,
                rpc.node_id,
                NodeReplicationState { next_index: backed, match_index: cur.match_index },
            );
            let request = self.replicate_log(rpc.node_id);
            let ghost before = effects@;
            effects.push(request);
            proof {
                lemma_effects_view_push(before, effects@.last());
                assert(effects_view(effects@) =~= seq![effects@.last()@]);
            }
        }
        effects
    }

    /// The first replication row for `id`, with its position.
    fn find_replication(&self, id: NodeId) -> (r: Option<(usize, NodeReplicationState)>)
        requires
            self@.role is Leader,
        ensures
            match r {
                Some(pair) => {
                    let repl = role_replication(self@.role);
                    &&& pair.0 < repl.len()
                    &&& repl[pair.0 as int].0 == id
                    &&& forall|k: int| 0 <= k < pair.0 ==> repl[k].0 != id
                    &&& pair.1 == repl[pair.0 as int].1
                    &&& repl_contains(repl, id)
                    &&& pair.1 == repl_lookup(repl, id)
                },
                None => !repl_contains(role_replication(self@.role), id),
            },
    {
        let repl = match &self.role {
            NodeRole::Leader(st) => &st.replication,
            _ => {
                proof {
                    assert(false);
                }
                vstd::pervasive::unreached()
            },
        };
        let mut k: usize = 0;
        while k < repl.len()
            invariant
                repl@ == role_replication(self@.role),
                k <= repl@.len(),
                forall|j: int| 0 <= j < k ==> repl@[j].0 != id,
            decreases repl@.len() - k,
        {
            if repl[k].0 == id {
                proof {
                    lemma_repl_first_index(
                        repl@,
                        id,
                        k as int,
                        NodeReplicationState { next_index: 1, match_index: 0 },
                    );
                }
                return Some((k, repl[k].1));
            }
            k = k + 1;
        }
        proof {
            lemma_repl_absent(repl@, id);
        }
        None
    }

    /// Replace the replication row at `i`, known to be the first for `id`.
    fn set_replication_at(&mut self, i: usize, id: NodeId, st: NodeReplicationState)
        requires
            old(self).wf(),
            old(self)@.role is Leader,
            i < role_replication(old(self)@.role).len(),
            role_replication(old(self)@.role)[i as int].0 == id,
            forall|k: int| 0 <= k < i ==> role_replication(old(self)@.role)[k].0 != id,
        ensures
            final(self).wf(),
            final(self)@ == (NodeView {
                role: RoleView::Leader {
                    replication: repl_update(role_replication(old(self)@.role), id, st),
                },
                ..old(self)@
            }),
    {
        proof {
            lemma_repl_first_index(role_replication(old(self)@.role), id, i as int, st);
        }
        match &mut self.role {
            NodeRole::Leader(lead) => {
                lead.replication.set(i, (id, st));
            },
            _ => {
                proof {
                    assert(false);
                }
            },
        }
    }

    /// Advance the leader's commit length to the majority-highest match
    /// index, under the current-term guard, propagating at once.
    fn maybe_commit_leader_entries(&mut self, effects: &mut SideEffects)
        requires
            old(self).wf(),
            old(self)@.role is Leader,
            old(self)@.commit_len >= 0,
        ensures
            final(self).wf(),
            ({
                let pre = old(self)@;
                let repl = role_replication(pre.role);
                let n = majority_match_index(
                    repl,
                    pre.log.len() as int,
                    majority(pre.cluster.len() as int),
                );
                if n > pre.commit_len && term_at(pre.log, n) == pre.current_term {
                    &&& final(self)@ == (NodeView { commit_len: n, ..pre })
                    &&& effects_view(final(effects)@) == effects_view(old(effects)@)
                        + committed_effects(pre.log, pre.commit_len, n) + repl_round(
                        NodeView { commit_len: n, ..pre },
                        repl,
                        pre.cluster,
                    )
                } else {
                    &&& final(self)@ == pre
                    &&& final(effects)@ == old(effects)@
                }
            }),
    {
        let n = self.leader_majority_match_index();
        proof {
            crate::laws::lemma_majority_match_bounds(
                role_replication(self@.role),
                self@.log.len() as int,
                majority(self@.cluster.len() as int),
            );
        }
        if n > self.commit_len {
            if self.term_at_index(n) == self.current_term {
                self.commit_entries(n, effects);
                self.replicate_log_all_nodes(effects);
            }
        }
    }

    /// The majority-highest match index over the leader's own log length
    /// and every peer's match index, each bounded by the log length.
    fn leader_majority_match_index(&self) -> (n: usize)
        requires
            self.wf(),
            self@.role is Leader,
        ensures
            n as int == majority_match_index(
                role_replication(self@.role),
                self@.log.len() as int,
                majority(self@.cluster.len() as int),
            ),
    {
        let maj = self.nodes_majority();
        let log_len = self.log.len();
        let repl = match &self.role {
            NodeRole::Leader(st) => &st.replication,
            _ => {
                proof {
                    assert(false);
                }
                vstd::pervasive::unreached()
            },
        };
        let mut best: usize = if count_at_least_exec(repl, log_len, log_len, maj) {
            log_len
        } else {
            0
        };
        let mut i: usize = 0;
        while i < repl.len()
            invariant
                repl@ == role_replication(self@.role),
                i <= repl@.len(),
                log_len == self@.log.len(),
                maj as int == majority(self@.cluster.len() as int),
                best as int == best_quorum_index(
                    repl@.take(i as int),
                    repl@,
                    log_len as int,
                    maj as int,
                ),
            decreases repl@.len() - i,
        {
            let x = if repl[i].1.match_index < log_len {
                repl[i].1.match_index
            } else {
                log_len
            };
            if x > best && count_at_least_exec(repl, log_len, x, maj) {
                best = x;
            }
            proof {
                assert(repl@.take(i + 1).drop_last() =~= repl@.take(i as int));
                assert(repl@.take(i + 1).last() == repl@[i as int]);
            }
            i = i + 1;
        }
        proof {
            assert(repl@.take(repl@.len() as int) =~= repl@);
        }
        best
    }

    /// One replication request per other cluster member, appended in
    /// cluster order.
    fn replicate_log_all_nodes(&self, effects: &mut SideEffects)
        requires
            self.wf(),
            self@.role is Leader,
        ensures
            effects_view(final(effects)@) == effects_view(old(effects)@) + repl_round(
                self@,
                role_replication(self@.role),
                self@.cluster,
            ),
    {
        let mut i: usize = 0;
        while i < self.config.cluster.len()
            invariant
                self.wf(),
                self@.role is Leader,
                i <= self@.cluster.len(),
                effects_view(effects@) == effects_view(old(effects)@) + repl_round(
                    self@,
                    role_replication(self@.role),
                    self@.cluster.take(i as int),
                ),
            decreases self@.cluster.len() - i,
        {
            let peer = self.config.cluster[i];
            if peer != self.config.node_id {
                let request = self.replicate_log(peer);
                let ghost before = effects@;
                effects.push(request);
                proof {
                    lemma_effects_view_push(before, effects@.last());
                }
            }
            proof {
                assert(self@.cluster.take(i + 1).drop_last() =~= self@.cluster.take(i as int));
                assert(self@.cluster.take(i + 1).last() == self@.cluster[i as int]);
            }
            i = i + 1;
        }
        proof {
            assert(self@.cluster.take(self@.cluster.len() as int) =~= self@.cluster);
        }
    }

    /// The replication request towards one peer, from the position the
    /// leader believes the peer has.
    fn replicate_log(&self, node_id: NodeId) -> (r: SideEffect)
        requires
            self.wf(),
            self@.role is Leader,
        ensures
            r@ == (crate::api::EffectView::SendRpc {
                to: node_id,
                rpc: replicate_rpc_to(self@, role_replication(self@.role), node_id),
            }),
    {
        let found = self.find_replication(node_id);
        let next = match found {
            Some(pair) => pair.1.next_index,
            None => {
                proof {
                    lemma_repl_lookup_absent(role_replication(self@.role), node_id);
                }
                1
            },
        };
        assert(next == repl_lookup(role_replication(self@.role), node_id).next_index);
        let prev_idx = if next >= 1 {
            if next - 1 < self.log.len() {
                next - 1
            } else {
                self.log.len()
            }
        } else {
            0
        };
        let prev_log = self.log_id_at(prev_idx);
        let entries = self.logs_tail(prev_idx);
        SideEffect::SendRpc {
            to: node_id,
            rpc: Rpc::ReplicateLogRequest(
                ReplicateLogRequestRpc {
                    leader_id: self.config.node_id,
                    term: self.current_term,
                    prev_log,
                    entries,
                    commit_len: self.commit_len,
                },
            ),
        }
    }

    /// A copy of the log from 0-based position `from` on.
    fn logs_tail(&self, from: usize) -> (r: Vec<LogEntry>)
        requires
            from <= self@.log.len(),
        ensures
            r@ == self@.log.skip(from as int),
    {
        let mut entries: Vec<LogEntry> = Vec::new();
        let mut k: usize = from;
        while k < self.log.len()
            invariant
                from <= k <= self@.log.len(),
                entries@ == self@.log.subrange(from as int, k as int),
            decreases self@.log.len() - k,
        {
            entries.push(self.log[k]);
            proof {
                assert(self@.log.subrange(from as int, k + 1) =~= self@.log.subrange(
                    from as int,
                    k as int,
                ).push(self@.log[k as int]));
            }
            k = k + 1;
        }
        proof {
            assert(self@.log.subrange(from as int, self@.log.len() as int) =~= self@.log.skip(
                from as int,
            ));
        }
        entries
    }

    // --- Proposals ---------------------------------------------------------

    fn handle_propose_value_request(&mut self, rpc: ProposeValueRequestRpc) -> (r: SideEffects)
        requires
            old(self).wf(),
        ensures
            final(self).wf(),
            final(self)@ == sf_propose(old(self)@, rpc).0,
            effects_view(r@) == sf_propose(old(self)@, rpc).1,
    {
        let mut effects: SideEffects = Vec::new();
        if self.is_leader() {
            self.log.push(LogEntry { data: rpc.value, term: self.current_term });
            self.replicate_log_all_nodes(&mut effects);
            let timer = self.set_heartbeat_timer();
            let ghost before = effects@;
            effects.push(timer);
            proof {
                lemma_effects_view_push(before, effects@.last());
            }
        } else {
            match self.leader_id {
                Some(leader) => {
                    effects.push(
                        SideEffect::SendRpc { to: leader, rpc: Rpc::ProposeValueRequest(rpc) },
                    );
                    proof {
                        assert(effects_view(effects@) =~= sf_propose(self@, rpc).1);
                    }
                },
                None => {},
            }
        }
        effects
    }
}

/// Whether at least `maj` cluster members (the leader counted through
/// `log_len`) are known to hold a log of length at least `x`.
fn count_at_least_exec(
    repl: &Vec<(NodeId, NodeReplicationState)>,
    log_len: usize,
    x: usize,
    maj: usize,
) -> (r: bool)
    ensures
        r == (count_at_least(repl@, log_len as int, x as int) >= maj as int),
{
    let mut cnt: usize = if log_len >= x && maj > 0 {
        1
    } else {
        0
    };
    let mut i: usize = 0;
    while i < repl.len()
        invariant
            i <= repl@.len(),
            cnt as int == imin(maj as int, count_at_least(repl@.take(i as int), log_len as int, x as int)),
        decreases repl@.len() - i,
    {
        let m = if repl[i].1.match_index < log_len {
            repl[i].1.match_index
        } else {
            log_len
        };
        if m >= x && cnt < maj {
            cnt = cnt + 1;
        }
        proof {
            assert(repl@.take(i + 1).drop_last() =~= repl@.take(i as int));
            assert(repl@.take(i + 1).last() == repl@[i as int]);
        }
        i = i + 1;
    }
    proof {
        assert(repl@.take(repl@.len() as int) =~= repl@);
    }
    cnt >= maj
}

} // verus!
