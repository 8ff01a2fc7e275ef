//! A deterministic discrete-event simulator that drives one Raft state
//! machine per cluster node in virtual time, with per-directed-pair
//! message-drop ratios and seeded randomness.

use vstd::prelude::*;

use crate::api::{
    Event, EventView, LogEntryValue, NodeConfig, NodeId, NodeView, ProposeValueRequestRpc, Rpc,
    SideEffect, effects_view,
};
use crate::laws::committed_of;
use crate::model::{step, step_full};
use crate::rng::{new_seeded_rng, rng_below};
use crate::state::RaftStateMachine;

verus! {

/// Default election timeout, in virtual ticks.
pub const DEFAULT_ELECTION_TIMEOUT: u64 = 200;

/// Default heartbeat interval, in virtual ticks.
pub const DEFAULT_HEARTBEAT_INTERVAL: u64 = 50;

/// Default one-way message latency, in virtual ticks.
pub const DEFAULT_RPC_LATENCY: u64 = 10;

/// Default deadline for `wait`, in virtual ticks.
pub const DEFAULT_WAIT_TIMEOUT: u64 = 2000;

/// The denominator of every drop ratio: a ratio of this value drops all
/// messages, a ratio of 0 none.
pub const DROP_RATIO_UNIT: u32 = 1000000;

/// The seed the default configuration runs on.
pub const DEFAULT_SEED: u64 = 7;

/// Saturating addition on virtual time.
pub open spec fn sat_add(a: u64, b: u64) -> u64 {
    if a + b > u64::MAX {
        u64::MAX
    } else {
        (a + b) as u64
    }
}

/// Saturating addition on virtual time.
pub fn sat_add_u64(a: u64, b: u64) -> (r: u64)
    ensures
        r == sat_add(a, b),
{
    if a <= u64::MAX - b {
        a + b
    } else {
        u64::MAX
    }
}

/// One scheduled input: delivery time, target node, per-node sequence
/// index, and the event itself. The heap orders by `(time, node, index)`.
pub struct TimedEvent {
    pub time: u64,
    pub node: NodeId,
    pub index: u64,
    pub event: Event,
}

/// The strict scheduling order on events.
pub open spec fn event_before(a: TimedEvent, b: TimedEvent) -> bool {
    ||| a.time < b.time
    ||| (a.time == b.time && a.node < b.node)
    ||| (a.time == b.time && a.node == b.node && a.index < b.index)
}

fn event_before_exec(a: &TimedEvent, b: &TimedEvent) -> (r: bool)
    ensures
        r == event_before(*a, *b),
{
    a.time < b.time || (a.time == b.time && (a.node < b.node || (a.node == b.node && a.index
        < b.index)))
}

/// No node id occurs twice.
pub open spec fn distinct_ids(ids: Seq<NodeId>) -> bool {
    forall|i: int, j: int| 0 <= i < j < ids.len() ==> ids[i] != ids[j]
}

/// The first position of `id`.
pub open spec fn first_index_of(ids: Seq<NodeId>, id: NodeId) -> int
    decreases ids.len(),
{
    if ids.len() == 0 {
        0
    } else if ids[0] == id {
        0
    } else {
        1 + first_index_of(ids.drop_first(), id)
    }
}

/// A position with no earlier occurrence is the first position.
pub proof fn lemma_first_index_of(ids: Seq<NodeId>, id: NodeId, i: int)
    requires
        0 <= i < ids.len(),
        ids[i] == id,
        forall|k: int| 0 <= k < i ==> ids[k] != id,
    ensures
        first_index_of(ids, id) == i,
    decreases i,
{
    if i > 0 {
        lemma_first_index_of(ids.drop_first(), id, i - 1);
    }
}

/// A valid outcome of the drop-sampling draw.
pub open spec fn below_unit(u: u64) -> bool {
    u < DROP_RATIO_UNIT as u64
}

/// A valid outcome of the election-jitter draw.
pub open spec fn jitter_draw(j: u64, bound: u64) -> bool {
    j < bound
}

/// The first position of a contained id is a valid position holding it.
pub proof fn lemma_first_index_in_range(ids: Seq<NodeId>, id: NodeId)
    requires
        ids.contains(id),
    ensures
        0 <= first_index_of(ids, id) < ids.len(),
        ids[first_index_of(ids, id)] == id,
    decreases ids.len(),
{
    if ids[0] != id {
        assert(ids.drop_first().contains(id)) by {
            let w = choose|w: int| 0 <= w < ids.len() && ids[w] == id;
            assert(ids.drop_first()[w - 1] == id);
        }
        lemma_first_index_in_range(ids.drop_first(), id);
    }
}

/// Timer durations are floored at one tick so virtual time always moves.
pub open spec fn timer_floor(d: u64) -> u64 {
    if d >= 1 {
        d
    } else {
        1
    }
}

/// Whether executing `eff` at instant `at` may schedule the event `e`:
/// a timer effect becomes a `TimerUp` after its (floored) duration; a
/// send becomes the delivery of exactly that RPC at the target after one
/// network latency; a committed value schedules nothing.
pub open spec fn effect_schedules(eff: crate::api::EffectView, e: TimedEvent, at: u64, latency: u64) -> bool {
    match eff {
        crate::api::EffectView::SetTimer { duration } => e.event is TimerUp && e.time == sat_add(
            at,
            timer_floor(duration),
        ),
        crate::api::EffectView::SendRpc { to, rpc } => e.node == to && e.event@
            == EventView::ReceivedRpc(rpc) && e.time == sat_add(at, latency),
        crate::api::EffectView::ValueCommitted { .. } => false,
    }
}

/// The event at queue position `base + i` is node `i`'s live election
/// timer: a `TimerUp` due one randomized election delay from now, whose
/// sequence index the node records as its only live timer.
pub open spec fn live_timer_scheduled(v: DriverView, base: int, i: int) -> bool {
    let e = v.events[base + i];
    &&& e.node == v.cluster[i]
    &&& e.event is TimerUp
    &&& v.nodes[i].timer_event_index == e.index
    &&& exists|d: u64|
        v.election_timeout <= d < 2 * v.election_timeout && e.time == sat_add(v.time, d)
}

/// Whether the event arises from one of the listed effects.
pub open spec fn event_from_effects(
    e: TimedEvent,
    effs: Seq<crate::api::EffectView>,
    at: u64,
    latency: u64,
) -> bool {
    exists|m: int| 0 <= m < effs.len() && effect_schedules(#[trigger] effs[m], e, at, latency)
}

/// One simulated node: its machine, its event-sequence counter, the
/// index of its live timer, and every value it has committed so far.
pub struct NodeState {
    node_id: NodeId,
    raft: RaftStateMachine,
    next_event_index: u64,
    timer_event_index: u64,
    committed_values: Vec<LogEntryValue>,
}

/// The abstract state of one simulated node.
#[verifier::ext_equal]
pub struct NodeStateView {
    pub node_id: NodeId,
    pub raft: NodeView,
    pub next_event_index: u64,
    pub timer_event_index: u64,
    pub committed_values: Seq<LogEntryValue>,
}

impl View for NodeState {
    type V = NodeStateView;

    closed spec fn view(&self) -> NodeStateView {
        NodeStateView {
            node_id: self.node_id,
            raft: self.raft@,
            next_event_index: self.next_event_index,
            timer_event_index: self.timer_event_index,
            committed_values: self.committed_values@,
        }
    }
}

/// Simulator configuration: the cluster and its timing, and the seed all
/// randomness is derived from.
pub struct DriverConfig {
    pub cluster: Vec<NodeId>,
    pub election_timeout: u64,
    pub heartbeat_interval: u64,
    pub rpc_latency: u64,
    pub seed: u64,
}

impl DriverConfig {
    /// Timing a simulation can run on: positive durations, an election
    /// timeout whose randomized double cannot overflow.
    pub open spec fn wf(&self) -> bool {
        &&& 1 <= self.election_timeout
        &&& self.election_timeout <= u64::MAX / 2
        &&& 1 <= self.heartbeat_interval
        &&& 1 <= self.rpc_latency
        &&& distinct_ids(self.cluster@)
    }

    /// A cluster of `node_cnt` nodes with ids `1..=node_cnt` and the
    /// default timing and seed.
    pub fn with_nodes(node_cnt: usize) -> (r: Self)
        ensures
            r.wf(),
            r.cluster@.len() == node_cnt,
            forall|i: int| 0 <= i < node_cnt ==> r.cluster@[i] == i + 1,
            r.election_timeout == DEFAULT_ELECTION_TIMEOUT,
            r.heartbeat_interval == DEFAULT_HEARTBEAT_INTERVAL,
            r.rpc_latency == DEFAULT_RPC_LATENCY,
            r.seed == DEFAULT_SEED,
    {
        let mut cluster: Vec<NodeId> = Vec::new();
        let mut i: usize = 0;
        while i < node_cnt
            invariant
                i <= node_cnt,
                cluster@.len() == i,
                forall|k: int| 0 <= k < i ==> cluster@[k] == k + 1,
            decreases node_cnt - i,
        {
            cluster.push((i as u64) + 1);
            i = i + 1;
        }
        Self {
            cluster,
            election_timeout: DEFAULT_ELECTION_TIMEOUT,
            heartbeat_interval: DEFAULT_HEARTBEAT_INTERVAL,
            rpc_latency: DEFAULT_RPC_LATENCY,
            seed: DEFAULT_SEED,
        }
    }
}

impl Default for DriverConfig {
    /// Three nodes with the default timing and seed.
    fn default() -> (r: Self)
        ensures
            r.wf(),
            r.cluster@.len() == 3,
            r.election_timeout == DEFAULT_ELECTION_TIMEOUT,
            r.heartbeat_interval == DEFAULT_HEARTBEAT_INTERVAL,
            r.rpc_latency == DEFAULT_RPC_LATENCY,
            r.seed == DEFAULT_SEED,
    {
        Self::with_nodes(3)
    }
}

/// The abstract state of the simulator.
#[verifier::ext_equal]
pub struct DriverView {
    pub cluster: Seq<NodeId>,
    pub election_timeout: u64,
    pub heartbeat_interval: u64,
    pub rpc_latency: u64,
    pub seed: u64,
    pub time: u64,
    pub events: Seq<TimedEvent>,
    pub nodes: Seq<NodeStateView>,
    pub drop_ratio: Seq<Seq<u32>>,
}

/// The discrete-event driver: one machine per node, a virtual clock, an
/// ordered event queue, and a drop-ratio matrix over directed node pairs.
pub struct ClusterDriver {
    config: DriverConfig,
    time: u64,
    events: Vec<TimedEvent>,
    nodes: Vec<NodeState>,
    rpc_drop_ratio: Vec<Vec<u32>>,
    rng: rand::rngs::StdRng,
}

impl View for ClusterDriver {
    type V = DriverView;

    closed spec fn view(&self) -> DriverView {
        DriverView {
            cluster: self.config.cluster@,
            election_timeout: self.config.election_timeout,
            heartbeat_interval: self.config.heartbeat_interval,
            rpc_latency: self.config.rpc_latency,
            seed: self.config.seed,
            time: self.time,
            events: self.events@,
            nodes: self.nodes@.map(|_i: int, n: NodeState| n@),
            drop_ratio: self.rpc_drop_ratio@.map(|_i: int, row: Vec<u32>| row@),
        }
    }
}

impl DriverView {
    /// Well-formedness of the simulator: one machine and one drop-matrix
    /// row per cluster member, each machine configured for this cluster.
    pub open spec fn wf(&self) -> bool {
        &&& 1 <= self.election_timeout
        &&& self.election_timeout <= u64::MAX / 2
        &&& 1 <= self.heartbeat_interval
        &&& 1 <= self.rpc_latency
        &&& distinct_ids(self.cluster)
        &&& self.nodes.len() == self.cluster.len()
        &&& forall|i: int|
            0 <= i < self.nodes.len() ==> {
                &&& (#[trigger] self.nodes[i]).node_id == self.cluster[i]
                &&& self.nodes[i].raft.wf()
                &&& self.nodes[i].raft.node_id == self.cluster[i]
                &&& self.nodes[i].raft.cluster == self.cluster
                &&& self.nodes[i].raft.election_timeout == self.election_timeout
                &&& self.nodes[i].raft.heartbeat_interval == self.heartbeat_interval
            }
        &&& self.drop_ratio.len() == self.cluster.len()
        &&& forall|i: int|
            0 <= i < self.drop_ratio.len() ==> (#[trigger] self.drop_ratio[i]).len()
                == self.cluster.len()
    }
}

/// What delivering the event `ev` does to the simulator. An event for a
/// node outside the cluster, or a timer that is no longer the target's
/// live timer, changes nothing. Otherwise the target's machine takes
/// exactly one specification step under some drawn jitter, its committed
/// list grows by exactly the payloads the step announces, every other
/// machine is untouched, and each newly scheduled event arises from one
/// of the step's emitted timer or send effects (a send may also be
/// dropped outright by the sampled network).
pub open spec fn delivery_ok(pre: DriverView, post: DriverView, ev: TimedEvent) -> bool {
    &&& same_setup(pre, post)
    &&& post.time == pre.time
    &&& post.nodes.len() == pre.nodes.len()
    &&& pre.events.is_prefix_of(post.events)
    &&& if !pre.cluster.contains(ev.node) || (ev.event is TimerUp && ev.index
        != pre.nodes[first_index_of(pre.cluster, ev.node)].timer_event_index) {
        post.nodes == pre.nodes && post.events == pre.events
    } else {
        let idx = first_index_of(pre.cluster, ev.node);
        let machine = pre.nodes[idx].raft;
        exists|j: u64|
            #[trigger] jitter_draw(j, pre.election_timeout) && {
                &&& post.nodes[idx].raft == step(machine, ev.event@)
                &&& post.nodes[idx].committed_values == pre.nodes[idx].committed_values
                    + committed_of(step_full(machine, ev.event@, j).1)
                &&& post.nodes[idx].node_id == pre.nodes[idx].node_id
                &&& forall|k: int|
                    0 <= k < pre.nodes.len() && k != idx ==> (#[trigger] post.nodes[k]).raft
                        == pre.nodes[k].raft && post.nodes[k].committed_values
                        == pre.nodes[k].committed_values && post.nodes[k].node_id
                        == pre.nodes[k].node_id
                &&& forall|m: int|
                    pre.events.len() <= m < post.events.len() ==> event_from_effects(
                        #[trigger] post.events[m],
                        step_full(machine, ev.event@, j).1,
                        ev.time,
                        pre.rpc_latency,
                    )
            }
    }
}

/// The same simulator state under a different clock.
pub open spec fn with_clock(a: DriverView, t: u64) -> DriverView {
    DriverView { time: t, ..a }
}

/// The state after taking the event at position `i` off the queue: the
/// clock moves forward to the event's instant if it lies ahead.
pub open spec fn pop_view(a: DriverView, i: int) -> DriverView {
    DriverView {
        events: a.events.remove(i),
        time: if a.events[i].time > a.time {
            a.events[i].time
        } else {
            a.time
        },
        ..a
    }
}

/// One simulator step: the earliest scheduled event, under the order
/// `(time, node, index)`, is taken off the queue — provided it is due by
/// `bound` — and delivered.
pub open spec fn dispatches_next(a: DriverView, b: DriverView, bound: u64) -> bool {
    exists|i: int|
        0 <= i < a.events.len() && a.events[i].time <= bound && (forall|k: int|
            0 <= k < a.events.len() ==> !event_before(#[trigger] a.events[k], a.events[i]))
            && delivery_ok(#[trigger] pop_view(a, i), b, a.events[i])
}

/// `b` is reached from `a` by exactly `n` simulator steps, each
/// dispatching an event due by `bound`.
pub open spec fn sim_steps(a: DriverView, b: DriverView, n: nat, bound: u64) -> bool
    decreases n,
{
    if n == 0 {
        b == a
    } else {
        exists|mid: DriverView|
            #[trigger] dispatches_next(a, mid, bound) && sim_steps(mid, b, (n - 1) as nat, bound)
    }
}

/// A step chain extends at its end.
pub proof fn lemma_sim_steps_snoc(a: DriverView, mid: DriverView, b: DriverView, n: nat, bound: u64)
    requires
        sim_steps(a, mid, n, bound),
        dispatches_next(mid, b, bound),
    ensures
        sim_steps(a, b, n + 1, bound),
    decreases n,
{
    if n == 0 {
        assert(sim_steps(b, b, 0, bound));
    } else {
        let m0 = choose|m0: DriverView|
            #[trigger] dispatches_next(a, m0, bound) && sim_steps(m0, mid, (n - 1) as nat, bound);
        lemma_sim_steps_snoc(m0, mid, b, (n - 1) as nat, bound);
    }
}

/// Configuration and drop matrix of `b` are those of `a`.
pub open spec fn same_setup(a: DriverView, b: DriverView) -> bool {
    &&& b.cluster == a.cluster
    &&& b.election_timeout == a.election_timeout
    &&& b.heartbeat_interval == a.heartbeat_interval
    &&& b.rpc_latency == a.rpc_latency
    &&& b.seed == a.seed
    &&& b.drop_ratio == a.drop_ratio
}

/// Per-node progress between two simulator states: each node's term and
/// commit length never decrease, and each node's committed values are
/// only appended to, never rewritten.
pub open spec fn progress_ok(a: DriverView, b: DriverView) -> bool {
    &&& b.nodes.len() == a.nodes.len()
    &&& forall|i: int|
        0 <= i < a.nodes.len() ==> {
            &&& (#[trigger] b.nodes[i]).raft.current_term >= a.nodes[i].raft.current_term
            &&& b.nodes[i].raft.commit_len >= a.nodes[i].raft.commit_len
            &&& a.nodes[i].committed_values.is_prefix_of(b.nodes[i].committed_values)
        }
}

/// Progress composes.
pub proof fn lemma_progress_trans(a: DriverView, b: DriverView, c: DriverView)
    requires
        progress_ok(a, b),
        progress_ok(b, c),
    ensures
        progress_ok(a, c),
{
    assert forall|i: int| 0 <= i < a.nodes.len() implies {
        &&& (#[trigger] c.nodes[i]).raft.current_term >= a.nodes[i].raft.current_term
        &&& c.nodes[i].raft.commit_len >= a.nodes[i].raft.commit_len
        &&& a.nodes[i].committed_values.is_prefix_of(c.nodes[i].committed_values)
    } by {
        assert(b.nodes[i].raft.current_term >= a.nodes[i].raft.current_term);
        assert(a.nodes[i].committed_values =~= c.nodes[i].committed_values.take(
            a.nodes[i].committed_values.len() as int,
        ));
    }
}

/// A state makes progress over itself.
pub proof fn lemma_progress_refl(a: DriverView)
    ensures
        progress_ok(a, a),
{
    assert forall|i: int|
        0 <= i < a.nodes.len() implies (#[trigger] a.nodes[i]).committed_values.is_prefix_of(
        a.nodes[i].committed_values,
    ) by {
        assert(a.nodes[i].committed_values =~= a.nodes[i].committed_values.take(
            a.nodes[i].committed_values.len() as int,
        ));
    }
}

/// How many scheduled events sit at exactly time `t`.
pub open spec fn count_at_time(events: Seq<TimedEvent>, t: u64) -> int
    decreases events.len(),
{
    if events.len() == 0 {
        0
    } else {
        count_at_time(events.drop_last(), t) + (if events.last().time == t {
            1int
        } else {
            0int
        })
    }
}

proof fn lemma_count_at_time_nonneg(events: Seq<TimedEvent>, t: u64)
    ensures
        count_at_time(events, t) >= 0,
    decreases events.len(),
{
    if events.len() > 0 {
        lemma_count_at_time_nonneg(events.drop_last(), t);
    }
}

proof fn lemma_count_at_time_remove(events: Seq<TimedEvent>, t: u64, i: int)
    requires
        0 <= i < events.len(),
    ensures
        count_at_time(events.remove(i), t) == count_at_time(events, t) - (if events[i].time == t {
            1int
        } else {
            0int
        }),
    decreases events.len(),
{
    if i == events.len() - 1 {
        assert(events.remove(i) =~= events.drop_last());
    } else {
        lemma_count_at_time_remove(events.drop_last(), t, i);
        assert(events.remove(i).drop_last() =~= events.drop_last().remove(i));
        assert(events.remove(i).last() == events.last());
    }
}

proof fn lemma_count_at_time_extended(a: Seq<TimedEvent>, b: Seq<TimedEvent>, t: u64)
    requires
        a.is_prefix_of(b),
        forall|k: int| a.len() <= k < b.len() ==> (#[trigger] b[k]).time != t,
    ensures
        count_at_time(b, t) == count_at_time(a, t),
    decreases b.len(),
{
    if b.len() == a.len() {
        assert(b =~= a);
    } else {
        assert(a.is_prefix_of(b.drop_last()));
        lemma_count_at_time_extended(a, b.drop_last(), t);
    }
}

/// A copy of an id list.
fn clone_ids(ids: &Vec<NodeId>) -> (r: Vec<NodeId>)
    ensures
        r@ == ids@,
{
    let mut r: Vec<NodeId> = Vec::new();
    let mut i: usize = 0;
    while i < ids.len()
        invariant
            i <= ids@.len(),
            r@ == ids@.take(i as int),
        decreases ids@.len() - i,
    {
        r.push(ids[i]);
        proof {
            assert(ids@.take(i + 1) =~= ids@.take(i as int).push(ids@[i as int]));
        }
        i = i + 1;
    }
    proof {
        assert(ids@.take(ids@.len() as int) =~= ids@);
    }
    r
}

impl NodeState {
    /// A fresh node around a fresh machine.
    fn new(node_id: NodeId, config: &DriverConfig, seed: u64) -> (r: Self)
        requires
            config.wf(),
            config.cluster@.contains(node_id),
        ensures
            r@.node_id == node_id,
            r@.raft.wf(),
            r@.raft.node_id == node_id,
            r@.raft.cluster == config.cluster@,
            r@.raft.election_timeout == config.election_timeout,
            r@.raft.heartbeat_interval == config.heartbeat_interval,
            r@.raft.role is Follower,
            r@.raft.current_term == 0,
            r@.raft.commit_len == 0,
            r@.raft.log.len() == 0,
            r@.raft.voted_for is None,
            r@.raft.leader_id is None,
            r@.committed_values.len() == 0,
            r@.next_event_index == 1,
            r@.timer_event_index == 0,
    {
        let cluster = clone_ids(&config.cluster);
        let node_config = NodeConfig {
            node_id,
            cluster,
            election_timeout: config.election_timeout,
            heartbeat_interval: config.heartbeat_interval,
        };
        Self {
            node_id,
            raft: RaftStateMachine::new(node_config, seed),
            next_event_index: 1,
            timer_event_index: 0,
            committed_values: Vec::new(),
        }
    }

    /// Wrap an event for this node under a fresh sequence index; a timer
    /// event becomes the node's only live timer.
    fn create_event(&mut self, time: u64, event: Event) -> (r: TimedEvent)
        ensures
            r.time == time,
            r.node == old(self)@.node_id,
            r.event == event,
            r.index == old(self)@.next_event_index,
            final(self)@ == (NodeStateView {
                next_event_index: sat_add(old(self)@.next_event_index, 1),
                timer_event_index: if event is TimerUp {
                    old(self)@.next_event_index
                } else {
                    old(self)@.timer_event_index
                },
                ..old(self)@
            }),
    {
        let index = self.next_event_index;
        self.next_event_index = sat_add_u64(self.next_event_index, 1);
        let is_timer = match event {
            Event::TimerUp => true,
            _ => false,
        };
        if is_timer {
            self.timer_event_index = index;
        }
        TimedEvent { time, node: self.node_id, index, event }
    }
}

impl ClusterDriver {
    /// Well-formedness carried by every driver this module hands out.
    pub open spec fn wf(&self) -> bool {
        self@.wf()
    }

    /// A fresh cluster: one follower machine per node, an empty queue,
    /// the clock at zero, and no message drops.
    pub fn new(config: DriverConfig) -> (r: Self)
        requires
            config.wf(),
        ensures
            r.wf(),
            r@.cluster == config.cluster@,
            r@.election_timeout == config.election_timeout,
            r@.heartbeat_interval == config.heartbeat_interval,
            r@.rpc_latency == config.rpc_latency,
            r@.seed == config.seed,
            r@.time == 0,
            r@.events.len() == 0,
            forall|i: int|
                0 <= i < r@.nodes.len() ==> {
                    &&& (#[trigger] r@.nodes[i]).raft.role is Follower
                    &&& r@.nodes[i].raft.current_term == 0
                    &&& r@.nodes[i].raft.commit_len == 0
                    &&& r@.nodes[i].raft.log.len() == 0
                    &&& r@.nodes[i].raft.voted_for is None
                    &&& r@.nodes[i].raft.leader_id is None
                    &&& r@.nodes[i].committed_values.len() == 0
                },
            forall|i: int, j: int|
                0 <= i < r@.drop_ratio.len() && 0 <= j < r@.drop_ratio.len()
                    ==> #[trigger] r@.drop_ratio[i][j] == 0,
    {
        let n = config.cluster.len();
        let mut nodes: Vec<NodeState> = Vec::new();
        let mut i: usize = 0;
        while i < n
            invariant
                config.wf(),
                n == config.cluster@.len(),
                i <= n,
                nodes@.len() == i,
                forall|k: int|
                    0 <= k < i ==> {
                        &&& (#[trigger] nodes@[k])@.node_id == config.cluster@[k]
                        &&& nodes@[k]@.raft.wf()
                        &&& nodes@[k]@.raft.node_id == config.cluster@[k]
                        &&& nodes@[k]@.raft.cluster == config.cluster@
                        &&& nodes@[k]@.raft.election_timeout == config.election_timeout
                        &&& nodes@[k]@.raft.heartbeat_interval == config.heartbeat_interval
                        &&& nodes@[k]@.raft.role is Follower
                        &&& nodes@[k]@.raft.current_term == 0
                        &&& nodes@[k]@.raft.commit_len == 0
                        &&& nodes@[k]@.raft.log.len() == 0
                        &&& nodes@[k]@.raft.voted_for is None
                        &&& nodes@[k]@.raft.leader_id is None
                        &&& nodes@[k]@.committed_values.len() == 0
                    },
            decreases n - i,
        {
            let id = config.cluster[i];
            assert(config.cluster@.contains(id));
            let node_seed = config.seed ^ ((i as u64) + 1);
            nodes.push(NodeState::new(id, &config, node_seed));
            i = i + 1;
        }
        let mut matrix: Vec<Vec<u32>> = Vec::new();
        let mut a: usize = 0;
        while a < n
            invariant
                a <= n,
                matrix@.len() == a,
                forall|k: int|
                    0 <= k < a ==> (#[trigger] matrix@[k])@.len() == n && forall|j: int|
                        0 <= j < n ==> matrix@[k]@[j] == 0,
            decreases n - a,
        {
            let mut row: Vec<u32> = Vec::new();
            let mut b: usize = 0;
            while b < n
                invariant
                    b <= n,
                    row@.len() == b,
                    forall|j: int| 0 <= j < b ==> row@[j] == 0,
                decreases n - b,
            {
                row.push(0);
                b = b + 1;
            }
            matrix.push(row);
            a = a + 1;
        }
        let rng = new_seeded_rng(config.seed);
        Self { config, time: 0, events: Vec::new(), nodes, rpc_drop_ratio: matrix, rng }
    }

    /// The simulator's configuration.
    pub fn get_config(&self) -> (r: &DriverConfig)
        ensures
            r.cluster@ == self@.cluster,
            r.election_timeout == self@.election_timeout,
            r.heartbeat_interval == self@.heartbeat_interval,
            r.rpc_latency == self@.rpc_latency,
            r.seed == self@.seed,
    {
        &self.config
    }

    /// The first position of `id` in the cluster.
    fn find_node(&self, id: NodeId) -> (r: Option<usize>)
        ensures
            match r {
                Some(i) => i < self@.cluster.len() && self@.cluster[i as int] == id && forall|
                    k: int,
                |
                    0 <= k < i ==> self@.cluster[k] != id,
                None => !self@.cluster.contains(id),
            },
    {
        let mut k: usize = 0;
        while k < self.config.cluster.len()
            invariant
                k <= self@.cluster.len(),
                forall|j: int| 0 <= j < k ==> self@.cluster[j] != id,
            decreases self@.cluster.len() - k,
        {
            if self.config.cluster[k] == id {
                return Some(k);
            }
            k = k + 1;
        }
        None
    }

    /// Start every node and schedule its first election timer: the queue
    /// is extended by exactly one `TimerUp` per node, in cluster order,
    /// due one randomized election delay from now and recorded as that
    /// node's live timer.
    pub fn start(&mut self)
        requires
            old(self).wf(),
        ensures
            final(self).wf(),
            same_setup(old(self)@, final(self)@),
            progress_ok(old(self)@, final(self)@),
            final(self)@.time == old(self)@.time,
            forall|i: int|
                0 <= i < final(self)@.nodes.len() ==> (#[trigger] final(self)@.nodes[i]).raft == old(
                    self,
                )@.nodes[i].raft && final(self)@.nodes[i].committed_values == old(
                    self,
                )@.nodes[i].committed_values,
            old(self)@.events.is_prefix_of(final(self)@.events),
            final(self)@.events.len() == old(self)@.events.len() + final(self)@.nodes.len(),
            forall|i: int|
                0 <= i < final(self)@.nodes.len() ==> live_timer_scheduled(
                    final(self)@,
                    old(self)@.events.len() as int,
                    i,
                ),
    {
        let ghost pre = self@;
        proof {
            lemma_progress_refl(pre);
        }
        let time = self.time;
        let mut i: usize = 0;
        while i < self.nodes.len()
            invariant
                pre == old(self)@,
                self.wf(),
                same_setup(pre, self@),
                progress_ok(pre, self@),
                self@.time == pre.time,
                time == pre.time,
                self@.nodes.len() == pre.nodes.len(),
                forall|k: int|
                    0 <= k < self@.nodes.len() ==> (#[trigger] self@.nodes[k]).raft
                        == pre.nodes[k].raft && self@.nodes[k].committed_values
                        == pre.nodes[k].committed_values,
                i <= self@.nodes.len(),
                pre.events.is_prefix_of(self@.events),
                self@.events.len() == pre.events.len() + i,
                forall|k: int|
                    0 <= k < i ==> live_timer_scheduled(self@, pre.events.len() as int, k),
            decreases self@.nodes.len() - i,
        {
            proof {
                assert(self@.nodes[i as int] == self.nodes@[i as int]@);
                assert(self@.nodes[i as int].raft.wf());
            }
            let ghost mid = self@;
            let mut effects = self.nodes[i].raft.start();
            let ghost evs = effects@;
            proof {
                assert(self@.nodes =~= mid.nodes);
                assert(self@.drop_ratio =~= mid.drop_ratio);
            }
            let effect = effects.remove(0);
            self.handle_side_effect(time, i, effect);
            proof {
                assert(progress_ok(mid, self@)) by {
                    assert forall|k: int|
                        0 <= k < mid.nodes.len() implies (#[trigger] mid.nodes[k]).committed_values.is_prefix_of(
                        self@.nodes[k].committed_values,
                    ) by {
                        assert(mid.nodes[k].committed_values
                            =~= self@.nodes[k].committed_values.take(
                            mid.nodes[k].committed_values.len() as int,
                        ));
                    }
                }
                lemma_progress_trans(pre, mid, self@);
                assert(pre.events.is_prefix_of(self@.events)) by {
                    assert(self@.events.take(pre.events.len() as int) =~= mid.events.take(
                        pre.events.len() as int,
                    ));
                }
                let dd: u64 = crate::api::timer_duration(effect);
                assert(self@.election_timeout <= dd < 2 * self@.election_timeout);
                assert(timer_floor(dd) == dd);
                assert(live_timer_scheduled(self@, pre.events.len() as int, i as int)) by {
                    assert(self@.events[pre.events.len() + i as int].time == sat_add(
                        self@.time,
                        dd,
                    ));
                    assert(self@.election_timeout <= dd < 2 * self@.election_timeout);
                    assert(self@.nodes[i as int].timer_event_index
                        == self@.events[pre.events.len() + i as int].index);
                }
                assert forall|k: int| 0 <= k < i implies live_timer_scheduled(
                    self@,
                    pre.events.len() as int,
                    k,
                ) by {
                    assert(live_timer_scheduled(mid, pre.events.len() as int, k));
                    let d0 = choose|d: u64|
                        mid.election_timeout <= d < 2 * mid.election_timeout && mid.events[pre.events.len() + k].time
                            == sat_add(mid.time, d);
                    assert(self@.events[pre.events.len() + k] == mid.events[pre.events.len() + k]);
                    assert(self@.events[pre.events.len() + k].time == sat_add(self@.time, d0));
                    assert(self@.nodes[k].timer_event_index == mid.nodes[k].timer_event_index);
                }
            }
            i = i + 1;
        }
    }

    /// Execute one side effect on behalf of node `from` at virtual time
    /// `time`: schedule a timer or a delivery (subject to the drop
    /// matrix), or record a committed value.
    fn handle_side_effect(&mut self, time: u64, from: usize, effect: SideEffect)
        requires
            old(self).wf(),
            from < old(self)@.nodes.len(),
        ensures
            final(self).wf(),
            same_setup(old(self)@, final(self)@),
            final(self)@.time == old(self)@.time,
            final(self)@.nodes.len() == old(self)@.nodes.len(),
            forall|i: int|
                0 <= i < final(self)@.nodes.len() ==> (#[trigger] final(self)@.nodes[i]).raft == old(
                    self,
                )@.nodes[i].raft,
            (match effect {
                SideEffect::SetTimer { duration } => {
                    &&& final(self)@.events == old(self)@.events.push(
                        TimedEvent {
                            time: sat_add(time, timer_floor(duration)),
                            node: old(self)@.nodes[from as int].node_id,
                            index: old(self)@.nodes[from as int].next_event_index,
                            event: Event::TimerUp,
                        },
                    )
                    &&& final(self)@.nodes == old(self)@.nodes.update(
                        from as int,
                        NodeStateView {
                            next_event_index: sat_add(
                                old(self)@.nodes[from as int].next_event_index,
                                1,
                            ),
                            timer_event_index: old(self)@.nodes[from as int].next_event_index,
                            ..old(self)@.nodes[from as int]
                        },
                    )
                },
                SideEffect::SendRpc { to, rpc } => exists|u: u64|
                    #[trigger] below_unit(u) && {
                        let ti = first_index_of(old(self)@.cluster, to);
                        if old(self)@.cluster.contains(to) && u >= old(
                            self,
                        )@.drop_ratio[from as int][ti] as u64 {
                            &&& final(self)@.events == old(self)@.events.push(
                                TimedEvent {
                                    time: sat_add(time, old(self)@.rpc_latency),
                                    node: to,
                                    index: old(self)@.nodes[ti].next_event_index,
                                    event: Event::ReceivedRpc(rpc),
                                },
                            )
                            &&& final(self)@.nodes == old(self)@.nodes.update(
                                ti,
                                NodeStateView {
                                    next_event_index: sat_add(
                                        old(self)@.nodes[ti].next_event_index,
                                        1,
                                    ),
                                    ..old(self)@.nodes[ti]
                                },
                            )
                        } else {
                            &&& final(self)@.events == old(self)@.events
                            &&& final(self)@.nodes == old(self)@.nodes
                        }
                    },
                SideEffect::ValueCommitted { value } => {
                    &&& final(self)@.events == old(self)@.events
                    &&& final(self)@.nodes == old(self)@.nodes.update(
                        from as int,
                        NodeStateView {
                            committed_values: old(
                                self,
                            )@.nodes[from as int].committed_values.push(value),
                            ..old(self)@.nodes[from as int]
                        },
                    )
                },
            }),
            (match effect {
                SideEffect::ValueCommitted { value } => final(self)@.nodes[from as int].committed_values
                    == old(self)@.nodes[from as int].committed_values.push(value) && forall|i: int|
                    0 <= i < final(self)@.nodes.len() && i != from
                        ==> (#[trigger] final(self)@.nodes[i]).committed_values == old(
                        self,
                    )@.nodes[i].committed_values,
                _ => forall|i: int|
                    0 <= i < final(self)@.nodes.len() ==> (#[trigger] final(self)@.nodes[i]).committed_values
                        == old(self)@.nodes[i].committed_values,
            }),
            old(self)@.events.is_prefix_of(final(self)@.events),
            forall|k: int|
                old(self)@.events.len() <= k < final(self)@.events.len()
                    ==> effect_schedules(
                    effect@,
                    #[trigger] final(self)@.events[k],
                    time,
                    old(self)@.rpc_latency,
                ),
            forall|k: int|
                old(self)@.events.len() <= k < final(self)@.events.len() ==> (#[trigger] final(self)@.events[k]).time
                    >= sat_add(time, 1),
    {
        let ghost pre = self@;
        match effect {
            SideEffect::SetTimer { duration } => {
                // The machine never asks for a zero timer; the floor keeps
                // virtual time strictly advancing for any caller.
                let d = if duration >= 1 {
                    duration
                } else {
                    1
                };
                let when = sat_add_u64(time, d);
                proof {
                    assert(pre.nodes[from as int] == self.nodes@[from as int]@);
                }
                let ev = self.nodes[from].create_event(when, Event::TimerUp);
                self.events.push(ev);
                proof {
                    assert(self@.events =~= pre.events.push(ev));
                    assert(self@.nodes =~= pre.nodes.update(
                        from as int,
                        NodeStateView {
                            next_event_index: sat_add(pre.nodes[from as int].next_event_index, 1),
                            timer_event_index: pre.nodes[from as int].next_event_index,
                            ..pre.nodes[from as int]
                        },
                    )) by {
                        assert forall|k: int| 0 <= k < self@.nodes.len() implies #[trigger] self@.nodes[k]
                            =~= pre.nodes.update(
                            from as int,
                            NodeStateView {
                                next_event_index: sat_add(
                                    pre.nodes[from as int].next_event_index,
                                    1,
                                ),
                                timer_event_index: pre.nodes[from as int].next_event_index,
                                ..pre.nodes[from as int]
                            },
                        )[k] by {
                            assert(self@.nodes[k] == self.nodes@[k]@);
                            assert(pre.nodes[k] == old(self).nodes@[k]@);
                        }
                    }
                    assert(pre.events.is_prefix_of(self@.events)) by {
                        assert(self@.events.take(pre.events.len() as int) =~= pre.events);
                    }
                    assert(sat_add(time, d) >= sat_add(time, 1));
                }
            },
            SideEffect::SendRpc { to, rpc } => {
                let u = rng_below(&mut self.rng, DROP_RATIO_UNIT as u64);
                let found = self.find_node(to);
                match found {
                    Some(ti) => {
                        proof {
                            lemma_first_index_of(pre.cluster, to, ti as int);
                            assert(self@.drop_ratio[from as int].len() == self@.cluster.len());
                        }
                        let ratio = self.rpc_drop_ratio[from][ti];
                        if u >= ratio as u64 {
                            let latency = self.config.rpc_latency;
                            let when = sat_add_u64(time, latency);
                            proof {
                                assert(pre.nodes[ti as int] == self.nodes@[ti as int]@);
                            }
                            let ev = self.nodes[ti].create_event(when, Event::ReceivedRpc(rpc));
                            self.events.push(ev);
                            proof {
                                assert(self@.events =~= pre.events.push(ev));
                                assert(below_unit(u));
                                assert(pre.cluster.contains(to));
                                assert(first_index_of(pre.cluster, to) == ti as int);
                                assert(pre.drop_ratio[from as int] == old(
                                    self,
                                ).rpc_drop_ratio@[from as int]@);
                                assert(u >= pre.drop_ratio[from as int][ti as int] as u64);
                                assert(self@.nodes =~= pre.nodes.update(
                                    ti as int,
                                    NodeStateView {
                                        next_event_index: sat_add(
                                            pre.nodes[ti as int].next_event_index,
                                            1,
                                        ),
                                        ..pre.nodes[ti as int]
                                    },
                                )) by {
                                    assert forall|k: int|
                                        0 <= k < self@.nodes.len() implies #[trigger] self@.nodes[k]
                                        =~= pre.nodes.update(
                                        ti as int,
                                        NodeStateView {
                                            next_event_index: sat_add(
                                                pre.nodes[ti as int].next_event_index,
                                                1,
                                            ),
                                            ..pre.nodes[ti as int]
                                        },
                                    )[k] by {
                                        assert(self@.nodes[k] == self.nodes@[k]@);
                                        assert(pre.nodes[k] == old(self).nodes@[k]@);
                                    }
                                }
                                assert(pre.events.is_prefix_of(self@.events)) by {
                                    assert(self@.events.take(pre.events.len() as int)
                                        =~= pre.events);
                                }
                                assert(sat_add(time, latency) >= sat_add(time, 1));
                            }
                        } else {
                            proof {
                                assert(below_unit(u));
                                assert(pre.drop_ratio[from as int] == old(
                                    self,
                                ).rpc_drop_ratio@[from as int]@);
                                assert(!(u >= pre.drop_ratio[from as int][ti as int] as u64));
                                assert(self@.events =~= pre.events);
                                assert(self@.nodes =~= pre.nodes);
                                assert(pre.events.is_prefix_of(self@.events)) by {
                                    assert(self@.events.take(pre.events.len() as int)
                                        =~= pre.events);
                                }
                            }
                        }
                    },
                    None => {
                        proof {
                            assert(below_unit(u));
                            assert(!pre.cluster.contains(to));
                            assert(self@.events =~= pre.events);
                            assert(self@.nodes =~= pre.nodes);
                            assert(pre.events.is_prefix_of(self@.events)) by {
                                assert(self@.events.take(pre.events.len() as int) =~= pre.events);
                            }
                        }
                    },
                }
            },
            SideEffect::ValueCommitted { value } => {
                self.nodes[from].committed_values.push(value);
                proof {
                    assert(self@.nodes =~= pre.nodes.update(
                        from as int,
                        NodeStateView {
                            committed_values: pre.nodes[from as int].committed_values.push(value),
                            ..pre.nodes[from as int]
                        },
                    )) by {
                        assert forall|k: int| 0 <= k < self@.nodes.len() implies #[trigger] self@.nodes[k]
                            =~= pre.nodes.update(
                            from as int,
                            NodeStateView {
                                committed_values: pre.nodes[from as int].committed_values.push(
                                    value,
                                ),
                                ..pre.nodes[from as int]
                            },
                        )[k] by {
                            assert(self@.nodes[k] == self.nodes@[k]@);
                            assert(pre.nodes[k] == old(self).nodes@[k]@);
                        }
                    }
                    assert(pre.events.is_prefix_of(self@.events)) by {
                        assert(self@.events.take(pre.events.len() as int) =~= pre.events);
                    }
                }
            },
        }
    }

    /// Deliver one scheduled event to its node and execute the returned
    /// side effects: exactly the dispatch rule `delivery_ok` describes.
    /// A stale timer is dropped; an event for an unknown node is ignored.
    fn process_event(&mut self, item: TimedEvent)
        requires
            old(self).wf(),
        ensures
            final(self).wf(),
            same_setup(old(self)@, final(self)@),
            progress_ok(old(self)@, final(self)@),
            final(self)@.time == old(self)@.time,
            old(self)@.events.is_prefix_of(final(self)@.events),
            forall|k: int|
                old(self)@.events.len() <= k < final(self)@.events.len() ==> (#[trigger] final(self)@.events[k]).time
                    >= sat_add(item.time, 1),
            delivery_ok(old(self)@, final(self)@, item),
    {
        let ghost pre = self@;
        let found = self.find_node(item.node);
        let idx = match found {
            Some(i) => {
                proof {
                    lemma_first_index_of(pre.cluster, item.node, i as int);
                }
                i
            },
            None => {
                proof {
                    lemma_progress_refl(pre);
                    assert(pre.events.is_prefix_of(self@.events)) by {
                        assert(self@.events.take(pre.events.len() as int) =~= pre.events);
                    }
                    assert(!pre.cluster.contains(item.node));
                }
                return ;
            },
        };
        let is_timer = match item.event {
            Event::TimerUp => true,
            _ => false,
        };
        if is_timer && item.index != self.nodes[idx].timer_event_index {
            proof {
                lemma_progress_refl(pre);
                assert(pre.events.is_prefix_of(self@.events)) by {
                    assert(self@.events.take(pre.events.len() as int) =~= pre.events);
                }
                assert(self@.nodes[idx as int] == self.nodes@[idx as int]@);
                assert(item.index != pre.nodes[idx as int].timer_event_index);
            }
            return ;
        }
        let ghost node_pre = self@.nodes[idx as int].raft;
        let ghost ev_view = item.event@;
        let item_time = item.time;
        proof {
            assert(self@.nodes[idx as int] == self.nodes@[idx as int]@);
            assert(self@.nodes[idx as int].raft.wf());
            assert(!(item.event is TimerUp) || item.index == pre.nodes[idx as int].timer_event_index);
        }
        let ghost before_call = self@;
        let mut effects = self.nodes[idx].raft.on_event(item.event);
        let ghost all_effs = effects_view(effects@);
        let ghost j = choose|j: u64|
            j < node_pre.election_timeout && effects_view(effects@) == #[trigger] step_full(
                node_pre,
                ev_view,
                j,
            ).1;
        let ghost mut p: nat = 0;
        proof {
            assert(self@.events =~= before_call.events);
            assert(self@.drop_ratio =~= before_call.drop_ratio);
            assert forall|k: int|
                0 <= k < self@.nodes.len() && k != idx implies self@.nodes[k]
                == before_call.nodes[k] by {
                assert(self@.nodes[k] == self.nodes@[k]@);
            }
            crate::laws::lemma_term_monotone(node_pre, ev_view);
            crate::laws::lemma_commit_monotone(node_pre, ev_view);
            crate::laws::lemma_step_preserves_config(node_pre, ev_view);
            lemma_progress_refl(pre);
            assert(progress_ok(pre, self@)) by {
                assert forall|i: int|
                    0 <= i < pre.nodes.len() implies (#[trigger] pre.nodes[i]).committed_values.is_prefix_of(
                    self@.nodes[i].committed_values,
                ) by {
                    assert(pre.nodes[i].committed_values =~= self@.nodes[i].committed_values.take(
                        pre.nodes[i].committed_values.len() as int,
                    ));
                }
            }
            assert(pre.events.is_prefix_of(self@.events)) by {
                assert(self@.events.take(pre.events.len() as int) =~= pre.events);
            }
            assert(all_effs.skip(0) =~= all_effs);
            assert(committed_of(all_effs.take(0)) =~= Seq::<crate::api::LogEntryValue>::empty());
            assert(self@.nodes[idx as int].committed_values =~= pre.nodes[idx as int].committed_values
                + committed_of(all_effs.take(0)));
        }
        while effects.len() > 0
            invariant
                self.wf(),
                same_setup(pre, self@),
                progress_ok(pre, self@),
                self@.time == pre.time,
                self@.nodes.len() == pre.nodes.len(),
                idx < self@.nodes.len(),
                idx == first_index_of(pre.cluster, item.node),
                pre.events.is_prefix_of(self@.events),
                item_time == item.time,
                p <= all_effs.len(),
                effects_view(effects@) == all_effs.skip(p as int),
                j < node_pre.election_timeout,
                all_effs == step_full(node_pre, ev_view, j).1,
                self@.nodes[idx as int].raft == step(node_pre, ev_view),
                self@.nodes[idx as int].node_id == pre.nodes[idx as int].node_id,
                self@.nodes[idx as int].committed_values == pre.nodes[idx as int].committed_values
                    + committed_of(all_effs.take(p as int)),
                forall|k: int|
                    0 <= k < pre.nodes.len() && k != idx ==> (#[trigger] self@.nodes[k]).raft
                        == pre.nodes[k].raft && self@.nodes[k].committed_values
                        == pre.nodes[k].committed_values && self@.nodes[k].node_id
                        == pre.nodes[k].node_id,
                forall|m: int|
                    pre.events.len() <= m < self@.events.len() ==> event_from_effects(
                        #[trigger] self@.events[m],
                        all_effs,
                        item_time,
                        pre.rpc_latency,
                    ),
                forall|k: int|
                    pre.events.len() <= k < self@.events.len() ==> (#[trigger] self@.events[k]).time
                        >= sat_add(item_time, 1),
            decreases effects@.len(),
        {
            let ghost mid = self@;
            let ghost remaining = effects@;
            let effect = effects.remove(0);
            proof {
                assert(effect@ == effects_view(remaining)[0]);
                assert(effects_view(remaining) == all_effs.skip(p as int));
                assert(effects_view(remaining).len() == remaining.len());
                assert(all_effs.skip(p as int)[0] == all_effs[p as int]) by {
                    vstd::seq_lib::lemma_seq_skip_index(all_effs, p as int, 0);
                }
                assert(effect@ == all_effs[p as int]);
                assert(effects_view(effects@) =~= effects_view(remaining).drop_first());
                assert(effects_view(remaining).drop_first() =~= all_effs.skip(p as int + 1));
            }
            self.handle_side_effect(item_time, idx, effect);
            proof {
                lemma_progress_trans(pre, mid, self@);
                assert(pre.events.is_prefix_of(self@.events)) by {
                    assert(self@.events.take(pre.events.len() as int) =~= mid.events.take(
                        pre.events.len() as int,
                    ));
                }
                assert(all_effs.take(p as int + 1) =~= all_effs.take(p as int) + seq![all_effs[p as int]]);
                crate::laws::lemma_committed_of_concat(
                    all_effs.take(p as int),
                    seq![all_effs[p as int]],
                );
                crate::laws::lemma_committed_of_one(all_effs[p as int]);
                assert(self@.nodes[idx as int].committed_values
                    =~= pre.nodes[idx as int].committed_values + committed_of(
                    all_effs.take(p as int + 1),
                ));
                assert forall|m: int|
                    pre.events.len() <= m < self@.events.len() implies event_from_effects(
                        #[trigger] self@.events[m],
                        all_effs,
                        item_time,
                        pre.rpc_latency,
                    ) by {
                    if m < mid.events.len() {
                        assert(self@.events[m] == self@.events.take(mid.events.len() as int)[m]);
                    } else {
                        assert(effect_schedules(
                            all_effs[p as int],
                            self@.events[m],
                            item_time,
                            pre.rpc_latency,
                        ));
                    }
                }
                assert forall|k: int|
                    pre.events.len() <= k < self@.events.len() implies (#[trigger] self@.events[k]).time
                    >= sat_add(item_time, 1) by {
                    if k < mid.events.len() {
                        assert(self@.events[k] == self@.events.take(mid.events.len() as int)[k]);
                    }
                }
                p = p + 1;
            }
        }
        proof {
            assert(all_effs.take(p as int) =~= all_effs);
            assert(jitter_draw(j, pre.election_timeout));
            assert(delivery_ok(pre, self@, item));
        }
    }

    /// The position of the earliest scheduled event under the order
    /// `(time, node, index)`.
    fn find_earliest(&self) -> (r: Option<usize>)
        ensures
            match r {
                Some(i) => i < self@.events.len() && forall|k: int|
                    0 <= k < self@.events.len() ==> !event_before(
                        #[trigger] self@.events[k],
                        self@.events[i as int],
                    ),
                None => self@.events.len() == 0,
            },
    {
        if self.events.len() == 0 {
            return None;
        }
        let mut best: usize = 0;
        let mut k: usize = 1;
        while k < self.events.len()
            invariant
                best < k <= self@.events.len(),
                forall|j: int|
                    0 <= j < k ==> !event_before(
                        #[trigger] self@.events[j],
                        self@.events[best as int],
                    ),
            decreases self@.events.len() - k,
        {
            if event_before_exec(&self.events[k], &self.events[best]) {
                best = k;
            }
            k = k + 1;
        }
        Some(best)
    }

    /// The earliest event's time bounds every scheduled time.
    proof fn lemma_min_time(&self, i: int)
        requires
            0 <= i < self@.events.len(),
            forall|k: int|
                0 <= k < self@.events.len() ==> !event_before(
                    #[trigger] self@.events[k],
                    self@.events[i],
                ),
        ensures
            forall|k: int|
                0 <= k < self@.events.len() ==> (#[trigger] self@.events[k]).time
                    >= self@.events[i].time,
    {
    }

    /// Advance the virtual clock by `duration` and dispatch, in order,
    /// every event that falls due: the final state is reached from the
    /// re-clocked initial state by some number of simulator steps
    /// (`sim_steps`), and no due event remains.
    pub fn advance_time(&mut self, duration: u64)
        requires
            old(self).wf(),
            old(self)@.time + duration < u64::MAX,
        ensures
            final(self).wf(),
            same_setup(old(self)@, final(self)@),
            progress_ok(old(self)@, final(self)@),
            final(self)@.time == old(self)@.time + duration,
            forall|k: int|
                0 <= k < final(self)@.events.len() ==> (#[trigger] final(self)@.events[k]).time > final(self)@.time,
            exists|n: nat|
                #[trigger] sim_steps(
                    with_clock(old(self)@, (old(self)@.time + duration) as u64),
                    final(self)@,
                    n,
                    (old(self)@.time + duration) as u64,
                ),
    {
        let ghost pre = self@;
        self.time = self.time + duration;
        let clock = self.time;
        let ghost base = self@;
        let ghost mut steps: nat = 0;
        let ghost mut lo: u64 = 0;
        proof {
            assert(base == with_clock(pre, (pre.time + duration) as u64));
            assert(sim_steps(base, self@, 0, clock));
        }
        loop
            invariant
                pre == old(self)@,
                self.wf(),
                same_setup(pre, self@),
                progress_ok(pre, self@),
                self@.time == pre.time + duration,
                clock == self@.time,
                clock < u64::MAX,
                lo <= clock,
                base == with_clock(pre, (pre.time + duration) as u64),
                sim_steps(base, self@, steps, clock),
                forall|k: int|
                    0 <= k < self@.events.len() ==> (#[trigger] self@.events[k]).time >= lo,
            ensures
                self.wf(),
                same_setup(pre, self@),
                progress_ok(pre, self@),
                self@.time == pre.time + duration,
                sim_steps(base, self@, steps, clock),
                forall|k: int|
                    0 <= k < self@.events.len() ==> (#[trigger] self@.events[k]).time > clock,
            decreases clock + 1 - lo, count_at_time(self@.events, lo),
        {
            let found = self.find_earliest();
            let i = match found {
                Some(i) => i,
                None => {
                    break ;
                },
            };
            if self.events[i].time > clock {
                proof {
                    self.lemma_min_time(i as int);
                }
                break ;
            }
            let ghost mid = self@;
            let ghost old_lo = lo;
            proof {
                self.lemma_min_time(i as int);
            }
            let item = self.events.remove(i);
            let ghost item_time = item.time;
            proof {
                lemma_count_at_time_nonneg(self@.events, old_lo);
                lemma_count_at_time_remove(mid.events, old_lo, i as int);
                lo = item_time;
            }
            let ghost removed = self@.events;
            let ghost popped = self@;
            proof {
                assert(popped =~= pop_view(mid, i as int));
            }
            self.process_event(item);
            proof {
                lemma_progress_trans(pre, mid, self@);
                assert(dispatches_next(mid, self@, clock)) by {
                    assert(delivery_ok(pop_view(mid, i as int), self@, mid.events[i as int]));
                }
                lemma_sim_steps_snoc(base, mid, self@, steps, clock);
                steps = steps + 1;
                // Remaining events sit at or after the popped time; newly
                // scheduled ones strictly after.
                assert forall|k: int|
                    0 <= k < self@.events.len() implies (#[trigger] self@.events[k]).time >= lo by {
                    if k < removed.len() {
                        assert(self@.events[k] == removed[k]);
                    } else {
                        assert(self@.events[k].time >= sat_add(item_time, 1));
                    }
                }
                if item_time == old_lo {
                    lemma_count_at_time_extended(removed, self@.events, old_lo);
                    lemma_count_at_time_nonneg(self@.events, old_lo);
                } else {
                    assert(item_time > old_lo);
                }
            }
        }
        proof {
            assert(sim_steps(with_clock(pre, (pre.time + duration) as u64), self@, steps, clock));
        }
    }

    /// Schedule a client proposal on `node_id` at the current instant.
    pub fn propose_value(&mut self, node_id: NodeId, value: LogEntryValue)
        requires
            old(self).wf(),
            old(self)@.cluster.contains(node_id),
        ensures
            final(self).wf(),
            same_setup(old(self)@, final(self)@),
            progress_ok(old(self)@, final(self)@),
            final(self)@.time == old(self)@.time,
            final(self)@.events.len() == old(self)@.events.len() + 1,
            old(self)@.events.is_prefix_of(final(self)@.events),
            final(self)@.events.last().time == final(self)@.time,
            final(self)@.events.last().node == node_id,
            final(self)@.events.last().event@ == crate::api::EventView::ReceivedRpc(
                crate::api::RpcView::ProposeValueRequest(ProposeValueRequestRpc { value }),
            ),
            final(self)@.nodes == old(self)@.nodes.update(
                first_index_of(old(self)@.cluster, node_id),
                (NodeStateView {
                    next_event_index: sat_add(
                        old(self)@.nodes[first_index_of(
                            old(self)@.cluster,
                            node_id,
                        )].next_event_index,
                        1,
                    ),
                    ..old(self)@.nodes[first_index_of(old(self)@.cluster, node_id)]
                }),
            ),
    {
        let ghost pre = self@;
        let time = self.time;
        let found = self.find_node(node_id);
        let idx = match found {
            Some(i) => i,
            None => {
                proof {
                    assert(false);
                }
                return ;
            },
        };
        proof {
            lemma_first_index_of(pre.cluster, node_id, idx as int);
            assert(self@.nodes[idx as int].node_id == self@.cluster[idx as int]);
            assert(pre.nodes[idx as int] == self.nodes@[idx as int]@);
        }
        let ev = self.nodes[idx].create_event(
            time,
            Event::ReceivedRpc(Rpc::ProposeValueRequest(ProposeValueRequestRpc { value })),
        );
        self.events.push(ev);
        proof {
            lemma_progress_refl(pre);
            assert(progress_ok(pre, self@));
            assert(pre.events.is_prefix_of(self@.events)) by {
                assert(self@.events.take(pre.events.len() as int) =~= pre.events);
            }
            assert(self@.nodes =~= pre.nodes.update(
                idx as int,
                (NodeStateView {
                    next_event_index: sat_add(pre.nodes[idx as int].next_event_index, 1),
                    ..pre.nodes[idx as int]
                }),
            )) by {
                assert forall|k: int| 0 <= k < self@.nodes.len() implies #[trigger] self@.nodes[k]
                    =~= pre.nodes.update(
                    idx as int,
                    (NodeStateView {
                        next_event_index: sat_add(pre.nodes[idx as int].next_event_index, 1),
                        ..pre.nodes[idx as int]
                    }),
                )[k] by {
                    assert(self@.nodes[k] == self.nodes@[k]@);
                }
            }
        }
    }

    /// Set the probability (in units of `DROP_RATIO_UNIT`) that a message
    /// from `node_from` to `node_to` is lost in transit: exactly the
    /// matrix cell of the directed pair changes.
    pub fn set_rpc_drop_ratio(&mut self, node_from: NodeId, node_to: NodeId, drop_ratio: u32)
        requires
            old(self).wf(),
            old(self)@.cluster.contains(node_from),
            old(self)@.cluster.contains(node_to),
            drop_ratio <= DROP_RATIO_UNIT,
        ensures
            final(self).wf(),
            final(self)@.cluster == old(self)@.cluster,
            final(self)@.election_timeout == old(self)@.election_timeout,
            final(self)@.heartbeat_interval == old(self)@.heartbeat_interval,
            final(self)@.rpc_latency == old(self)@.rpc_latency,
            final(self)@.seed == old(self)@.seed,
            final(self)@.time == old(self)@.time,
            final(self)@.events == old(self)@.events,
            final(self)@.nodes == old(self)@.nodes,
            final(self)@.drop_ratio == old(self)@.drop_ratio.update(
                first_index_of(old(self)@.cluster, node_from),
                old(self)@.drop_ratio[first_index_of(old(self)@.cluster, node_from)].update(
                    first_index_of(old(self)@.cluster, node_to),
                    drop_ratio,
                ),
            ),
    {
        let from = match self.find_node(node_from) {
            Some(i) => i,
            None => {
                proof {
                    assert(false);
                }
                return ;
            },
        };
        let to = match self.find_node(node_to) {
            Some(i) => i,
            None => {
                proof {
                    assert(false);
                }
                return ;
            },
        };
        let ghost pre = self@;
        proof {
            lemma_first_index_of(pre.cluster, node_from, from as int);
            lemma_first_index_of(pre.cluster, node_to, to as int);
            assert(pre.drop_ratio[from as int] == self.rpc_drop_ratio@[from as int]@);
            assert(pre.drop_ratio[from as int].len() == pre.cluster.len());
        }
        self.rpc_drop_ratio[from].set(to, drop_ratio);
        proof {
            assert(self@.nodes =~= pre.nodes);
            assert(self@.events =~= pre.events);
            assert forall|k: int|
                0 <= k < self@.drop_ratio.len() implies (#[trigger] self@.drop_ratio[k]).len()
                == self@.cluster.len() by {
                assert(self@.drop_ratio[k] == self.rpc_drop_ratio@[k]@);
                assert(pre.drop_ratio[k] == old(self).rpc_drop_ratio@[k]@);
            }
            assert(self@.drop_ratio =~= pre.drop_ratio.update(
                from as int,
                pre.drop_ratio[from as int].update(to as int, drop_ratio),
            )) by {
                assert forall|k: int|
                    0 <= k < self@.drop_ratio.len() implies #[trigger] self@.drop_ratio[k]
                    =~= pre.drop_ratio.update(
                    from as int,
                    pre.drop_ratio[from as int].update(to as int, drop_ratio),
                )[k] by {
                    assert(self@.drop_ratio[k] == self.rpc_drop_ratio@[k]@);
                    assert(pre.drop_ratio[k] == old(self).rpc_drop_ratio@[k]@);
                }
            }
        }
    }

    /// The number of simulated nodes.
    pub fn node_count(&self) -> (r: usize)
        ensures
            r == self@.nodes.len(),
    {
        self.nodes.len()
    }

    /// The id of the node at cluster position `i`.
    pub fn node_id_at(&self, i: usize) -> (r: NodeId)
        requires
            i < self@.nodes.len(),
        ensures
            r == self@.nodes[i as int].node_id,
    {
        self.nodes[i].node_id
    }

    /// The machine of the node at cluster position `i`.
    pub fn get_raft_state_at(&self, i: usize) -> (r: &RaftStateMachine)
        requires
            i < self@.nodes.len(),
        ensures
            r@ == self@.nodes[i as int].raft,
    {
        &self.nodes[i].raft
    }

    /// The committed values of the node at cluster position `i`.
    pub fn get_committed_values_at(&self, i: usize) -> (r: &Vec<LogEntryValue>)
        requires
            i < self@.nodes.len(),
        ensures
            r@ == self@.nodes[i as int].committed_values,
    {
        &self.nodes[i].committed_values
    }

    /// Run the pending events in schedule order until the condition holds
    /// or more than `timeout` virtual ticks have elapsed; report which.
    /// The final state is reached by some number of simulator steps; a
    /// condition that already holds succeeds before anything is drawn or
    /// dispatched.
    pub fn wait(&mut self, cond: crate::driver_utils::WaitCondition, timeout: u64) -> (r: bool)
        requires
            old(self).wf(),
            old(self)@.time + timeout < u64::MAX,
        ensures
            final(self).wf(),
            same_setup(old(self)@, final(self)@),
            progress_ok(old(self)@, final(self)@),
            final(self)@.time >= old(self)@.time,
            r ==> crate::driver_utils::cond_holds(cond, final(self)@),
            crate::driver_utils::cond_holds(cond, old(self)@) ==> r,
            !r ==> final(self)@.events.len() == 0 || final(self)@.time > old(self)@.time + timeout,
            exists|n: nat| #[trigger] sim_steps(old(self)@, final(self)@, n, u64::MAX),
    {
        let ghost pre = self@;
        let start = self.time;
        let deadline = start + timeout;
        let ghost mut steps: nat = 0;
        let ghost mut lo: u64 = 0;
        proof {
            lemma_progress_refl(pre);
            assert(sim_steps(pre, self@, 0, u64::MAX));
        }
        if self.check_condition(cond) {
            return true;
        }
        loop
            invariant
                pre == old(self)@,
                !crate::driver_utils::cond_holds(cond, pre),
                self.wf(),
                same_setup(pre, self@),
                progress_ok(pre, self@),
                start == pre.time,
                deadline == start + timeout,
                deadline < u64::MAX,
                start <= self@.time,
                self@.time <= deadline,
                lo <= deadline,
                sim_steps(pre, self@, steps, u64::MAX),
                forall|k: int|
                    0 <= k < self@.events.len() ==> (#[trigger] self@.events[k]).time >= lo,
            decreases deadline + 1 - lo, count_at_time(self@.events, lo),
        {
            let found = self.find_earliest();
            let i = match found {
                Some(i) => i,
                None => {
                    return false;
                },
            };
            let ghost mid = self@;
            let ghost old_lo = lo;
            proof {
                self.lemma_min_time(i as int);
            }
            let item = self.events.remove(i);
            let ghost item_time = item.time;
            let item_beyond = item.time > deadline;
            if item.time > self.time {
                self.time = item.time;
            }
            let ghost mid2 = self@;
            proof {
                assert(mid2 =~= pop_view(mid, i as int));
                lemma_count_at_time_nonneg(self@.events, old_lo);
                lemma_count_at_time_remove(mid.events, old_lo, i as int);
            }
            self.process_event(item);
            proof {
                assert(progress_ok(pre, mid2));
                lemma_progress_trans(pre, mid2, self@);
                assert(dispatches_next(mid, self@, u64::MAX)) by {
                    assert(delivery_ok(pop_view(mid, i as int), self@, mid.events[i as int]));
                }
                lemma_sim_steps_snoc(pre, mid, self@, steps, u64::MAX);
                steps = steps + 1;
            }
            if item_beyond {
                // The deadline is checked after the dispatch: one event
                // past it is still delivered before giving up.
                return false;
            }
            if self.check_condition(cond) {
                return true;
            }
            proof {
                lo = item_time;
                assert forall|k: int|
                    0 <= k < self@.events.len() implies (#[trigger] self@.events[k]).time >= lo by {
                    if k < mid2.events.len() {
                        assert(self@.events[k] == mid2.events[k]);
                    } else {
                        assert(self@.events[k].time >= sat_add(item_time, 1));
                    }
                }
                if item_time == old_lo {
                    lemma_count_at_time_extended(mid2.events, self@.events, old_lo);
                    lemma_count_at_time_nonneg(self@.events, old_lo);
                }
            }
        }
    }

    /// The machine of `node_id`, for observation.
    pub fn get_raft_state(&self, node_id: NodeId) -> (r: &RaftStateMachine)
        requires
            self.wf(),
            self@.cluster.contains(node_id),
        ensures
            exists|i: int|
                0 <= i < self@.nodes.len() && self@.cluster[i] == node_id && r@
                    == (#[trigger] self@.nodes[i]).raft,
    {
        let found = self.find_node(node_id);
        match found {
            Some(i) => {
                proof {
                    assert(self@.nodes[i as int] == self.nodes@[i as int]@);
                }
                &self.nodes[i].raft
            },
            None => {
                proof {
                    assert(false);
                }
                vstd::pervasive::unreached()
            },
        }
    }

    /// Every value `node_id` has committed, in commit order.
    pub fn get_committed_values(&self, node_id: NodeId) -> (r: &Vec<LogEntryValue>)
        requires
            self.wf(),
            self@.cluster.contains(node_id),
        ensures
            exists|i: int|
                0 <= i < self@.nodes.len() && self@.cluster[i] == node_id && r@
                    == (#[trigger] self@.nodes[i]).committed_values,
    {
        let found = self.find_node(node_id);
        match found {
            Some(i) => {
                proof {
                    assert(self@.nodes[i as int] == self.nodes@[i as int]@);
                }
                &self.nodes[i].committed_values
            },
            None => {
                proof {
                    assert(false);
                }
                vstd::pervasive::unreached()
            },
        }
    }
}

} // verus!
