//! Observation and fault-injection helpers on the cluster driver: leader
//! queries, the conditions `wait` can block on, and symmetric
//! connect/disconnect operations over the drop matrix.

use vstd::prelude::*;

use crate::api::{LogEntryValue, NodeId, NodeRole};
use crate::driver::{
    first_index_of, ClusterDriver, DriverConfig, DriverView, NodeStateView, DEFAULT_SEED,
    DEFAULT_WAIT_TIMEOUT, DROP_RATIO_UNIT,
};

verus! {

/// The ids of the nodes currently in the leader role, in cluster order.
pub open spec fn leaders_of(nodes: Seq<NodeStateView>) -> Seq<NodeId>
    decreases nodes.len(),
{
    if nodes.len() == 0 {
        Seq::empty()
    } else {
        leaders_of(nodes.drop_last()) + (if nodes.last().raft.role is Leader {
            seq![nodes.last().node_id]
        } else {
            Seq::empty()
        })
    }
}

/// The ids of the nodes currently not in the leader role, in cluster order.
pub open spec fn followers_of(nodes: Seq<NodeStateView>) -> Seq<NodeId>
    decreases nodes.len(),
{
    if nodes.len() == 0 {
        Seq::empty()
    } else {
        followers_of(nodes.drop_last()) + (if nodes.last().raft.role is Leader {
            Seq::empty()
        } else {
            seq![nodes.last().node_id]
        })
    }
}

/// A state of the cluster that `wait` can block on.
#[derive(Clone, Copy, PartialEq, Eq, Structural, Debug)]
pub enum WaitCondition {
    /// At least one node is a leader.
    HasLeader,
    /// Exactly this many nodes are leaders.
    LeadersCount(usize),
    /// Exactly one node is a leader and every other node has acknowledged
    /// it as its leader.
    LeaderKnownToAll,
    /// The given node has committed the given value.
    ValueCommitted(NodeId, LogEntryValue),
}

/// What each wait condition says of a simulator state.
pub open spec fn cond_holds(cond: WaitCondition, v: DriverView) -> bool {
    match cond {
        WaitCondition::HasLeader => leaders_of(v.nodes).len() >= 1,
        WaitCondition::LeadersCount(n) => leaders_of(v.nodes).len() == n,
        WaitCondition::LeaderKnownToAll => leaders_of(v.nodes).len() == 1 && forall|i: int|
            0 <= i < v.nodes.len() ==> ((#[trigger] v.nodes[i]).raft.role is Leader
                || v.nodes[i].raft.leader_id == Some(leaders_of(v.nodes)[0])),
        WaitCondition::ValueCommitted(node, value) => exists|i: int|
            0 <= i < v.nodes.len() && (#[trigger] v.nodes[i]).node_id == node
                && v.nodes[i].committed_values.contains(value),
    }
}

impl ClusterDriver {
    /// The ids of all cluster members.
    pub fn get_all_nodes(&self) -> (r: Vec<NodeId>)
        ensures
            r@ == self@.cluster,
    {
        let config = self.get_config();
        let mut r: Vec<NodeId> = Vec::new();
        let mut i: usize = 0;
        while i < config.cluster.len()
            invariant
                i <= config.cluster@.len(),
                r@ == config.cluster@.take(i as int),
            decreases config.cluster@.len() - i,
        {
            r.push(config.cluster[i]);
            proof {
                assert(config.cluster@.take(i + 1) =~= config.cluster@.take(i as int).push(
                    config.cluster@[i as int],
                ));
            }
            i = i + 1;
        }
        proof {
            assert(config.cluster@.take(config.cluster@.len() as int) =~= config.cluster@);
        }
        r
    }

    /// The ids of the current leaders, in cluster order.
    pub fn get_leaders(&self) -> (r: Vec<NodeId>)
        requires
            self.wf(),
        ensures
            r@ == leaders_of(self@.nodes),
    {
        let all = self.get_all_nodes();
        let mut r: Vec<NodeId> = Vec::new();
        let mut i: usize = 0;
        while i < all.len()
            invariant
                self.wf(),
                all@ == self@.cluster,
                i <= self@.nodes.len(),
                r@ == leaders_of(self@.nodes.take(i as int)),
            decreases self@.nodes.len() - i,
        {
            let node = self.get_raft_state_at(i);
            let is_leader = match node.get_role() {
                NodeRole::Leader(_) => true,
                _ => false,
            };
            if is_leader {
                r.push(all[i]);
            }
            proof {
                assert(self@.nodes.take(i + 1).drop_last() =~= self@.nodes.take(i as int));
                assert(self@.nodes.take(i + 1).last() == self@.nodes[i as int]);
            }
            i = i + 1;
        }
        proof {
            assert(self@.nodes.take(self@.nodes.len() as int) =~= self@.nodes);
        }
        r
    }

    /// Whether any node currently leads.
    pub fn has_leader(&self) -> (r: bool)
        requires
            self.wf(),
        ensures
            r == (leaders_of(self@.nodes).len() >= 1),
    {
        self.get_leaders().len() >= 1
    }

    /// The single current leader.
    pub fn get_leader(&self) -> (r: NodeId)
        requires
            self.wf(),
            leaders_of(self@.nodes).len() == 1,
        ensures
            r == leaders_of(self@.nodes)[0],
    {
        let leaders = self.get_leaders();
        leaders[0]
    }

    /// The ids of the current non-leaders, in cluster order.
    pub fn get_followers(&self) -> (r: Vec<NodeId>)
        requires
            self.wf(),
        ensures
            r@ == followers_of(self@.nodes),
    {
        let all = self.get_all_nodes();
        let mut r: Vec<NodeId> = Vec::new();
        let mut i: usize = 0;
        while i < all.len()
            invariant
                self.wf(),
                all@ == self@.cluster,
                i <= self@.nodes.len(),
                r@ == followers_of(self@.nodes.take(i as int)),
            decreases self@.nodes.len() - i,
        {
            let node = self.get_raft_state_at(i);
            let is_leader = match node.get_role() {
                NodeRole::Leader(_) => true,
                _ => false,
            };
            if !is_leader {
                r.push(all[i]);
            }
            proof {
                assert(self@.nodes.take(i + 1).drop_last() =~= self@.nodes.take(i as int));
                assert(self@.nodes.take(i + 1).last() == self@.nodes[i as int]);
            }
            i = i + 1;
        }
        proof {
            assert(self@.nodes.take(self@.nodes.len() as int) =~= self@.nodes);
        }
        r
    }

    /// Some current non-leader, if one exists.
    pub fn get_any_follower(&self) -> (r: Option<NodeId>)
        requires
            self.wf(),
        ensures
            r is Some ==> followers_of(self@.nodes).contains(r->0),
            r is None ==> followers_of(self@.nodes).len() == 0,
    {
        let mut followers = self.get_followers();
        let r = followers.pop();
        proof {
            if r is Some {
                assert(followers_of(self@.nodes).contains(
                    followers_of(self@.nodes).last(),
                ));
            }
        }
        r
    }

    /// Whether the given condition holds of the current state.
    pub fn check_condition(&self, cond: WaitCondition) -> (r: bool)
        requires
            self.wf(),
        ensures
            r == cond_holds(cond, self@),
    {
        match cond {
            WaitCondition::HasLeader => self.has_leader(),
            WaitCondition::LeadersCount(n) => {
                let leaders = self.get_leaders();
                leaders.len() == n
            },
            WaitCondition::LeaderKnownToAll => {
                let leaders = self.get_leaders();
                if leaders.len() != 1 {
                    return false;
                }
                let leader = leaders[0];
                let mut i: usize = 0;
                while i < self.node_count()
                    invariant
                        cond == WaitCondition::LeaderKnownToAll,
                        self.wf(),
                        leaders_of(self@.nodes).len() == 1,
                        leader == leaders_of(self@.nodes)[0],
                        i <= self@.nodes.len(),
                        forall|k: int|
                            0 <= k < i ==> ((#[trigger] self@.nodes[k]).raft.role is Leader
                                || self@.nodes[k].raft.leader_id == Some(leader)),
                    decreases self@.nodes.len() - i,
                {
                    let node = self.get_raft_state_at(i);
                    let is_leader = match node.get_role() {
                        NodeRole::Leader(_) => true,
                        _ => false,
                    };
                    if !is_leader {
                        let known = match node.get_leader() {
                            Some(id) => id == leader,
                            None => false,
                        };
                        if !known {
                            proof {
                                assert(!((self@.nodes[i as int]).raft.role is Leader));
                                assert(self@.nodes[i as int].raft.leader_id != Some(leader));
                            }
                            return false;
                        }
                    }
                    i = i + 1;
                }
                true
            },
            WaitCondition::ValueCommitted(node_id, value) => {
                let mut i: usize = 0;
                while i < self.node_count()
                    invariant
                        cond == WaitCondition::ValueCommitted(node_id, value),
                        self.wf(),
                        i <= self@.nodes.len(),
                        forall|k: int|
                            0 <= k < i ==> !((#[trigger] self@.nodes[k]).node_id == node_id
                                && self@.nodes[k].committed_values.contains(value)),
                    decreases self@.nodes.len() - i,
                {
                    if self.node_id_at(i) == node_id {
                        let committed = self.get_committed_values_at(i);
                        let mut k: usize = 0;
                        let mut found: bool = false;
                        while k < committed.len()
                            invariant
                                committed@ == self@.nodes[i as int].committed_values,
                                i < self@.nodes.len(),
                                k <= committed@.len(),
                                found <==> exists|j: int|
                                    0 <= j < k && committed@[j] == value,
                            decreases committed@.len() - k,
                        {
                            if committed[k] == value {
                                found = true;
                            }
                            k = k + 1;
                        }
                        if found {
                            proof {
                                let j = choose|j: int|
                                    0 <= j < committed@.len() && committed@[j] == value;
                                assert(self@.nodes[i as int].committed_values[j] == value);
                                assert(self@.nodes[i as int].committed_values.contains(value));
                                assert(self@.nodes[i as int].node_id == node_id);
                            }
                            return true;
                        }
                        proof {
                            assert(!self@.nodes[i as int].committed_values.contains(value)) by {
                                if self@.nodes[i as int].committed_values.contains(value) {
                                    let j = choose|j: int|
                                        0 <= j < self@.nodes[i as int].committed_values.len()
                                            && self@.nodes[i as int].committed_values[j] == value;
                                    assert(committed@[j] == value);
                                }
                            }
                        }
                    }
                    i = i + 1;
                }
                false
            },
        }
    }

    /// Wait until exactly one leader stands and every other node has
    /// acknowledged it; its id, or nothing on timeout.
    pub fn wait_for_leader(&mut self) -> (r: Option<NodeId>)
        requires
            old(self).wf(),
            old(self)@.time + DEFAULT_WAIT_TIMEOUT < u64::MAX,
        ensures
            final(self).wf(),
            crate::driver::same_setup(old(self)@, final(self)@),
            crate::driver::progress_ok(old(self)@, final(self)@),
            r is Some ==> cond_holds(WaitCondition::LeaderKnownToAll, final(self)@) && r->0
                == leaders_of(final(self)@.nodes)[0],
            cond_holds(WaitCondition::LeaderKnownToAll, old(self)@) ==> r is Some,
    {
        if self.wait(WaitCondition::LeaderKnownToAll, DEFAULT_WAIT_TIMEOUT) {
            Some(self.get_leader())
        } else {
            None
        }
    }

    /// Wait until `node_id` has committed `value`; whether it did in time.
    pub fn wait_node_value_committed(&mut self, node_id: NodeId, value: LogEntryValue) -> (r: bool)
        requires
            old(self).wf(),
            old(self)@.time + DEFAULT_WAIT_TIMEOUT < u64::MAX,
        ensures
            final(self).wf(),
            crate::driver::same_setup(old(self)@, final(self)@),
            crate::driver::progress_ok(old(self)@, final(self)@),
            r ==> cond_holds(WaitCondition::ValueCommitted(node_id, value), final(self)@),
            cond_holds(WaitCondition::ValueCommitted(node_id, value), old(self)@) ==> r,
    {
        self.wait(WaitCondition::ValueCommitted(node_id, value), DEFAULT_WAIT_TIMEOUT)
    }

    /// Set the drop ratio in both directions between two nodes: exactly
    /// the two cells of the pair change.
    pub fn set_bidirectional_rpc_drop_ratio(&mut self, node_a: NodeId, node_b: NodeId, ratio: u32)
        requires
            old(self).wf(),
            old(self)@.cluster.contains(node_a),
            old(self)@.cluster.contains(node_b),
            ratio <= DROP_RATIO_UNIT,
        ensures
            final(self).wf(),
            unchanged_but_drops(old(self)@, final(self)@),
            forall|i: int, j: int|
                0 <= i < old(self)@.cluster.len() && 0 <= j < old(self)@.cluster.len()
                    ==> #[trigger] final(self)@.drop_ratio[i][j] == if (i == first_index_of(
                    old(self)@.cluster,
                    node_a,
                ) && j == first_index_of(old(self)@.cluster, node_b)) || (i == first_index_of(
                    old(self)@.cluster,
                    node_b,
                ) && j == first_index_of(old(self)@.cluster, node_a)) {
                    ratio
                } else {
                    old(self)@.drop_ratio[i][j]
                },
    {
        let ghost pre = self@;
        self.set_rpc_drop_ratio(node_a, node_b, ratio);
        let ghost mid = self@;
        self.set_rpc_drop_ratio(node_b, node_a, ratio);
        proof {
            let ai = crate::driver::first_index_of(pre.cluster, node_a);
            let bi = crate::driver::first_index_of(pre.cluster, node_b);
            crate::driver::lemma_first_index_in_range(pre.cluster, node_a);
            crate::driver::lemma_first_index_in_range(pre.cluster, node_b);
            assert forall|i: int, j: int|
                0 <= i < pre.cluster.len() && 0 <= j < pre.cluster.len()
                    implies #[trigger] self@.drop_ratio[i][j] == if (i == ai && j == bi) || (i == bi
                && j == ai) {
                ratio
            } else {
                pre.drop_ratio[i][j]
            } by {
                assert(mid.drop_ratio == pre.drop_ratio.update(
                    ai,
                    pre.drop_ratio[ai].update(bi, ratio),
                ));
                assert(self@.drop_ratio == mid.drop_ratio.update(
                    bi,
                    mid.drop_ratio[bi].update(ai, ratio),
                ));
            }
        }
    }

    /// Set the drop ratio between `node_id` and every node, both ways:
    /// exactly the node's row and column change.
    pub fn set_node_rpc_drop_ratio(&mut self, node_id: NodeId, ratio: u32)
        requires
            old(self).wf(),
            old(self)@.cluster.contains(node_id),
            ratio <= DROP_RATIO_UNIT,
        ensures
            final(self).wf(),
            unchanged_but_drops(old(self)@, final(self)@),
            forall|i: int, j: int|
                0 <= i < old(self)@.cluster.len() && 0 <= j < old(self)@.cluster.len()
                    ==> #[trigger] final(self)@.drop_ratio[i][j] == if i == first_index_of(
                    old(self)@.cluster,
                    node_id,
                ) || j == first_index_of(old(self)@.cluster, node_id) {
                    ratio
                } else {
                    old(self)@.drop_ratio[i][j]
                },
    {
        let others = self.get_all_nodes();
        let ghost pre = self@;
        let ghost ni = crate::driver::first_index_of(pre.cluster, node_id);
        proof {
            crate::driver::lemma_first_index_in_range(pre.cluster, node_id);
        }
        let mut k: usize = 0;
        while k < others.len()
            invariant
                self.wf(),
                unchanged_but_drops(pre, self@),
                others@ == pre.cluster,
                pre.cluster.contains(node_id),
                ni == crate::driver::first_index_of(pre.cluster, node_id),
                ratio <= DROP_RATIO_UNIT,
                k <= others@.len(),
                forall|i: int, j: int|
                    0 <= i < pre.cluster.len() && 0 <= j < pre.cluster.len()
                        ==> #[trigger] self@.drop_ratio[i][j] == if (j == ni && 0 <= i < k) || (i
                        == ni && 0 <= j < k) {
                        ratio
                    } else {
                        pre.drop_ratio[i][j]
                    },
            decreases others@.len() - k,
        {
            let other = others[k];
            assert(self@.cluster.contains(other));
            let ghost mid = self@;
            self.set_bidirectional_rpc_drop_ratio(other, node_id, ratio);
            proof {
                crate::driver::lemma_first_index_of(pre.cluster, other, k as int);
            }
            k = k + 1;
        }
    }

    /// Set the drop ratio between every ordered pair of nodes: the whole
    /// matrix changes to `ratio`.
    pub fn set_all_nodes_rpc_drop_ratio(&mut self, ratio: u32)
        requires
            old(self).wf(),
            ratio <= DROP_RATIO_UNIT,
        ensures
            final(self).wf(),
            unchanged_but_drops(old(self)@, final(self)@),
            forall|i: int, j: int|
                0 <= i < old(self)@.cluster.len() && 0 <= j < old(self)@.cluster.len()
                    ==> #[trigger] final(self)@.drop_ratio[i][j] == ratio,
    {
        let all = self.get_all_nodes();
        let ghost pre = self@;
        let mut k: usize = 0;
        while k < all.len()
            invariant
                self.wf(),
                unchanged_but_drops(pre, self@),
                all@ == pre.cluster,
                ratio <= DROP_RATIO_UNIT,
                k <= all@.len(),
                forall|i: int, j: int|
                    0 <= i < pre.cluster.len() && 0 <= j < pre.cluster.len()
                        ==> #[trigger] self@.drop_ratio[i][j] == if 0 <= i < k || 0 <= j < k {
                        ratio
                    } else {
                        pre.drop_ratio[i][j]
                    },
            decreases all@.len() - k,
        {
            let node = all[k];
            assert(self@.cluster.contains(node));
            let ghost mid = self@;
            self.set_node_rpc_drop_ratio(node, ratio);
            proof {
                crate::driver::lemma_first_index_of(pre.cluster, node, k as int);
            }
            k = k + 1;
        }
    }

    /// Let messages flow again between two nodes: their two cells drop to
    /// zero, nothing else changes.
    pub fn connect_nodes(&mut self, node_a: NodeId, node_b: NodeId)
        requires
            old(self).wf(),
            old(self)@.cluster.contains(node_a),
            old(self)@.cluster.contains(node_b),
        ensures
            final(self).wf(),
            unchanged_but_drops(old(self)@, final(self)@),
            forall|i: int, j: int|
                0 <= i < old(self)@.cluster.len() && 0 <= j < old(self)@.cluster.len()
                    ==> #[trigger] final(self)@.drop_ratio[i][j] == if (i == first_index_of(
                    old(self)@.cluster,
                    node_a,
                ) && j == first_index_of(old(self)@.cluster, node_b)) || (i == first_index_of(
                    old(self)@.cluster,
                    node_b,
                ) && j == first_index_of(old(self)@.cluster, node_a)) {
                    0
                } else {
                    old(self)@.drop_ratio[i][j]
                },
    {
        self.set_bidirectional_rpc_drop_ratio(node_a, node_b, 0);
    }

    /// Cut the link between two nodes, both ways: their two cells rise to
    /// the full unit, nothing else changes.
    pub fn disconnect_nodes(&mut self, node_a: NodeId, node_b: NodeId)
        requires
            old(self).wf(),
            old(self)@.cluster.contains(node_a),
            old(self)@.cluster.contains(node_b),
        ensures
            final(self).wf(),
            unchanged_but_drops(old(self)@, final(self)@),
            forall|i: int, j: int|
                0 <= i < old(self)@.cluster.len() && 0 <= j < old(self)@.cluster.len()
                    ==> #[trigger] final(self)@.drop_ratio[i][j] == if (i == first_index_of(
                    old(self)@.cluster,
                    node_a,
                ) && j == first_index_of(old(self)@.cluster, node_b)) || (i == first_index_of(
                    old(self)@.cluster,
                    node_b,
                ) && j == first_index_of(old(self)@.cluster, node_a)) {
                    DROP_RATIO_UNIT
                } else {
                    old(self)@.drop_ratio[i][j]
                },
    {
        self.set_bidirectional_rpc_drop_ratio(node_a, node_b, DROP_RATIO_UNIT);
    }

    /// Reconnect `node_id` to the whole cluster: its row and column drop
    /// to zero.
    pub fn connect_node(&mut self, node_id: NodeId)
        requires
            old(self).wf(),
            old(self)@.cluster.contains(node_id),
        ensures
            final(self).wf(),
            unchanged_but_drops(old(self)@, final(self)@),
            forall|i: int, j: int|
                0 <= i < old(self)@.cluster.len() && 0 <= j < old(self)@.cluster.len()
                    ==> #[trigger] final(self)@.drop_ratio[i][j] == if i == first_index_of(
                    old(self)@.cluster,
                    node_id,
                ) || j == first_index_of(old(self)@.cluster, node_id) {
                    0
                } else {
                    old(self)@.drop_ratio[i][j]
                },
    {
        self.set_node_rpc_drop_ratio(node_id, 0);
    }

    /// Isolate `node_id` from the whole cluster: its row and column rise
    /// to the full unit.
    pub fn disconnect_node(&mut self, node_id: NodeId)
        requires
            old(self).wf(),
            old(self)@.cluster.contains(node_id),
        ensures
            final(self).wf(),
            unchanged_but_drops(old(self)@, final(self)@),
            forall|i: int, j: int|
                0 <= i < old(self)@.cluster.len() && 0 <= j < old(self)@.cluster.len()
                    ==> #[trigger] final(self)@.drop_ratio[i][j] == if i == first_index_of(
                    old(self)@.cluster,
                    node_id,
                ) || j == first_index_of(old(self)@.cluster, node_id) {
                    DROP_RATIO_UNIT
                } else {
                    old(self)@.drop_ratio[i][j]
                },
    {
        self.set_node_rpc_drop_ratio(node_id, DROP_RATIO_UNIT);
    }

    /// Let messages flow again between every pair of nodes: the whole
    /// matrix drops to zero.
    pub fn connect_all_nodes(&mut self)
        requires
            old(self).wf(),
        ensures
            final(self).wf(),
            unchanged_but_drops(old(self)@, final(self)@),
            forall|i: int, j: int|
                0 <= i < old(self)@.cluster.len() && 0 <= j < old(self)@.cluster.len()
                    ==> #[trigger] final(self)@.drop_ratio[i][j] == 0,
    {
        self.set_all_nodes_rpc_drop_ratio(0);
    }

    /// Cut every link in the cluster: the whole matrix rises to the full
    /// unit.
    pub fn disconnect_all_nodes(&mut self)
        requires
            old(self).wf(),
        ensures
            final(self).wf(),
            unchanged_but_drops(old(self)@, final(self)@),
            forall|i: int, j: int|
                0 <= i < old(self)@.cluster.len() && 0 <= j < old(self)@.cluster.len()
                    ==> #[trigger] final(self)@.drop_ratio[i][j] == DROP_RATIO_UNIT,
    {
        self.set_all_nodes_rpc_drop_ratio(DROP_RATIO_UNIT);
    }
}

/// Everything but the drop matrix is as it was.
pub open spec fn unchanged_but_drops(a: DriverView, b: DriverView) -> bool {
    &&& b.cluster == a.cluster
    &&& b.election_timeout == a.election_timeout
    &&& b.heartbeat_interval == a.heartbeat_interval
    &&& b.rpc_latency == a.rpc_latency
    &&& b.seed == a.seed
    &&& b.time == a.time
    &&& b.events == a.events
    &&& b.nodes == a.nodes
}

/// A started cluster of three nodes under the default configuration:
/// the clock reads zero and the queue holds exactly each node's first
/// election timer.
pub fn start_default_cluster() -> (r: ClusterDriver)
    ensures
        r.wf(),
        r@.time == 0,
        r@.seed == DEFAULT_SEED,
        r@.cluster.len() == 3,
        r@.events.len() == r@.nodes.len(),
        forall|i: int|
            0 <= i < r@.nodes.len() ==> crate::driver::live_timer_scheduled(r@, 0, i),
{
    let config = DriverConfig::default();
    let mut driver = ClusterDriver::new(config);
    driver.start();
    driver
}

/// A started default cluster that has already elected a leader, or
/// nothing when no leader stood within the default deadline.
pub fn start_default_cluster_with_leader() -> (r: Option<ClusterDriver>)
    ensures
        r is Some ==> r->0.wf(),
{
    let mut driver = start_default_cluster();
    match driver.wait_for_leader() {
        Some(_) => Some(driver),
        None => None,
    }
}

} // verus!
