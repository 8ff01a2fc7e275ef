use raft_sim::api::Event;
use raft_sim::api::LogEntry;
use raft_sim::api::LogEntryId;
use raft_sim::api::NodeConfig;
use raft_sim::api::NodeRole;
use raft_sim::api::ReplicateLogRequestRpc;
use raft_sim::api::Rpc;
use raft_sim::api::SideEffect;
use raft_sim::api::VoteRequestRpc;
use raft_sim::api::VoteResponseRpc;
use raft_sim::state::RaftStateMachine;

fn config(node_id: u64) -> NodeConfig {
    NodeConfig { node_id, cluster: vec![1, 2, 3], election_timeout: 200, heartbeat_interval: 50 }
}

fn committed_values(effects: &[SideEffect]) -> Vec<u64> {
    let mut out = Vec::new();
    for e in effects {
        if let SideEffect::ValueCommitted { value } = e {
            out.push(*value);
        }
    }
    out
}

fn vote_reply(effects: &[SideEffect]) -> (u64, bool, u64) {
    for e in effects {
        if let SideEffect::SendRpc { to, rpc: Rpc::VoteResponse(r) } = e {
            return (*to, r.vote_granted, r.current_term);
        }
    }
    panic!("no vote response emitted");
}

fn replicate_reply(effects: &[SideEffect]) -> (usize, bool) {
    for e in effects {
        if let SideEffect::SendRpc { rpc: Rpc::ReplicateLogResponse(r), .. } = e {
            return (r.log_len, r.success);
        }
    }
    panic!("no replication response emitted");
}

fn replicate(term: u64, prev: (u64, usize), entries: Vec<LogEntry>, commit_len: usize) -> Event {
    Event::ReceivedRpc(Rpc::ReplicateLogRequest(ReplicateLogRequestRpc {
        leader_id: 2,
        term,
        prev_log: LogEntryId { term: prev.0, index: prev.1 },
        entries,
        commit_len,
    }))
}

#[test]
fn election_timer_is_randomized_within_bounds() {
    let mut node = RaftStateMachine::new(config(1), 11);
    let effects = node.start();
    assert_eq!(effects.len(), 1);
    match &effects[0] {
        SideEffect::SetTimer { duration } => {
            assert!(*duration >= 200);
            assert!(*duration < 400);
        }
        _ => panic!("expected a timer"),
    }
}

#[test]
fn candidate_becomes_leader_on_majority() {
    let mut node = RaftStateMachine::new(config(1), 11);
    let _ = node.start();
    let effects = node.on_event(Event::TimerUp);
    assert!(matches!(node.get_role(), NodeRole::Candidate(_)));
    assert_eq!(node.get_current_term(), 1);
    let requests = effects
        .iter()
        .filter(|e| matches!(e, SideEffect::SendRpc { rpc: Rpc::VoteRequest(_), .. }))
        .count();
    assert_eq!(requests, 2);
    let effects = node.on_event(Event::ReceivedRpc(Rpc::VoteResponse(VoteResponseRpc {
        node_id: 2,
        vote_granted: true,
        current_term: 1,
    })));
    assert!(matches!(node.get_role(), NodeRole::Leader(_)));
    let replications = effects
        .iter()
        .filter(|e| matches!(e, SideEffect::SendRpc { rpc: Rpc::ReplicateLogRequest(_), .. }))
        .count();
    assert_eq!(replications, 2);
}

#[test]
fn grants_one_vote_per_term() {
    let mut node = RaftStateMachine::new(config(1), 11);
    let _ = node.start();
    let ask = |candidate_id: u64| {
        Event::ReceivedRpc(Rpc::VoteRequest(VoteRequestRpc {
            candidate_id,
            term: 1,
            last_log: LogEntryId { term: 0, index: 0 },
        }))
    };
    let (to, granted, term) = vote_reply(&node.on_event(ask(2)));
    assert_eq!((to, granted, term), (2, true, 1));
    let (to, granted, _) = vote_reply(&node.on_event(ask(3)));
    assert_eq!((to, granted), (3, false));
    let (_, granted_again, _) = vote_reply(&node.on_event(ask(2)));
    assert!(granted_again);
}

#[test]
fn rejects_vote_for_shorter_log() {
    let mut node = RaftStateMachine::new(config(1), 11);
    let _ = node.start();
    let effects = node.on_event(replicate(1, (0, 0), vec![LogEntry { data: 7, term: 1 }], 0));
    assert_eq!(replicate_reply(&effects), (1, true));
    let effects = node.on_event(Event::ReceivedRpc(Rpc::VoteRequest(VoteRequestRpc {
        candidate_id: 3,
        term: 2,
        last_log: LogEntryId { term: 0, index: 0 },
    })));
    let (_, granted, _) = vote_reply(&effects);
    assert!(!granted, "a candidate with an out-of-date log must not win a vote");
    // The higher term was observed even though the vote was refused, so
    // the election timer is rearmed.
    assert!(effects.iter().any(|e| matches!(e, SideEffect::SetTimer { .. })));
    assert_eq!(node.get_current_term(), 2);
}

#[test]
fn commits_in_ascending_index_order() {
    let mut node = RaftStateMachine::new(config(1), 11);
    let _ = node.start();
    let entries = vec![LogEntry { data: 5, term: 1 }, LogEntry { data: 9, term: 1 }];
    let effects = node.on_event(replicate(1, (0, 0), entries, 2));
    assert_eq!(committed_values(&effects), vec![5, 9]);
    assert_eq!(replicate_reply(&effects), (2, true));
}

#[test]
fn matched_heartbeat_leaves_log_unchanged() {
    let mut node = RaftStateMachine::new(config(1), 11);
    let _ = node.start();
    let effects = node.on_event(replicate(1, (0, 0), vec![LogEntry { data: 7, term: 1 }], 1));
    assert_eq!(replicate_reply(&effects), (1, true));
    // An empty round whose previous entry is the log's tail is a no-op.
    let effects = node.on_event(replicate(1, (1, 1), Vec::new(), 1));
    assert_eq!(replicate_reply(&effects), (1, true));
    assert_eq!(committed_values(&effects), Vec::<u64>::new());
}

#[test]
fn redelivered_request_changes_nothing() {
    let mut node = RaftStateMachine::new(config(1), 11);
    let _ = node.start();
    let request = || replicate(1, (0, 0), vec![LogEntry { data: 7, term: 1 }], 1);
    let effects = node.on_event(request());
    assert_eq!(committed_values(&effects), vec![7]);
    assert_eq!(replicate_reply(&effects), (1, true));
    let effects = node.on_event(request());
    assert_eq!(committed_values(&effects), Vec::<u64>::new());
    assert_eq!(replicate_reply(&effects), (1, true));
}

#[test]
fn stale_term_replication_is_rejected() {
    let mut node = RaftStateMachine::new(config(1), 11);
    let _ = node.start();
    let effects = node.on_event(replicate(2, (0, 0), vec![LogEntry { data: 7, term: 2 }], 0));
    assert_eq!(replicate_reply(&effects), (1, true));
    assert_eq!(node.get_current_term(), 2);
    let effects = node.on_event(replicate(1, (1, 1), vec![LogEntry { data: 8, term: 1 }], 0));
    let (log_len, success) = replicate_reply(&effects);
    assert!(!success);
    assert_eq!(log_len, 1);
    assert_eq!(node.get_current_term(), 2, "terms never go backwards");
}

#[test]
fn mismatched_previous_entry_is_rejected() {
    let mut node = RaftStateMachine::new(config(1), 11);
    let _ = node.start();
    let effects = node.on_event(replicate(1, (0, 0), vec![LogEntry { data: 7, term: 1 }], 0));
    assert_eq!(replicate_reply(&effects), (1, true));
    // The leader believes position 2 holds term 1; the follower has no
    // such entry, so the round must fail without truncation.
    let effects = node.on_event(replicate(1, (1, 2), vec![LogEntry { data: 8, term: 1 }], 0));
    let (log_len, success) = replicate_reply(&effects);
    assert!(!success);
    assert_eq!(log_len, 1);
}

#[test]
fn forwards_proposal_to_known_leader() {
    let mut node = RaftStateMachine::new(config(1), 11);
    let _ = node.start();
    let _ = node.on_event(replicate(1, (0, 0), Vec::new(), 0));
    assert_eq!(node.get_leader(), Some(2));
    let effects = node.on_event(Event::ReceivedRpc(Rpc::ProposeValueRequest(
        raft_sim::api::ProposeValueRequestRpc { value: 42 },
    )));
    assert!(effects.iter().any(|e| matches!(
        e,
        SideEffect::SendRpc { to: 2, rpc: Rpc::ProposeValueRequest(_) }
    )));
}
