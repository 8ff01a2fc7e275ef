use raft_sim::driver::DEFAULT_WAIT_TIMEOUT;
use raft_sim::driver_utils::start_default_cluster;
use raft_sim::driver_utils::WaitCondition;

#[test]
fn concurrent_leaders_hold_distinct_terms() {
    let mut driver = start_default_cluster();
    let initial_leader = driver.wait_for_leader().expect("Failed to elect cluster leader");
    driver.disconnect_node(initial_leader);
    assert!(
        driver.wait(WaitCondition::LeadersCount(2), DEFAULT_WAIT_TIMEOUT),
        "Failed to elected a new leader"
    );
    // Election safety: two simultaneous leaders can only belong to
    // different terms.
    let leaders = driver.get_leaders();
    let term_a = driver.get_raft_state(leaders[0]).get_current_term();
    let term_b = driver.get_raft_state(leaders[1]).get_current_term();
    assert_ne!(term_a, term_b);
}

#[test]
fn committed_prefixes_agree_across_nodes() {
    let mut driver = start_default_cluster();
    let leader = driver.wait_for_leader().expect("Failed to elect cluster leader");
    driver.propose_value(leader, 10);
    driver.propose_value(leader, 20);
    driver.propose_value(leader, 30);
    for node in driver.get_all_nodes() {
        assert!(driver.wait_node_value_committed(node, 30), "Failed replicate value");
    }
    // Leader completeness in the observable form: every node reports the
    // same committed sequence, in order, without gaps or duplicates.
    for node in driver.get_all_nodes() {
        assert_eq!(driver.get_committed_values(node).clone(), vec![10, 20, 30]);
    }
}
