use raft_sim::driver::DEFAULT_ELECTION_TIMEOUT;
use raft_sim::driver::DEFAULT_RPC_LATENCY;
use raft_sim::driver::DEFAULT_WAIT_TIMEOUT;
use raft_sim::driver_utils::start_default_cluster;
use raft_sim::driver_utils::start_default_cluster_with_leader;
use raft_sim::driver_utils::WaitCondition;

#[test]
fn propose_single_value_from_leader() {
    let mut driver = start_default_cluster();
    let leader = driver.wait_for_leader().expect("Failed to elect cluster leader");
    driver.propose_value(leader, 42);
    driver.advance_time(DEFAULT_RPC_LATENCY);
    assert!(driver.get_committed_values(leader).is_empty());
    driver.advance_time(DEFAULT_RPC_LATENCY);
    assert_eq!(driver.get_committed_values(leader).clone(), vec![42]);
    for follower in driver.get_followers() {
        assert!(driver.get_committed_values(follower).is_empty());
    }
    driver.advance_time(2 * DEFAULT_RPC_LATENCY);
    for node in driver.get_all_nodes() {
        assert_eq!(driver.get_committed_values(node).clone(), vec![42]);
    }
}

#[test]
fn propose_single_value_from_follower() {
    let mut driver = start_default_cluster_with_leader().expect("Failed to elect cluster leader");
    let follower = driver.get_any_follower().unwrap();
    driver.propose_value(follower, 42);
    driver.advance_time(5 * DEFAULT_RPC_LATENCY);
    for node in driver.get_all_nodes() {
        assert_eq!(driver.get_committed_values(node).clone(), vec![42]);
    }
}

#[test]
fn drop_value_after_reconnect() {
    let mut driver = start_default_cluster();
    let old_leader = driver.wait_for_leader().expect("Failed to elect cluster leader");
    driver.disconnect_node(old_leader);
    driver.propose_value(old_leader, 1);
    assert!(
        driver.wait(WaitCondition::LeadersCount(2), DEFAULT_WAIT_TIMEOUT),
        "New leader should be elected"
    );
    let new_leader = driver
        .get_leaders()
        .into_iter()
        .filter(|node| node != &old_leader)
        .next()
        .unwrap();
    let follower = driver.get_any_follower().unwrap();
    driver.propose_value(new_leader, 2);
    assert!(driver.wait_node_value_committed(follower, 2), "Failed replicate value");
    driver.connect_node(old_leader);
    assert!(driver.wait_node_value_committed(old_leader, 2), "Failed replicate value");
    assert_eq!(driver.get_committed_values(old_leader).clone(), vec![2]);
}

#[test]
fn should_not_commit_with_older_term() {
    let mut driver = start_default_cluster();
    let leader = driver.wait_for_leader().expect("Failed to elect cluster leader");
    let follower = driver.get_any_follower().unwrap();
    driver.disconnect_all_nodes();
    driver.propose_value(leader, 42);
    driver.advance_time(10 * DEFAULT_ELECTION_TIMEOUT);
    driver.connect_nodes(leader, follower);
    assert_eq!(
        driver.wait_for_leader().expect("Failed to elect cluster leader"),
        leader,
        "The same leader should be elected after reconnect due to longer log len"
    );
    driver.advance_time(10 * DEFAULT_ELECTION_TIMEOUT);
    assert!(
        driver.get_committed_values(leader).is_empty(),
        "Should not commit entries with a previous term"
    );
    driver.propose_value(leader, 740);
    assert!(driver.wait_node_value_committed(leader, 740), "Failed replicate value");
    assert_eq!(driver.get_committed_values(leader).clone(), vec![42, 740]);
    assert!(driver.wait_node_value_committed(follower, 740), "Failed replicate value");
    assert_eq!(driver.get_committed_values(follower).clone(), vec![42, 740]);
}
