use raft_sim::driver::DEFAULT_ELECTION_TIMEOUT;
use raft_sim::driver::DEFAULT_WAIT_TIMEOUT;
use raft_sim::driver_utils::start_default_cluster;
use raft_sim::driver_utils::WaitCondition;

#[test]
fn initial_election() {
    let mut driver = start_default_cluster();
    assert!(driver.wait(WaitCondition::HasLeader, DEFAULT_WAIT_TIMEOUT));
    let leader = driver.get_leader();
    let elected_term = driver.get_raft_state(leader).get_current_term();
    driver.advance_time(1000 * DEFAULT_ELECTION_TIMEOUT);
    assert_eq!(driver.get_leader(), leader);
    assert_eq!(driver.get_raft_state(leader).get_current_term(), elected_term);
}

#[test]
fn elections_without_majority() {
    let mut driver = start_default_cluster();
    driver.disconnect_all_nodes();
    driver.advance_time(DEFAULT_ELECTION_TIMEOUT * 10);
    assert_eq!(driver.get_leaders().len(), 0);
}

#[test]
fn election_after_losing_leader() {
    let mut driver = start_default_cluster();
    let initial_leader = driver.wait_for_leader().expect("Failed to elect cluster leader");
    driver.disconnect_node(initial_leader);
    assert!(
        driver.wait(WaitCondition::LeadersCount(2), DEFAULT_WAIT_TIMEOUT),
        "Failed to elected a new leader"
    );
    let new_leader = driver
        .get_leaders()
        .into_iter()
        .filter(|node| node != &initial_leader)
        .next()
        .unwrap();
    let new_leader_term = driver.get_raft_state(new_leader).get_current_term();
    driver.connect_node(initial_leader);
    assert!(
        driver.wait(WaitCondition::LeadersCount(1), DEFAULT_WAIT_TIMEOUT),
        "The old leader failed to recognize the new one after reconnect"
    );
    assert_eq!(driver.get_leader(), new_leader);
    assert_eq!(driver.get_raft_state(new_leader).get_current_term(), new_leader_term);
}
