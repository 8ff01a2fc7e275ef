use raft_sim::kv_state::LocalState;
use raft_sim::protocol::CasData;
use raft_sim::protocol::ErrorCode;
use raft_sim::protocol::ReadData;
use raft_sim::protocol::WriteData;
use raft_sim::txn_state::LocalState as TxnState;
use raft_sim::txn_state::TxnData;
use raft_sim::txn_state::TxnFunc;

#[test]
fn read_of_absent_key_fails() {
    let state = LocalState::new();
    let err = state.read(&ReadData { key: 4 }).unwrap_err();
    assert_eq!(err.code, ErrorCode::KeyDoesNotExist);
    assert_eq!(err.code.number(), 20);
}

#[test]
fn write_then_read() {
    let mut state = LocalState::new();
    state.write(&WriteData { key: 4, value: 17 });
    assert_eq!(state.read(&ReadData { key: 4 }).unwrap().value, 17);
    state.write(&WriteData { key: 4, value: 18 });
    assert_eq!(state.read(&ReadData { key: 4 }).unwrap().value, 18);
}

#[test]
fn cas_swaps_only_matching_values() {
    let mut state = LocalState::new();
    let err = state.cas(&CasData { key: 1, from: 0, to: 5 }).unwrap_err();
    assert_eq!(err.code, ErrorCode::KeyDoesNotExist);
    state.write(&WriteData { key: 1, value: 5 });
    let err = state.cas(&CasData { key: 1, from: 4, to: 9 }).unwrap_err();
    assert_eq!(err.code, ErrorCode::PreconditionFailed);
    assert_eq!(err.code.number(), 22);
    assert_eq!(state.read(&ReadData { key: 1 }).unwrap().value, 5);
    state.cas(&CasData { key: 1, from: 5, to: 9 }).unwrap();
    assert_eq!(state.read(&ReadData { key: 1 }).unwrap().value, 9);
}

#[test]
fn error_codes_match_the_wire_numbers() {
    assert_eq!(ErrorCode::Timeout.number(), 0);
    assert_eq!(ErrorCode::TemporarilyUnavailable.number(), 11);
    assert_eq!(ErrorCode::Crash.number(), 13);
    assert_eq!(ErrorCode::Abort.number(), 14);
    assert_eq!(ErrorCode::KeyDoesNotExist.number(), 20);
    assert_eq!(ErrorCode::PreconditionFailed.number(), 22);
    assert_eq!(ErrorCode::TxnConflict.number(), 30);
}

#[test]
fn txn_read_of_absent_key_reports_nothing() {
    let mut state = TxnState::new();
    let answers = state.apply_txn(&TxnData { txn: vec![TxnFunc::Read { key: 4, value: None }] });
    assert_eq!(answers.txn, vec![TxnFunc::Read { key: 4, value: None }]);
}

#[test]
fn txn_append_echoes_itself() {
    let mut state = TxnState::new();
    let answers = state.apply_txn(&TxnData { txn: vec![TxnFunc::Append { key: 2, element: 1 }] });
    assert_eq!(answers.txn, vec![TxnFunc::Append { key: 2, element: 1 }]);
}

#[test]
fn txn_reads_see_earlier_appends_in_order() {
    let mut state = TxnState::new();
    let answers = state.apply_txn(&TxnData {
        txn: vec![
            TxnFunc::Append { key: 2, element: 1 },
            TxnFunc::Append { key: 2, element: 3 },
            TxnFunc::Read { key: 2, value: None },
            TxnFunc::Read { key: 7, value: None },
        ],
    });
    assert_eq!(
        answers.txn,
        vec![
            TxnFunc::Append { key: 2, element: 1 },
            TxnFunc::Append { key: 2, element: 3 },
            TxnFunc::Read { key: 2, value: Some(vec![1, 3]) },
            TxnFunc::Read { key: 7, value: None },
        ]
    );
    let answers = state.apply_txn(&TxnData { txn: vec![TxnFunc::Read { key: 2, value: None }] });
    assert_eq!(answers.txn, vec![TxnFunc::Read { key: 2, value: Some(vec![1, 3]) }]);
}
