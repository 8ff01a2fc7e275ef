//! Shared protocol data of the replicated-workload services: error codes
//! and the linearizable key/value request payloads.

use vstd::prelude::*;

verus! {

/// A key of the linearizable key/value store.
pub type Key = u32;

/// A value of the linearizable key/value store.
pub type Value = u32;

/// The error classes a workload can report.
#[derive(Clone, Copy, PartialEq, Eq, Structural, Debug)]
pub enum ErrorCode {
    Timeout,
    TemporarilyUnavailable,
    Crash,
    Abort,
    KeyDoesNotExist,
    PreconditionFailed,
    TxnConflict,
}

/// The number each error class goes by on the wire.
pub open spec fn error_code_number(code: ErrorCode) -> u64 {
    match code {
        ErrorCode::Timeout => 0,
        ErrorCode::TemporarilyUnavailable => 11,
        ErrorCode::Crash => 13,
        ErrorCode::Abort => 14,
        ErrorCode::KeyDoesNotExist => 20,
        ErrorCode::PreconditionFailed => 22,
        ErrorCode::TxnConflict => 30,
    }
}

impl ErrorCode {
    /// The number this error class goes by on the wire.
    pub fn number(&self) -> (r: u64)
        ensures
            r == error_code_number(*self),
    {
        match self {
            ErrorCode::Timeout => 0,
            ErrorCode::TemporarilyUnavailable => 11,
            ErrorCode::Crash => 13,
            ErrorCode::Abort => 14,
            ErrorCode::KeyDoesNotExist => 20,
            ErrorCode::PreconditionFailed => 22,
            ErrorCode::TxnConflict => 30,
        }
    }
}

/// An error report: a human-readable text and its class.
#[derive(Debug)]
pub struct ErrorData {
    pub text: String,
    pub code: ErrorCode,
}

impl ErrorData {
    /// Package a text and a class.
    pub fn new(text: String, code: ErrorCode) -> (r: Self)
        ensures
            r.text@ == text@,
            r.code == code,
    {
        Self { text, code }
    }
}

/// A read of one key.
#[derive(Clone, Copy, PartialEq, Eq, Structural, Debug)]
pub struct ReadData {
    pub key: Key,
}

/// A successful read.
#[derive(Clone, Copy, PartialEq, Eq, Structural, Debug)]
pub struct ReadOkData {
    pub value: Value,
}

/// An unconditional write of one key.
#[derive(Clone, Copy, PartialEq, Eq, Structural, Debug)]
pub struct WriteData {
    pub key: Key,
    pub value: Value,
}

/// A compare-and-set: replace `from` by `to` under `key`.
#[derive(Clone, Copy, PartialEq, Eq, Structural, Debug)]
pub struct CasData {
    pub key: Key,
    pub from: Value,
    pub to: Value,
}

} // verus!
