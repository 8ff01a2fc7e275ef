//! A Raft consensus state machine with a deterministic discrete-event
//! cluster simulator, and the small replicated-workload stores that run
//! on top of committed values.
//!
//! The state machine (`state`) is pure: it consumes events and returns
//! side-effect descriptors, and is verified to compute exactly the
//! specification-level transition in `model`. The protocol laws —
//! monotone terms and commit lengths, commit-prefix stability, at most
//! one vote per term, quorum overlap, the leader's current-term commit
//! guard, the committed-values sequence, and idempotent re-delivery —
//! are theorems in `laws`. The simulator (`driver`, `driver_utils`)
//! drives whole clusters in virtual time with seeded randomness and
//! injectable message loss.

pub mod api;
pub mod model;
pub mod rng;
pub mod laws;
pub mod state;
pub mod driver;
pub mod driver_utils;
pub mod assoc;
pub mod protocol;
pub mod kv_state;
pub mod txn_state;
