//! A small conflict-free replicated key-value document.
//!
//! - `state_vector`: for each replica, the next clock not yet applied.
//! - `block`: one write (replica, clock, key, payload) and the order that
//!   decides between writes to one key. A payload is a scalar, a list or a
//!   record of payloads, or a deletion.
//! - `store`: a replica's document; local writes, integration of updates
//!   (all or nothing, idempotent), diffs against a state vector, snapshots
//!   of the full history, and the visible entries.
//! - `codec`: the binary update format.
//! - `laws`: convergence, idempotence, commutativity and tie-breaking.
use vstd::prelude::*;

pub mod block;
pub mod codec;
pub mod laws;
pub mod state_vector;
pub mod store;

verus! {

} // verus!
