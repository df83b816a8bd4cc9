//! The replicated state: commands written to the Raft log, the state they are
//! applied to, and the snapshots of that state.

pub mod types;
pub mod snapshot;
pub mod state_machine;
pub mod network;
