//! Building blocks for wait-free shared-memory objects run by a fixed set of
//! processes: the processes themselves, per-process storage, the views that
//! snapshot objects hand back, and the decision logic of the double-collect
//! snapshot, of the one-shot immediate snapshot and of hazard-pointer
//! reclamation in the atomic register, with the guarantees of both
//! snapshots proved over models of concurrent runs.

mod indices;
mod std_wrappers;

pub mod process;
pub mod process_local;
pub mod snapshot;
pub mod immediate_snapshot;
pub mod reclaim;
pub mod immediate_run;
pub mod snapshot_run;
