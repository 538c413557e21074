//! Replays the linear commit history of one repository into another,
//! one commit at a time, so that an interrupted run can be resumed.

pub mod bytes;
pub mod changes;
pub mod worktree;
pub mod policy;
pub mod record;
pub mod replication;

