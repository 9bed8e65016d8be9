//! A single-writer replicated-log core: commands are appended to an ordered
//! log, a commit index marks the prefix that is safe to apply, and an apply
//! loop folds committed commands, in log order, into a key-value store.

pub mod command;
pub mod kv_state;
pub mod log_entry;
pub mod raft_state;

pub use command::Command;
pub use kv_state::KvState;
pub use log_entry::{AppendEntries, LogEntry};
pub use raft_state::{NotLeader, RaftState};
