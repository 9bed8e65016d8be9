use vstd::prelude::*;
use crate::command::Command;

verus! {

/// One record of the log: a command with the term it was proposed in and its
/// 1-based position.
#[derive(Clone, Debug)]
pub struct LogEntry {
    pub term: u64,
    pub index: u64,
    pub command: Command,
}

/// The shape of a replication message: entries to append, and the leader's
/// commit index.
#[derive(Clone, Debug)]
pub struct AppendEntries {
    pub entries: Vec<LogEntry>,
    pub leader_commit: u64,
}

} // verus!
