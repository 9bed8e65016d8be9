use vstd::prelude::*;
use crate::command::Command;
use crate::kv_state::{apply_all, KvState};
use crate::log_entry::LogEntry;

verus! {

/// Each entry's index is its 1-based position.
pub open spec fn indices_contiguous(log: Seq<LogEntry>) -> bool {
    forall|i: int| 0 <= i < log.len() ==> #[trigger] log[i].index == i + 1
}

/// Entry terms never decrease along the log.
pub open spec fn terms_ordered(log: Seq<LogEntry>) -> bool {
    forall|i: int, j: int| 0 <= i <= j < log.len() ==> #[trigger] log[i].term <= #[trigger] log[j].term
}

/// The commands of the entries at positions `lo` up to, not including, `hi`.
pub open spec fn commands_between(log: Seq<LogEntry>, lo: int, hi: int) -> Seq<Command> {
    log.subrange(lo, hi).map_values(|e: LogEntry| e.command)
}

/// The log with one more entry for `c`, proposed in `term`.
pub open spec fn appended(log: Seq<LogEntry>, term: u64, c: Command) -> Seq<LogEntry> {
    log.push(LogEntry { term, index: (log.len() + 1) as u64, command: c })
}

/// The commit index after a request to commit through `index`, from `commit`,
/// on a log of `len` entries: `max(commit, min(index, len))`.
pub open spec fn commit_after(commit: u64, len: nat, index: u64) -> u64 {
    let capped = if index as nat <= len {
        index
    } else {
        len as u64
    };
    if capped > commit {
        capped
    } else {
        commit
    }
}

/// Raised when a command reaches a node that is not the leader.
#[derive(Clone, Copy, Debug, PartialEq, Eq)]
pub struct NotLeader;

/// The log and its commit and apply bookkeeping.
#[derive(Clone, Debug)]
pub struct RaftState {
    /// The current term; not changed by log operations.
    pub current_term: u64,
    /// The node voted for in the current term, if any; not changed by log operations.
    pub voted_for: Option<u64>,
    /// The append-only log.
    pub log: Vec<LogEntry>,
    /// The highest index known to be committed.
    pub commit_index: u64,
    /// The highest index applied to the store.
    pub last_applied: u64,
    /// Whether this node may take commands.
    pub is_leader: bool,
}

impl RaftState {
    /// Well-formed: indices are contiguous from 1, terms never decrease and
    /// none exceeds the current term, and
    /// `last_applied <= commit_index <= log length`.
    pub open spec fn wf(&self) -> bool {
        &&& indices_contiguous(self.log@)
        &&& terms_ordered(self.log@)
        &&& forall|i: int| 0 <= i < self.log@.len() ==> #[trigger] self.log@[i].term <= self.current_term
        &&& self.last_applied <= self.commit_index
        &&& self.commit_index <= self.log@.len()
        &&& self.log@.len() <= u64::MAX
    }

    /// A follower at term 0 with no vote cast and an empty log.
    pub fn new() -> (r: Self)
        ensures
            r.wf(),
            r.current_term == 0,
            r.voted_for is None,
            r.log@.len() == 0,
            r.commit_index == 0,
            r.last_applied == 0,
            !r.is_leader,
    {
        RaftState {
            current_term: 0,
            voted_for: None,
            log: Vec::new(),
            commit_index: 0,
            last_applied: 0,
            is_leader: false,
        }
    }

    /// Appends `command` as a new entry of the current term, at index
    /// `log length + 1`. Changes nothing else.
    pub fn append_command(&mut self, command: Command)
        requires
            old(self).wf(),
            old(self).log@.len() < u64::MAX,
        ensures
            final(self).wf(),
            final(self).log@ == appended(old(self).log@, old(self).current_term, command),
            final(self).current_term == old(self).current_term,
            final(self).voted_for == old(self).voted_for,
            final(self).commit_index == old(self).commit_index,
            final(self).last_applied == old(self).last_applied,
            final(self).is_leader == old(self).is_leader,
    {
        let index = self.log.len() as u64 + 1;
        let entry = LogEntry { term: self.current_term, index, command };
        self.log.push(entry);
        assert(self.log@ =~= appended(old(self).log@, old(self).current_term, command));
    }

    /// Raises the commit index to `index`, capped at the log length; never
    /// lowers it.
    pub fn commit_to(&mut self, index: u64)
        requires
            old(self).wf(),
        ensures
            final(self).wf(),
            final(self).commit_index == commit_after(
                old(self).commit_index,
                old(self).log@.len(),
                index,
            ),
            final(self).log@ == old(self).log@,
            final(self).current_term == old(self).current_term,
            final(self).voted_for == old(self).voted_for,
            final(self).last_applied == old(self).last_applied,
            final(self).is_leader == old(self).is_leader,
    {
        let max_index = self.log.len() as u64;
        let new_commit = if index < max_index {
            index
        } else {
            max_index
        };
        if new_commit > self.commit_index {
            self.commit_index = new_commit;
        }
    }

    /// Applies to `kv`, in log order and once each, the committed entries not
    /// yet applied; `last_applied` then equals `commit_index`.
    pub fn apply_committed(&mut self, kv: &mut KvState)
        requires
            old(self).wf(),
            old(kv).wf(),
        ensures
            final(self).wf(),
            final(kv).wf(),
            final(kv)@ == apply_all(
                old(kv)@,
                commands_between(
                    old(self).log@,
                    old(self).last_applied as int,
                    old(self).commit_index as int,
                ),
            ),
            final(self).last_applied == old(self).commit_index,
            final(self).log@ == old(self).log@,
            final(self).current_term == old(self).current_term,
            final(self).voted_for == old(self).voted_for,
            final(self).commit_index == old(self).commit_index,
            final(self).is_leader == old(self).is_leader,
    {
        let ghost from = old(self).last_applied as int;
        assert(commands_between(self.log@, from, from) =~= Seq::<Command>::empty());
        while self.last_applied < self.commit_index
            invariant
                self.wf(),
                kv.wf(),
                from == old(self).last_applied,
                from <= self.last_applied,
                self.log@ == old(self).log@,
                self.current_term == old(self).current_term,
                self.voted_for == old(self).voted_for,
                self.commit_index == old(self).commit_index,
                self.is_leader == old(self).is_leader,
                kv@ == apply_all(
                    old(kv)@,
                    commands_between(self.log@, from, self.last_applied as int),
                ),
            decreases self.commit_index - self.last_applied,
        {
            let len = self.log.len();
            assert(self.last_applied < len);
            let pos = self.last_applied as usize;
            let cmd = self.log[pos].command.clone();
            let next = self.log[pos].index;
            proof {
                let done = commands_between(self.log@, from, pos as int);
                let more = commands_between(self.log@, from, pos + 1);
                assert(more.drop_last() =~= done);
                assert(more.last() == cmd);
            }
            kv.apply(cmd);
            self.last_applied = next;
        }
    }

    /// Takes a command as leader: appends it, commits through it and applies
    /// everything committed. Fails with `NotLeader`, changing nothing, when
    /// this node is not the leader.
    pub fn handle_command_as_leader(&mut self, command: Command, kv: &mut KvState) -> (r: Result<
        (),
        NotLeader,
    >)
        requires
            old(self).wf(),
            old(kv).wf(),
            old(self).log@.len() < u64::MAX,
        ensures
            final(self).wf(),
            final(kv).wf(),
            r is Ok <==> old(self).is_leader,
            !old(self).is_leader ==> r == Err::<(), NotLeader>(NotLeader) && *final(self) == *old(
                self,
            ) && *final(kv) == *old(kv),
            old(self).is_leader ==> {
                &&& final(self).log@ == appended(old(self).log@, old(self).current_term, command)
                &&& final(self).commit_index == final(self).log@.len()
                &&& final(self).last_applied == final(self).log@.len()
                &&& final(kv)@ == apply_all(
                    old(kv)@,
                    commands_between(
                        final(self).log@,
                        old(self).last_applied as int,
                        final(self).log@.len() as int,
                    ),
                )
                &&& final(self).current_term == old(self).current_term
                &&& final(self).voted_for == old(self).voted_for
                &&& final(self).is_leader
            },
    {
        if !self.is_leader {
            return Err(NotLeader);
        }
        self.append_command(command);
        let last_index = self.log.len() as u64;
        self.commit_to(last_index);
        self.apply_committed(kv);
        Ok(())
    }
}

/// The log after appending `cmds` to `log` one by one, all in `term`.
pub open spec fn appended_all(log: Seq<LogEntry>, term: u64, cmds: Seq<Command>) -> Seq<LogEntry>
    decreases cmds.len(),
{
    if cmds.len() == 0 {
        log
    } else {
        appended(appended_all(log, term, cmds.drop_last()), term, cmds.last())
    }
}

/// Appending `n` commands one by one to an empty log gives `n` entries, the
/// one at position `i` with index `i + 1` and the `i`-th command.
pub proof fn appends_number_from_one(term: u64, cmds: Seq<Command>)
    requires
        cmds.len() <= u64::MAX,
    ensures
        appended_all(Seq::empty(), term, cmds).len() == cmds.len(),
        forall|i: int|
            0 <= i < cmds.len() ==> #[trigger] appended_all(Seq::empty(), term, cmds)[i].index == i
                + 1,
        forall|i: int|
            0 <= i < cmds.len() ==> #[trigger] appended_all(Seq::empty(), term, cmds)[i].command
                == cmds[i],
    decreases cmds.len(),
{
    if cmds.len() > 0 {
        let rest = cmds.drop_last();
        appends_number_from_one(term, rest);
        let before = appended_all(Seq::empty(), term, rest);
        let after = appended_all(Seq::empty(), term, cmds);
        assert forall|i: int| 0 <= i < cmds.len() implies #[trigger] after[i].index == i + 1
            && after[i].command == cmds[i] by {
            if i < rest.len() {
                assert(after[i] == before[i]);
                assert(rest[i] == cmds[i]);
            }
        }
    }
}

/// A commit request never lowers the commit index, and once a request for
/// `k` has been made, a later one for any `j <= k` leaves the index where it was.
pub proof fn commit_never_regresses(commit: u64, len: nat, k: u64, j: u64)
    requires
        commit <= len,
        len <= u64::MAX,
        j <= k,
    ensures
        commit_after(commit, len, k) >= commit,
        commit_after(commit_after(commit, len, k), len, j) == commit_after(commit, len, k),
{
}

/// The commit index after the requests of `requests`, in order, from `commit`
/// on a log of `len` entries.
pub open spec fn commit_after_all(commit: u64, len: nat, requests: Seq<u64>) -> u64
    decreases requests.len(),
{
    if requests.len() == 0 {
        commit
    } else {
        commit_after(commit_after_all(commit, len, requests.drop_last()), len, requests.last())
    }
}

/// Over any run of commit requests the commit index never decreases: after
/// the first `n` requests it is at most where the whole run leaves it, and
/// never beyond the log.
pub proof fn commit_run_never_regresses(commit: u64, len: nat, requests: Seq<u64>, n: int)
    requires
        commit <= len,
        len <= u64::MAX,
        0 <= n <= requests.len(),
    ensures
        commit <= commit_after_all(commit, len, requests.take(n)),
        commit_after_all(commit, len, requests.take(n)) <= commit_after_all(commit, len, requests),
        commit_after_all(commit, len, requests) <= len,
    decreases requests.len(),
{
    if requests.len() > 0 {
        let rest = requests.drop_last();
        if n == requests.len() {
            assert(requests.take(n) =~= requests);
            commit_run_never_regresses(commit, len, rest, rest.len() as int);
            assert(rest.take(rest.len() as int) =~= rest);
        } else {
            assert(requests.take(n) =~= rest.take(n));
            commit_run_never_regresses(commit, len, rest, n);
        }
    } else {
        assert(requests.take(n) =~= requests);
    }
}

/// A commit request beyond the end of the log commits exactly the whole log.
pub proof fn commit_is_capped_at_log_length(commit: u64, len: nat, index: u64)
    requires
        commit <= len,
        len <= u64::MAX,
        index > len,
    ensures
        commit_after(commit, len, index) == len,
{
}

/// Once the entries from `applied` to `commit` have been applied to `m`,
/// applying again with the commit index unchanged leaves the store as it is.
pub proof fn reapply_changes_nothing(
    log: Seq<LogEntry>,
    applied: u64,
    commit: u64,
    m: Map<Seq<char>, Seq<char>>,
)
    requires
        applied <= commit <= log.len(),
    ensures
        apply_all(
            apply_all(m, commands_between(log, applied as int, commit as int)),
            commands_between(log, commit as int, commit as int),
        ) == apply_all(m, commands_between(log, applied as int, commit as int)),
{
    assert(commands_between(log, commit as int, commit as int) =~= Seq::<Command>::empty());
}

} // verus!
