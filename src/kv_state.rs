use vstd::prelude::*;
use crate::command::Command;
use vstd::string::StringExecFns;

verus! {

/// The store after applying one command to `m`.
pub open spec fn apply_cmd(m: Map<Seq<char>, Seq<char>>, c: Command) -> Map<Seq<char>, Seq<char>> {
    match c {
        Command::Put { key, value } => m.insert(key@, value@),
        Command::Get { .. } => m,
        Command::Delete { key } => m.remove(key@),
    }
}

/// The store after applying `cmds` to `m`, first to last.
pub open spec fn apply_all(m: Map<Seq<char>, Seq<char>>, cmds: Seq<Command>) -> Map<
    Seq<char>,
    Seq<char>,
>
    decreases cmds.len(),
{
    if cmds.len() == 0 {
        m
    } else {
        apply_cmd(apply_all(m, cmds.drop_last()), cmds.last())
    }
}

/// No key occurs at two positions of `s`.
pub open spec fn keys_distinct(s: Seq<(String, String)>) -> bool {
    forall|i: int, j: int| 0 <= i < j < s.len() ==> s[i].0@ != s[j].0@
}

/// Some position of `s` holds key `k`.
pub open spec fn holds_key(s: Seq<(String, String)>, k: Seq<char>) -> bool {
    exists|i: int| 0 <= i < s.len() && #[trigger] s[i].0@ == k
}

/// The mapping that a sequence of distinct-key pairs stands for.
pub open spec fn pairs_map(s: Seq<(String, String)>) -> Map<Seq<char>, Seq<char>> {
    Map::new(
        |k: Seq<char>| holds_key(s, k),
        |k: Seq<char>| s[choose|i: int| 0 <= i < s.len() && #[trigger] s[i].0@ == k].1@,
    )
}

/// The pair at position `i` is what the mapping holds for its key.
proof fn lemma_pairs_map_at(s: Seq<(String, String)>, i: int)
    requires
        keys_distinct(s),
        0 <= i < s.len(),
    ensures
        pairs_map(s).contains_key(s[i].0@),
        pairs_map(s)[s[i].0@] == s[i].1@,
{
    let k = s[i].0@;
    assert(holds_key(s, k));
    let j = choose|j: int| 0 <= j < s.len() && #[trigger] s[j].0@ == k;
    assert(j == i);
}

/// Replacing the pair at position `i` by one with the same key updates that key.
proof fn lemma_pairs_map_update(s: Seq<(String, String)>, i: int, p: (String, String))
    requires
        keys_distinct(s),
        0 <= i < s.len(),
        p.0@ == s[i].0@,
    ensures
        keys_distinct(s.update(i, p)),
        pairs_map(s.update(i, p)) == pairs_map(s).insert(p.0@, p.1@),
{
    let t = s.update(i, p);
    assert forall|a: int, b: int| 0 <= a < b < t.len() implies t[a].0@ != t[b].0@ by {
        assert(s[a].0@ != s[b].0@);
    }
    assert forall|k: Seq<char>| holds_key(t, k) == (holds_key(s, k) || k == p.0@) by {
        if holds_key(s, k) {
            let j = choose|j: int| 0 <= j < s.len() && #[trigger] s[j].0@ == k;
            assert(t[j].0@ == k);
        }
        if holds_key(t, k) {
            let j = choose|j: int| 0 <= j < t.len() && #[trigger] t[j].0@ == k;
            assert(s[j].0@ == k);
        }
        if k == p.0@ {
            assert(t[i].0@ == k);
        }
    }
    assert forall|k: Seq<char>| #[trigger] pairs_map(t).contains_key(k) && k != p.0@ implies
        pairs_map(t)[k] == pairs_map(s)[k] by {
        let j = choose|j: int| 0 <= j < t.len() && #[trigger] t[j].0@ == k;
        lemma_pairs_map_at(t, j);
        lemma_pairs_map_at(s, j);
    }
    lemma_pairs_map_at(t, i);
    assert(pairs_map(t) =~= pairs_map(s).insert(p.0@, p.1@));
}

/// Appending a pair whose key is new adds that key.
proof fn lemma_pairs_map_push(s: Seq<(String, String)>, p: (String, String))
    requires
        keys_distinct(s),
        !holds_key(s, p.0@),
    ensures
        keys_distinct(s.push(p)),
        pairs_map(s.push(p)) == pairs_map(s).insert(p.0@, p.1@),
{
    let t = s.push(p);
    assert forall|a: int, b: int| 0 <= a < b < t.len() implies t[a].0@ != t[b].0@ by {
        if b == s.len() {
            assert(s[a].0@ == t[a].0@);
        } else {
            assert(s[a].0@ != s[b].0@);
        }
    }
    assert forall|k: Seq<char>| holds_key(t, k) == (holds_key(s, k) || k == p.0@) by {
        if holds_key(s, k) {
            let j = choose|j: int| 0 <= j < s.len() && #[trigger] s[j].0@ == k;
            assert(t[j].0@ == k);
        }
        if holds_key(t, k) {
            let j = choose|j: int| 0 <= j < t.len() && #[trigger] t[j].0@ == k;
            if j < s.len() {
                assert(s[j].0@ == k);
            }
        }
        if k == p.0@ {
            assert(t[s.len() as int].0@ == k);
        }
    }
    assert forall|k: Seq<char>| #[trigger] pairs_map(t).contains_key(k) && k != p.0@ implies
        pairs_map(t)[k] == pairs_map(s)[k] by {
        let j = choose|j: int| 0 <= j < t.len() && #[trigger] t[j].0@ == k;
        lemma_pairs_map_at(t, j);
        lemma_pairs_map_at(s, j);
    }
    lemma_pairs_map_at(t, s.len() as int);
    assert(pairs_map(t) =~= pairs_map(s).insert(p.0@, p.1@));
}

/// Removing the pair at position `i` removes its key.
proof fn lemma_pairs_map_remove(s: Seq<(String, String)>, i: int)
    requires
        keys_distinct(s),
        0 <= i < s.len(),
    ensures
        keys_distinct(s.remove(i)),
        pairs_map(s.remove(i)) == pairs_map(s).remove(s[i].0@),
{
    let t = s.remove(i);
    let gone = s[i].0@;
    assert forall|a: int, b: int| 0 <= a < b < t.len() implies t[a].0@ != t[b].0@ by {
        let sa = if a < i { a } else { a + 1 };
        let sb = if b < i { b } else { b + 1 };
        assert(t[a] == s[sa]);
        assert(t[b] == s[sb]);
        assert(s[sa].0@ != s[sb].0@);
    }
    assert forall|k: Seq<char>| holds_key(t, k) == (holds_key(s, k) && k != gone) by {
        if holds_key(s, k) && k != gone {
            let j = choose|j: int| 0 <= j < s.len() && #[trigger] s[j].0@ == k;
            let tj = if j < i { j } else { j - 1 };
            assert(t[tj] == s[j]);
            assert(t[tj].0@ == k);
        }
        if holds_key(t, k) {
            let j = choose|j: int| 0 <= j < t.len() && #[trigger] t[j].0@ == k;
            let sj = if j < i { j } else { j + 1 };
            assert(t[j] == s[sj]);
            assert(s[sj].0@ == k);
            assert(sj != i);
        }
    }
    assert forall|k: Seq<char>| #[trigger] pairs_map(t).contains_key(k) implies pairs_map(t)[k]
        == pairs_map(s)[k] by {
        let j = choose|j: int| 0 <= j < t.len() && #[trigger] t[j].0@ == k;
        let sj = if j < i { j } else { j + 1 };
        assert(t[j] == s[sj]);
        lemma_pairs_map_at(t, j);
        lemma_pairs_map_at(s, sj);
    }
    assert(pairs_map(t) =~= pairs_map(s).remove(gone));
}

/// The deterministic key-value state machine driven by the log.
#[derive(Debug)]
pub struct KvState {
    data: Vec<(String, String)>,
}

impl View for KvState {
    type V = Map<Seq<char>, Seq<char>>;

    closed spec fn view(&self) -> Map<Seq<char>, Seq<char>> {
        pairs_map(self.data@)
    }
}

impl KvState {
    /// Well-formed: no key is stored twice.
    pub closed spec fn wf(&self) -> bool {
        keys_distinct(self.data@)
    }

    /// An empty store.
    pub fn new() -> (r: Self)
        ensures
            r.wf(),
            r@ == Map::<Seq<char>, Seq<char>>::empty(),
    {
        let r = KvState { data: Vec::new() };
        assert(r@ =~= Map::<Seq<char>, Seq<char>>::empty());
        r
    }

    /// The position of `key` in the pairs, if it is there.
    fn position_of(&self, key: &String) -> (r: Option<usize>)
        ensures
            match r {
                Some(i) => i < self.data@.len() && self.data@[i as int].0@ == key@,
                None => !holds_key(self.data@, key@),
            },
    {
        let mut i: usize = 0;
        while i < self.data.len()
            invariant
                i <= self.data@.len(),
                forall|j: int| 0 <= j < i ==> self.data@[j].0@ != key@,
            decreases self.data@.len() - i,
        {
            if self.data[i].0 == *key {
                return Some(i);
            }
            i = i + 1;
        }
        None
    }

    /// The value stored under `key`, or `None` when the key is absent.
    pub fn get(&self, key: &str) -> (r: Option<&String>)
        requires
            self.wf(),
        ensures
            match r {
                Some(v) => self@.contains_key(key@) && v@ == self@[key@],
                None => !self@.contains_key(key@),
            },
    {
        let wanted = <String as StringExecFns>::from_str(key);
        match self.position_of(&wanted) {
            Some(i) => {
                proof {
                    lemma_pairs_map_at(self.data@, i as int);
                }
                Some(&self.data[i].1)
            },
            None => None,
        }
    }

    /// Applies one command: `Put` inserts or overwrites, `Delete` removes the
    /// key if present, `Get` changes nothing.
    pub fn apply(&mut self, cmd: Command)
        requires
            old(self).wf(),
        ensures
            final(self).wf(),
            final(self)@ == apply_cmd(old(self)@, cmd),
    {
        let ghost before = self.data@;
        match cmd {
            Command::Put { key, value } => {
                match self.position_of(&key) {
                    Some(i) => {
                        proof {
                            lemma_pairs_map_update(before, i as int, (key, value));
                        }
                        self.data.set(i, (key, value));
                    },
                    None => {
                        proof {
                            lemma_pairs_map_push(before, (key, value));
                        }
                        self.data.push((key, value));
                    },
                }
            },
            Command::Get { .. } => {},
            Command::Delete { key } => {
                match self.position_of(&key) {
                    Some(i) => {
                        proof {
                            lemma_pairs_map_remove(before, i as int);
                        }
                        self.data.remove(i);
                    },
                    None => {
                        assert(pairs_map(before) =~= pairs_map(before).remove(key@));
                    },
                }
            },
        }
    }
}

} // verus!
