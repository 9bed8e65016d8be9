use vstd::prelude::*;

verus! {

/// One requested mutation of the key-value store.
#[derive(Debug)]
pub enum Command {
    /// Insert `key` with `value`, overwriting any earlier value.
    Put { key: String, value: String },
    /// A read intent; applying it changes nothing.
    Get { key: String },
    /// Remove `key` if present.
    Delete { key: String },
}

impl Clone for Command {
    /// A deep copy: the result owns its own strings, equal to the originals.
    fn clone(&self) -> (r: Self)
        ensures
            r == *self,
    {
        match self {
            Command::Put { key, value } => Command::Put { key: key.clone(), value: value.clone() },
            Command::Get { key } => Command::Get { key: key.clone() },
            Command::Delete { key } => Command::Delete { key: key.clone() },
        }
    }
}

} // verus!
