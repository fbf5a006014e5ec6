use vstd::prelude::*;

verus! {

/// Where a save lives: the key (a file name, or an entry of the browser's storage).
pub struct Storage {
    key: &'static str,
}

impl Storage {
    pub fn new(key: &'static str) -> (s: Self)
        ensures
            s.key() == key,
    {
        Self { key }
    }

    pub closed spec fn key(&self) -> &'static str {
        self.key
    }

    /// The key of the save.
    pub fn get_key(&self) -> (k: &'static str)
        ensures
            k == self.key(),
    {
        self.key
    }
}

} // verus!
