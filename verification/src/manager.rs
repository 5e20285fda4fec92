//! The first form of the index manager, over the line index of `dindex`.

use vstd::prelude::*;

pub mod dindex;

verus! {

/// Keeps line indexes under one data directory.
pub struct DIndexManager {
    data_root: String,
}

impl View for DIndexManager {
    type V = Seq<char>;

    closed spec fn view(&self) -> Seq<char> {
        self.data_root@
    }
}

impl DIndexManager {
    pub fn new(data_root: &str) -> (manager: DIndexManager)
        ensures
            manager@ == data_root@,
    {
        DIndexManager { data_root: data_root.to_owned() }
    }

    /// The directory under which the indexes are kept.
    pub fn data_root(&self) -> (root: &String)
        ensures
            root@ == self@,
    {
        &self.data_root
    }
}

} // verus!
