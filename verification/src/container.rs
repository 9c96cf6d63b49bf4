//! The parts of the planner, made once and handed to whoever needs them.

use vstd::prelude::*;
use crate::list_view::ListView;
use crate::storage::Storage;

verus! {

/// The path of the planner's file, where no other is asked for.
pub open spec fn default_path() -> Seq<char> {
    "./my-planner.txt"@
}

/// Holds the storage and the view of one run of the planner.
pub struct Container {
    storage: Storage,
    list_view: ListView,
}

impl View for Container {
    type V = Seq<char>;

    /// The path of the file that the container's storage keeps.
    closed spec fn view(&self) -> Seq<char> {
        self.storage@
    }
}

impl Default for Container {
    /// The container whose storage keeps the file at the default path.
    fn default() -> (container: Container)
        ensures
            container@ == default_path(),
    {
        Container { storage: Storage::new("./my-planner.txt"), list_view: ListView }
    }
}

impl Container {
    /// The storage.
    pub fn storage(&self) -> (storage: &Storage)
        ensures
            storage@ == self@,
    {
        &self.storage
    }

    /// The view that lists the entries.
    pub fn list_view(&self) -> (view: &ListView)
        ensures
            *view == ListView,
    {
        &self.list_view
    }
}

} // verus!
