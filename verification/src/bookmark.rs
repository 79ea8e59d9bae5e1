//! The bookmark record and its mathematical model.

use vstd::prelude::*;

verus! {

/// What a bookmark is in contracts: its three texts as sequences of
/// characters and its visit count as a natural number.
pub struct Entry {
    pub name: Seq<char>,
    pub path: Seq<char>,
    pub key: Seq<char>,
    pub uses: nat,
}

/// A named shortcut to a directory.
#[derive(Debug, PartialEq, Eq)]
pub struct Bookmark {
    /// Label shown in listings; need not be unique.
    pub name: String,
    /// Where the bookmark points, kept exactly as it was given.
    pub path: String,
    /// Short identifier chosen by the user.
    pub key: String,
    /// How often the bookmark was visited.
    pub uses: usize,
}

impl View for Bookmark {
    type V = Entry;

    open spec fn view(&self) -> Entry {
        Entry { name: self.name@, path: self.path@, key: self.key@, uses: self.uses as nat }
    }
}

impl DeepView for Bookmark {
    type V = Entry;

    open spec fn deep_view(&self) -> Entry {
        self@
    }
}

impl Clone for Bookmark {
    fn clone(&self) -> (copy: Self)
        ensures
            copy == *self,
    {
        Bookmark {
            name: self.name.clone(),
            path: self.path.clone(),
            key: self.key.clone(),
            uses: self.uses,
        }
    }
}

impl Bookmark {
    /// A bookmark that was never visited.
    pub fn new(key: String, name: String, path: String) -> (fresh: Bookmark)
        ensures
            fresh@ == (Entry { name: name@, path: path@, key: key@, uses: 0 }),
    {
        Bookmark { name, path, key, uses: 0 }
    }
}

} // verus!
