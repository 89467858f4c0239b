use vstd::prelude::*;
use vstd::hash_map::StringHashMap;

use crate::markov::{owned, strings_view};

verus! {

/// A cache of directory listings: for each (normalized) directory listed
/// so far, its subdirectories.
pub struct FsCache {
    dirs: StringHashMap<Vec<String>>,
}

fn copy_strings(v: &Vec<String>) -> (r: Vec<String>)
    ensures
        strings_view(r@) == strings_view(v@),
{
    let mut r: Vec<String> = Vec::new();
    let mut i: usize = 0;
    while i < v.len()
        invariant
            i <= v@.len(),
            r@.len() == i,
            forall|j: int| 0 <= j < i ==> (#[trigger] r@[j])@ == v@[j]@,
        decreases v@.len() - i,
    {
        r.push(owned(v[i].as_str()));
        i = i + 1;
    }
    proof {
        assert(strings_view(r@) =~= strings_view(v@));
    }
    r
}

impl FsCache {
    /// The subdirectories cached for `d`, if `d` has been listed.
    pub closed spec fn listing(&self, d: Seq<char>) -> Option<Seq<Seq<char>>> {
        if self.dirs@.contains_key(d) {
            Some(strings_view(self.dirs@[d]@))
        } else {
            None
        }
    }

    /// An empty cache.
    pub fn new() -> (c: Self)
        ensures
            forall|d: Seq<char>| #[trigger] c.listing(d) is None,
    {
        FsCache { dirs: StringHashMap::new() }
    }

    /// The subdirectories cached for `dir`, if it has been listed.
    pub fn get(&self, dir: &str) -> (r: Option<Vec<String>>)
        ensures
            match r {
                Some(v) => self.listing(dir@) == Some(strings_view(v@)),
                None => self.listing(dir@) is None,
            },
    {
        match self.dirs.get(dir) {
            Some(v) => Some(copy_strings(v)),
            None => None,
        }
    }

    /// Caches `children` as the listing of `dir`, replacing any earlier one.
    pub fn insert(&mut self, dir: &str, children: &Vec<String>)
        ensures
            final(self).listing(dir@) == Some(strings_view(children@)),
            forall|d: Seq<char>| d != dir@ ==> #[trigger] final(self).listing(d) == old(self).listing(d),
    {
        self.dirs.insert(owned(dir), copy_strings(children));
    }
}

} // verus!
