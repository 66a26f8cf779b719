//! The paths that a scan leaves alone.

use vstd::hash_set::StringHashSet;
use vstd::prelude::*;

verus! {

/// A set of paths. A directory whose path is in the set is skipped with
/// everything below it, and an entry whose path is in the set is never
/// proposed for removal.
pub struct IgnoreSet {
    paths: StringHashSet,
}

impl View for IgnoreSet {
    type V = Set<Seq<char>>;

    closed spec fn view(&self) -> Set<Seq<char>> {
        self.paths@
    }
}

impl IgnoreSet {
    /// The empty set.
    pub fn new() -> (set: Self)
        ensures
            set@ == Set::<Seq<char>>::empty(),
    {
        Self { paths: StringHashSet::new() }
    }

    /// The set of the given paths.
    pub fn from_paths(paths: Vec<String>) -> (set: Self)
        ensures
            forall|path: Seq<char>|
                set@.contains(path) <==> exists|i: int|
                    0 <= i < paths@.len() && (#[trigger] paths@[i])@ == path,
    {
        let mut set = Self::new();
        let ghost all = paths@;
        for path in iter: paths
            invariant
                all == iter.seq(),
                forall|p: Seq<char>|
                    set@.contains(p) <==> exists|i: int|
                        0 <= i < iter.index() && (#[trigger] all[i])@ == p,
        {
            let ghost before = set@;
            let ghost k = iter.index() as int;
            set.insert(path);
            assert forall|p: Seq<char>|
                set@.contains(p) <==> exists|i: int|
                    0 <= i < k + 1 && (#[trigger] all[i])@ == p by {
                if set@.contains(p) {
                    if p == path@ {
                        assert(all[k]@ == p);
                    } else {
                        assert(before.contains(p));
                        let i = choose|i: int| 0 <= i < k && (#[trigger] all[i])@ == p;
                        assert(0 <= i < k + 1 && all[i]@ == p);
                    }
                }
                if exists|i: int| 0 <= i < k + 1 && (#[trigger] all[i])@ == p {
                    let i = choose|i: int| 0 <= i < k + 1 && (#[trigger] all[i])@ == p;
                    if i < k {
                        assert(before.contains(p));
                    }
                }
            }
        }
        set
    }

    /// Adds `path` to the set.
    pub fn insert(&mut self, path: String)
        ensures
            final(self)@ == old(self)@.insert(path@),
    {
        self.paths.insert(path);
    }

    /// Whether `path` is in the set.
    pub fn contains(&self, path: &str) -> (found: bool)
        ensures
            found == self@.contains(path@),
    {
        self.paths.contains(path)
    }

    /// Whether the set holds no path at all.
    pub fn is_empty(&self) -> (empty: bool)
        ensures
            empty == (self@ == Set::<Seq<char>>::empty()),
    {
        let empty = self.paths.is_empty();
        proof {
            if empty {
                assert(self@ =~= Set::<Seq<char>>::empty());
            }
        }
        empty
    }
}

} // verus!
