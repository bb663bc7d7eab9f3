//! The inodes handed out to paths, as a list of (path, inode) pairs in which every
//! path occurs once.

use vstd::prelude::*;
use crate::path::{clone_path, pview};

verus! {

/// The inodes handed out to paths.
pub struct PathTable {
    entries: Vec<(Vec<Vec<u8>>, u64)>,
}

/// The view of the pairs.
pub open spec fn pairs_view(v: &Vec<(Vec<Vec<u8>>, u64)>) -> Seq<(Seq<Seq<u8>>, u64)> {
    v@.map_values(|e: (Vec<Vec<u8>>, u64)| (pview(&e.0), e.1))
}

/// The pairs give each path at most one inode.
pub open spec fn paths_distinct(s: Seq<(Seq<Seq<u8>>, u64)>) -> bool {
    forall|i: int, j: int| 0 <= i < s.len() && 0 <= j < s.len() && i != j ==> (#[trigger] s[i]).0 != (#[trigger] s[j]).0
}

/// The map from paths to inodes that the pairs describe.
pub open spec fn pairs_map(s: Seq<(Seq<Seq<u8>>, u64)>) -> Map<Seq<Seq<u8>>, u64> {
    Map::new(
        |p: Seq<Seq<u8>>| exists|i: int| 0 <= i < s.len() && (#[trigger] s[i]).0 == p,
        |p: Seq<Seq<u8>>| s[choose|i: int| 0 <= i < s.len() && (#[trigger] s[i]).0 == p].1,
    )
}

impl PathTable {
    /// The paths and their inodes.
    pub closed spec fn view(&self) -> Map<Seq<Seq<u8>>, u64> {
        pairs_map(pairs_view(&self.entries))
    }

    /// Every path occurs once.
    pub closed spec fn wf(&self) -> bool {
        paths_distinct(pairs_view(&self.entries))
    }

    /// A table that holds only `path`, with `ino`.
    pub fn singleton(path: Vec<Vec<u8>>, ino: u64) -> (r: Self)
        ensures
            r.wf(),
            r.view() == map![pview(&path) => ino],
    {
        let ghost p = pview(&path);
        let mut entries: Vec<(Vec<Vec<u8>>, u64)> = Vec::new();
        entries.push((path, ino));
        let r = PathTable { entries };
        proof {
            let s = pairs_view(&r.entries);
            assert(s[0] == (p, ino));
            assert(r.view() =~= map![p => ino]);
        }
        r
    }

    /// The inode of `path`, if it has one.
    pub fn get(&self, path: &Vec<Vec<u8>>) -> (r: Option<u64>)
        requires
            self.wf(),
        ensures
            r == if self.view().contains_key(pview(path)) {
                Some(self.view()[pview(path)])
            } else {
                None
            },
    {
        let ghost s = pairs_view(&self.entries);
        let mut i: usize = 0;
        while i < self.entries.len()
            invariant
                s == pairs_view(&self.entries),
                paths_distinct(s),
                i <= s.len(),
                forall|k: int| 0 <= k < i ==> (#[trigger] s[k]).0 != pview(path),
            decreases s.len() - i,
        {
            assert(s[i as int] == (pview(&self.entries@[i as int].0), self.entries@[i as int].1));
            if crate::path::paths_eq(&self.entries[i].0, path) {
                proof {
                    let c = choose|k: int| 0 <= k < s.len() && (#[trigger] s[k]).0 == pview(path);
                    assert(c == i);
                }
                return Some(self.entries[i].1);
            }
            i = i + 1;
        }
        assert(!self.view().contains_key(pview(path)));
        None
    }

    /// Gives `path`, which has no inode yet, the inode `ino`.
    pub fn insert_new(&mut self, path: &Vec<Vec<u8>>, ino: u64)
        requires
            old(self).wf(),
            !old(self).view().contains_key(pview(path)),
        ensures
            final(self).wf(),
            final(self).view() == old(self).view().insert(pview(path), ino),
    {
        let ghost s0 = pairs_view(&self.entries);
        let p = clone_path(path);
        let ghost before = self.entries@;
        self.entries.push((p, ino));
        proof {
            let s = pairs_view(&self.entries);
            assert(self.entries@ == before.push((p, ino)));
            assert(s =~= s0.push((pview(path), ino)));
            assert forall|k: int| 0 <= k < s0.len() implies (#[trigger] s0[k]).0 != pview(path) by {
                if s0[k].0 == pview(path) {
                    assert(old(self).view().contains_key(pview(path)));
                }
            }
            assert forall|q: Seq<Seq<u8>>| #[trigger] self.view().contains_key(q) == old(self).view().insert(pview(path), ino).contains_key(q) by {
                if q == pview(path) {
                    assert(s[s0.len() as int].0 == q);
                } else if old(self).view().contains_key(q) {
                    let c = choose|k: int| 0 <= k < s0.len() && (#[trigger] s0[k]).0 == q;
                    assert(s[c] == s0[c]);
                } else if self.view().contains_key(q) {
                    let c = choose|k: int| 0 <= k < s.len() && (#[trigger] s[k]).0 == q;
                    assert(c < s0.len());
                    assert(s0[c] == s[c]);
                }
            }
            assert forall|q: Seq<Seq<u8>>| #[trigger] self.view().contains_key(q) implies self.view()[q] == old(self).view().insert(pview(path), ino)[q] by {
                let c = choose|k: int| 0 <= k < s.len() && (#[trigger] s[k]).0 == q;
                if q == pview(path) {
                    assert(c == s0.len());
                } else {
                    let c0 = choose|k: int| 0 <= k < s0.len() && (#[trigger] s0[k]).0 == q;
                    assert(s[c0] == s0[c0]);
                    assert(c == c0);
                }
            }
            assert(self.view() =~= old(self).view().insert(pview(path), ino));
        }
    }
}

} // verus!
