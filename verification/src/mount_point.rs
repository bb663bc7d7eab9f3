//! A host directory tree, read once when it is mounted and then answered from
//! memory: every object is an entry of a table, and each directory entry lists the
//! table indices and names of its children.

use vstd::prelude::*;
use crate::attr::{FileAttr, Stat, attr_from_stat, spec_attr_from_stat, supported_stat};
use crate::file_type::{FileKind, S_IFDIR, S_IFLNK, S_IFMT, S_IFREG, spec_stat_file_type};
use crate::path::{names_eq, pview};
use crate::vfs::{DirEntry, FileType, Layer, entries_view};

verus! {

/// One object of a mounted tree: its `stat` record and, for a directory, its
/// children as (table index, name) pairs.
pub struct FileEntry {
    pub stat: Stat,
    pub dir_contents: Option<Vec<(usize, Vec<u8>)>>,
}

/// The view of a directory's children.
pub open spec fn contents_view(dc: &Vec<(usize, Vec<u8>)>) -> Seq<(usize, Seq<u8>)> {
    dc@.map_values(|p: (usize, Vec<u8>)| (p.0, p.1@))
}

/// The view of a table entry: its `stat` record and, for a directory, its children.
pub open spec fn entry_view(e: FileEntry) -> (Stat, Option<Seq<(usize, Seq<u8>)>>) {
    (
        e.stat,
        match e.dir_contents {
            Some(dc) => Some(contents_view(&dc)),
            None => None,
        },
    )
}

/// The view of a table.
pub open spec fn table_view(files: &Vec<FileEntry>) -> Seq<(Stat, Option<Seq<(usize, Seq<u8>)>>)> {
    files@.map_values(|e: FileEntry| entry_view(e))
}

/// The table index of the first child named `name`.
pub open spec fn lookup_child(dc: Seq<(usize, Seq<u8>)>, name: Seq<u8>) -> Option<usize>
    decreases dc.len(),
{
    if dc.len() == 0 {
        None
    } else if dc[0].1 == name {
        Some(dc[0].0)
    } else {
        lookup_child(dc.drop_first(), name)
    }
}

/// The table index that `path` leads to from the entry `idx`, taking at each step the
/// first child of the current directory with the next name.
pub open spec fn resolve(
    t: Seq<(Stat, Option<Seq<(usize, Seq<u8>)>>)>,
    idx: int,
    path: Seq<Seq<u8>>,
) -> Option<int>
    decreases path.len(),
{
    if path.len() == 0 {
        Some(idx)
    } else if 0 <= idx < t.len() {
        match t[idx].1 {
            Some(dc) => match lookup_child(dc, path[0]) {
                Some(c) => resolve(t, c as int, path.drop_first()),
                None => None,
            },
            None => None,
        }
    } else {
        None
    }
}

/// A well-formed table: the root is entry 0, every child index names an entry other
/// than the root, and every entry is of a kind that the kernel understands.
pub open spec fn table_wf(t: Seq<(Stat, Option<Seq<(usize, Seq<u8>)>>)>) -> bool {
    &&& t.len() >= 1
    &&& forall|i: int| 0 <= i < t.len() ==> supported_stat(#[trigger] t[i].0)
    &&& forall|i: int, j: int|
        0 <= i < t.len() && (#[trigger] t[i].1) is Some && 0 <= j < t[i].1.unwrap().len() ==> 1
            <= #[trigger] t[i].1.unwrap()[j].0 < t.len()
}

/// The kind of directory entry that a mode word describes, if it is a directory, a
/// symbolic link or a regular file.
pub open spec fn spec_vfs_file_type(mode: u32) -> Option<FileType> {
    let t = mode & S_IFMT;
    if t == S_IFDIR {
        Some(FileType::Dir)
    } else if t == S_IFLNK {
        Some(FileType::Symlink)
    } else if t == S_IFREG {
        Some(FileType::File)
    } else {
        None
    }
}

/// The listing of the children `dc`: each child of a listable kind, in order.
pub open spec fn listing(
    t: Seq<(Stat, Option<Seq<(usize, Seq<u8>)>>)>,
    dc: Seq<(usize, Seq<u8>)>,
) -> Seq<(Seq<u8>, FileType)>
    decreases dc.len(),
{
    if dc.len() == 0 {
        Seq::empty()
    } else {
        let rest = listing(t, dc.drop_last());
        match spec_vfs_file_type(t[dc.last().0 as int].0.mode) {
            Some(ty) => rest.push((dc.last().1, ty)),
            None => rest,
        }
    }
}

/// Decodes the kind of directory entry from a `stat` record.
pub fn stat_vfs_file_type(stat: &Stat) -> (r: Option<FileType>)
    ensures
        r == spec_vfs_file_type(stat.mode),
{
    let t = stat.mode & S_IFMT;
    if t == S_IFDIR {
        Some(FileType::Dir)
    } else if t == S_IFLNK {
        Some(FileType::Symlink)
    } else if t == S_IFREG {
        Some(FileType::File)
    } else {
        None
    }
}

proof fn lemma_lookup_step(dc: Seq<(usize, Seq<u8>)>, name: Seq<u8>, j: int)
    requires
        0 <= j < dc.len(),
    ensures
        lookup_child(dc.skip(j), name) == if dc[j].1 == name {
            Some(dc[j].0)
        } else {
            lookup_child(dc.skip(j + 1), name)
        },
{
    assert(dc.skip(j).drop_first() =~= dc.skip(j + 1));
}

proof fn lemma_lookup_in_range(dc: Seq<(usize, Seq<u8>)>, name: Seq<u8>, n: int)
    requires
        forall|j: int| 0 <= j < dc.len() ==> 1 <= #[trigger] dc[j].0 < n,
    ensures
        lookup_child(dc, name) matches Some(c) ==> 1 <= c < n,
    decreases dc.len(),
{
    if dc.len() > 0 && dc[0].1 != name {
        assert forall|j: int| 0 <= j < dc.drop_first().len() implies 1 <= #[trigger] dc.drop_first()[j].0 < n by {
            assert(dc.drop_first()[j] == dc[j + 1]);
        }
        lemma_lookup_in_range(dc.drop_first(), name, n);
    }
}

/// In a well-formed table, a path from a valid entry leads to a valid entry, and a
/// path with at least one component never leads to the root.
pub proof fn lemma_resolve_in_range(
    t: Seq<(Stat, Option<Seq<(usize, Seq<u8>)>>)>,
    idx: int,
    path: Seq<Seq<u8>>,
)
    requires
        table_wf(t),
        0 <= idx < t.len(),
    ensures
        resolve(t, idx, path) matches Some(i) ==> 0 <= i < t.len() && (path.len() > 0 ==> i >= 1),
    decreases path.len(),
{
    if path.len() > 0 {
        if let Some(dc) = t[idx].1 {
            assert forall|j: int| 0 <= j < dc.len() implies 1 <= #[trigger] dc[j].0 < t.len() by {
                assert(t[idx].1 is Some);
            }
            lemma_lookup_in_range(dc, path[0], t.len() as int);
            if let Some(c) = lookup_child(dc, path[0]) {
                lemma_resolve_in_range(t, c as int, path.drop_first());
            }
        }
    }
}

/// A host directory tree held in memory, with the descriptor of its root directory.
pub struct MountPoint {
    fd: i32,
    files: Vec<FileEntry>,
}

impl MountPoint {
    /// The descriptor of the root directory of the tree.
    pub closed spec fn spec_fd(&self) -> i32 {
        self.fd
    }

    /// The descriptor of the root directory of the tree.
    pub fn fd(&self) -> (r: i32)
        ensures
            r == self.spec_fd(),
    {
        self.fd
    }

    /// The table of entries.
    pub closed spec fn table(&self) -> Seq<(Stat, Option<Seq<(usize, Seq<u8>)>>)> {
        table_view(&self.files)
    }

    /// The entry that `path` leads to from the root.
    pub open spec fn spec_find(&self, path: Seq<Seq<u8>>) -> Option<int> {
        resolve(self.table(), 0, path)
    }

    /// Finds the table index of the object at `path`, walking down from the root.
    pub fn find_entry_idx_for_path(&self, path: &Vec<Vec<u8>>) -> (r: Option<usize>)
        requires
            table_wf(self.table()),
        ensures
            match r {
                Some(i) => self.spec_find(pview(path)) == Some(i as int) && i < self.table().len(),
                None => self.spec_find(pview(path)) is None,
            },
    {
        let ghost t = self.table();
        let ghost p = pview(path);
        let mut cur: usize = 0;
        let mut i: usize = 0;
        assert(p.skip(0) =~= p);
        while i < path.len()
            invariant
                t == self.table(),
                p == pview(path),
                table_wf(t),
                i <= path.len(),
                cur < t.len(),
                t.len() == self.files.len(),
                resolve(t, 0, p) == resolve(t, cur as int, p.skip(i as int)),
            decreases path.len() - i,
        {
            let name = &path[i];
            let ghost rest = p.skip(i as int);
            assert(rest[0] == name@);
            assert(rest.drop_first() =~= p.skip(i + 1));
            let entry = &self.files[cur];
            assert(entry_view(*entry) == t[cur as int]);
            match &entry.dir_contents {
                Some(dc) => {
                    let ghost dv = contents_view(dc);
                    assert(t[cur as int].1 == Some(dv));
                    let mut j: usize = 0;
                    let mut found: Option<usize> = None;
                    assert(dv.skip(0) =~= dv);
                    while j < dc.len()
                        invariant_except_break
                            found is None,
                            lookup_child(dv, name@) == lookup_child(dv.skip(j as int), name@),
                        invariant
                            dv == contents_view(dc),
                            j <= dc.len(),
                        ensures
                            lookup_child(dv, name@) == found,
                        decreases dc.len() - j,
                    {
                        proof {
                            lemma_lookup_step(dv, name@, j as int);
                        }
                        assert(dv[j as int] == (dc[j as int].0, dc[j as int].1@));
                        let same = names_eq(&dc[j].1, name);
                        assert(same == (dc[j as int].1@ == name@));
                        if same {
                            found = Some(dc[j].0);
                            break;
                        }
                        j = j + 1;
                        if j == dc.len() {
                            assert(dv.skip(j as int) =~= Seq::<(usize, Seq<u8>)>::empty());
                        }
                    }
                    match found {
                        Some(c) => {
                            proof {
                                assert(lookup_child(dv, name@) == Some(c));
                                assert forall|k: int| 0 <= k < dv.len() implies 1 <= #[trigger] dv[k].0 < t.len() by {
                                    assert(t[cur as int].1 is Some);
                                }
                                lemma_lookup_in_range(dv, name@, t.len() as int);
                            }
                            cur = c;
                        },
                        None => {
                            return None;
                        },
                    }
                },
                None => {
                    return None;
                },
            }
            i = i + 1;
        }
        assert(p.skip(i as int) =~= Seq::<Seq<u8>>::empty());
        Some(cur)
    }
}


impl MountPoint {
    /// The listing of the entry `i`: its listable children if it is a directory, and
    /// nothing otherwise.
    pub open spec fn entry_listing(&self, i: int) -> Seq<(Seq<u8>, FileType)> {
        match self.table()[i].1 {
            Some(dc) => listing(self.table(), dc),
            None => Seq::empty(),
        }
    }

    /// Every entry whose mode word names a directory had its listing read: its children
    /// are recorded.
    pub open spec fn dirs_read(&self) -> bool {
        forall|i: int|
            0 <= i < self.table().len() && (#[trigger] self.table()[i]).0.mode & S_IFMT == S_IFDIR ==> self.table()[i].1 is Some
    }

    /// The inodes of all entries but the root lie in `[lo, hi)`.
    pub open spec fn inodes_within(&self, lo: u64, hi: u64) -> bool {
        forall|i: int| 1 <= i < self.table().len() ==> lo <= (#[trigger] self.table()[i]).0.ino < hi
    }
}

impl Layer for MountPoint {
    open spec fn inv(&self) -> bool {
        table_wf(self.table())
    }

    open spec fn spec_dir_exists(&self, dir: Seq<Seq<u8>>) -> bool {
        match self.spec_find(dir) {
            Some(i) => self.table()[i].1 is Some,
            None => false,
        }
    }

    open spec fn spec_file_exists(&self, file: Seq<Seq<u8>>) -> bool {
        match self.spec_find(file) {
            Some(i) => self.table()[i].1 is None,
            None => false,
        }
    }

    open spec fn spec_read_dir(&self, dir: Seq<Seq<u8>>) -> Seq<(Seq<u8>, FileType)> {
        match self.spec_find(dir) {
            Some(i) => self.entry_listing(i),
            None => Seq::empty(),
        }
    }

    open spec fn spec_file_attr(&self, file: Seq<Seq<u8>>) -> Option<FileAttr> {
        match self.spec_find(file) {
            Some(i) => Some(spec_attr_from_stat(self.table()[i].0)),
            None => None,
        }
    }

    fn dir_exists(&self, dir: &Vec<Vec<u8>>) -> (r: bool) {
        match self.find_entry_idx_for_path(dir) {
            Some(i) => {
                assert(entry_view(self.files@[i as int]) == self.table()[i as int]);
                self.files[i].dir_contents.is_some()
            },
            None => false,
        }
    }

    fn file_exists(&self, file: &Vec<Vec<u8>>) -> (r: bool) {
        match self.find_entry_idx_for_path(file) {
            Some(i) => {
                assert(entry_view(self.files@[i as int]) == self.table()[i as int]);
                self.files[i].dir_contents.is_none()
            },
            None => false,
        }
    }

    fn read_dir(&self, dir: &Vec<Vec<u8>>) -> (r: Vec<DirEntry>) {
        let mut out: Vec<DirEntry> = Vec::new();
        let idx = match self.find_entry_idx_for_path(dir) {
            Some(i) => i,
            None => {
                assert(entries_view(&out) =~= Seq::<(Seq<u8>, FileType)>::empty());
                return out;
            },
        };
        let ghost t = self.table();
        assert(entry_view(self.files@[idx as int]) == t[idx as int]);
        match &self.files[idx].dir_contents {
            Some(dc) => {
                let ghost dv = contents_view(dc);
                assert(t[idx as int].1 == Some(dv));
                let mut j: usize = 0;
                assert(entries_view(&out) =~= listing(t, dv.subrange(0, 0)));
                while j < dc.len()
                    invariant
                        t == self.table(),
                        table_wf(t),
                        t.len() == self.files.len(),
                        t[idx as int].1 == Some(dv),
                        0 <= idx < t.len(),
                        dv == contents_view(dc),
                        j <= dc.len(),
                        entries_view(&out) == listing(t, dv.subrange(0, j as int)),
                    decreases dc.len() - j,
                {
                    let child = dc[j].0;
                    assert(dv[j as int] == (dc[j as int].0, dc[j as int].1@));
                    assert(t[idx as int].1.unwrap()[j as int].0 == dv[j as int].0);
                    assert(1 <= dv[j as int].0 < t.len());
                    assert(entry_view(self.files@[child as int]) == t[child as int]);
                    let ghost sub = dv.subrange(0, j + 1);
                    assert(sub.drop_last() =~= dv.subrange(0, j as int));
                    assert(sub.last() == dv[j as int]);
                    let ghost before = out@;
                    match stat_vfs_file_type(&self.files[child].stat) {
                        Some(typ) => {
                            let name = crate::path::clone_name(&dc[j].1);
                            out.push(DirEntry { name, typ });
                            assert(out@ == before.push(DirEntry { name, typ }));
                            assert(entries_view(&out) =~= listing(t, dv.subrange(0, j as int)).push(
                                (dv[j as int].1, typ),
                            ));
                        },
                        None => {},
                    }
                    j = j + 1;
                }
                assert(dv.subrange(0, dc.len() as int) =~= dv);
            },
            None => {
                assert(entries_view(&out) =~= Seq::<(Seq<u8>, FileType)>::empty());
            },
        }
        out
    }

    fn file_attr(&self, file: &Vec<Vec<u8>>) -> (r: Option<FileAttr>) {
        match self.find_entry_idx_for_path(file) {
            Some(i) => {
                assert(entry_view(self.files@[i as int]) == self.table()[i as int]);
                assert(supported_stat(self.table()[i as int].0));
                Some(attr_from_stat(&self.files[i].stat))
            },
            None => None,
        }
    }
}


/// The entries that a directory listing adds to the table: each listed object, in
/// order, with the inodes `start`, `start + 1`, ... in place of its host inode.
pub open spec fn new_entries(listing: Seq<(Seq<u8>, Stat)>, start: u64) -> Seq<(Stat, Option<Seq<(usize, Seq<u8>)>>)> {
    Seq::new(listing.len(), |j: int| (Stat { ino: (start + j) as u64, ..listing[j].1 }, None))
}

/// The children that a directory listing gives its directory, where the table held
/// `n` entries before the listing.
pub open spec fn new_children(listing: Seq<(Seq<u8>, Stat)>, n: int) -> Seq<(usize, Seq<u8>)> {
    Seq::new(listing.len(), |j: int| ((n + j) as usize, listing[j].0))
}

/// The directories of a listing of `dir_name`, in order, as (path, table index) pairs
/// still to be read, where the table held `n` entries before the listing.
pub open spec fn new_dirs(dir_name: Seq<Seq<u8>>, listing: Seq<(Seq<u8>, Stat)>, n: int) -> Seq<(Seq<Seq<u8>>, usize)>
    decreases listing.len(),
{
    if listing.len() == 0 {
        Seq::empty()
    } else {
        let rest = new_dirs(dir_name, listing.drop_last(), n);
        if spec_stat_file_type(listing.last().1.mode) == Some(FileKind::Directory) {
            rest.push((dir_name.push(listing.last().0), (n + listing.len() - 1) as usize))
        } else {
            rest
        }
    }
}

/// The view of a directory listing as the host reports it.
pub open spec fn listing_view(l: &Vec<(Vec<u8>, Stat)>) -> Seq<(Seq<u8>, Stat)> {
    l@.map_values(|p: (Vec<u8>, Stat)| (p.0@, p.1))
}

/// A mounted tree under construction: the host tree is read one directory at a time,
/// depth first, and every object found gets the next inode number.
pub struct MountPointBuilder {
    fd: i32,
    files: Vec<FileEntry>,
    directories: Vec<(Vec<Vec<u8>>, usize)>,
    next_inode: u64,
    first_inode: Ghost<u64>,
    taken: Ghost<Set<usize>>,
}

impl MountPointBuilder {
    /// The table built so far.
    pub closed spec fn table(&self) -> Seq<(Stat, Option<Seq<(usize, Seq<u8>)>>)> {
        table_view(&self.files)
    }

    /// The directories still to be read, as (path below the root, table index) pairs;
    /// the last one is read next.
    pub closed spec fn pending(&self) -> Seq<(Seq<Seq<u8>>, usize)> {
        self.directories@.map_values(|d: (Vec<Vec<u8>>, usize)| (pview(&d.0), d.1))
    }

    /// The inode that the next object found will get.
    pub closed spec fn next(&self) -> u64 {
        self.next_inode
    }

    /// The inode that the first object found got (or will get).
    pub closed spec fn first(&self) -> u64 {
        self.first_inode@
    }

    /// The descriptor of the root directory.
    pub closed spec fn root_fd(&self) -> i32 {
        self.fd
    }

    /// The table indices of the directories taken from the stack whose listing has not
    /// been recorded yet.
    pub closed spec fn taken(&self) -> Set<usize> {
        self.taken@
    }

    /// Entry `i` is on the stack of directories still to be read.
    pub open spec fn is_pending(&self, i: int) -> bool {
        exists|k: int| 0 <= k < self.pending().len() && #[trigger] self.pending()[k].1 == i
    }

    /// No directory is forgotten: every entry whose mode word names a directory and
    /// whose children are not recorded yet is still to be read, or has been taken to
    /// be read.
    pub open spec fn queued_all(&self) -> bool {
        forall|i: int|
            0 <= i < self.table().len() && (#[trigger] self.table()[i]).1 is None
                && self.table()[i].0.mode & S_IFMT == S_IFDIR ==> self.is_pending(i) || self.taken().contains(
                i as usize,
            )
    }

    /// The builder is consistent: a well-formed table, pending directories that are
    /// entries of it, and entry `i > 0` numbered `first + i - 1`.
    pub open spec fn wf(&self) -> bool {
        &&& table_wf(self.table())
        &&& forall|k: int| 0 <= k < self.pending().len() ==> (#[trigger] self.pending()[k]).1 < self.table().len()
        &&& forall|i: int| 1 <= i < self.table().len() ==> (#[trigger] self.table()[i]).0.ino == self.first() + i - 1
        &&& self.next() == self.first() + self.table().len() - 1
    }

    /// Starts reading the tree whose root directory has the descriptor `fd` and the
    /// `stat` record `root`; the objects below it will be numbered from `next_inode`.
    pub fn new(fd: i32, root: Stat, next_inode: u64) -> (r: Self)
        requires
            supported_stat(root),
        ensures
            r.wf(),
            r.table() == seq![(root, None::<Seq<(usize, Seq<u8>)>>)],
            r.pending() == seq![(Seq::<Seq<u8>>::empty(), 0usize)],
            r.next() == next_inode,
            r.first() == next_inode,
            r.root_fd() == fd,
            r.taken() == Set::<usize>::empty(),
            r.queued_all(),
    {
        let mut files: Vec<FileEntry> = Vec::new();
        files.push(FileEntry { stat: root, dir_contents: None });
        let mut directories: Vec<(Vec<Vec<u8>>, usize)> = Vec::new();
        directories.push((Vec::new(), 0));
        let r = MountPointBuilder {
            fd,
            files,
            directories,
            next_inode,
            first_inode: Ghost(next_inode),
            taken: Ghost(Set::empty()),
        };
        assert(r.table() =~= seq![(root, None::<Seq<(usize, Seq<u8>)>>)]);
        assert(pview(&r.directories@[0].0) =~= Seq::<Seq<u8>>::empty());
        assert(r.pending() =~= seq![(Seq::<Seq<u8>>::empty(), 0usize)]);
        assert(r.pending()[0].1 == 0);
        r
    }

    /// The inode that the next object found will get.
    pub fn next_inode(&self) -> (r: u64)
        ensures
            r == self.next(),
    {
        self.next_inode
    }

    /// Takes the next directory to read, the one pushed last.
    pub fn next_dir(&mut self) -> (r: Option<(Vec<Vec<u8>>, usize)>)
        requires
            old(self).wf(),
        ensures
            final(self).wf(),
            final(self).table() == old(self).table(),
            final(self).next() == old(self).next(),
            final(self).first() == old(self).first(),
            final(self).root_fd() == old(self).root_fd(),
            match r {
                Some(d) => old(self).pending().len() > 0
                    && final(self).pending() == old(self).pending().drop_last()
                    && (pview(&d.0), d.1) == old(self).pending().last()
                    && d.1 < final(self).table().len(),
                None => old(self).pending().len() == 0 && final(self).pending() == old(self).pending(),
            },
            final(self).taken() == match r {
                Some(d) => old(self).taken().insert(d.1),
                None => old(self).taken(),
            },
            old(self).queued_all() ==> final(self).queued_all(),
    {
        let r = self.directories.pop();
        proof {
            if r is Some {
                let d = r->0;
                self.taken@ = self.taken@.insert(d.1);
                let p0 = old(self).pending();
                assert(self.pending() =~= p0.drop_last());
                assert(p0[p0.len() - 1].1 < self.table().len());
                if old(self).queued_all() {
                    let t = self.table();
                    assert forall|i: int|
                        0 <= i < t.len() && (#[trigger] t[i]).1 is None && t[i].0.mode & S_IFMT == S_IFDIR implies self.is_pending(i)
                            || self.taken().contains(i as usize) by {
                        assert(old(self).table()[i] == t[i]);
                        assert(old(self).is_pending(i) || old(self).taken().contains(i as usize));
                        if old(self).is_pending(i) {
                            let k = choose|k: int| 0 <= k < p0.len() && #[trigger] p0[k].1 == i;
                            if k < p0.len() - 1 {
                                assert(self.pending()[k] == p0[k]);
                            } else {
                                assert(p0.last() == (pview(&d.0), d.1));
                                assert(d.1 as int == i);
                            }
                        }
                    }
                }
            }
        }
        r
    }

    /// Records the listing of the pending directory `dir_name`, entry `dir_idx`: each
    /// listed object becomes a new entry numbered with the next inode, the directory's
    /// children become exactly the listed objects, and each listed directory is put on
    /// the pending stack, in order.
    pub fn add_listing(&mut self, dir_name: &Vec<Vec<u8>>, dir_idx: usize, listing: &Vec<(Vec<u8>, Stat)>)
        requires
            old(self).wf(),
            dir_idx < old(self).table().len(),
            forall|j: int| 0 <= j < listing@.len() ==> supported_stat(#[trigger] listing@[j].1),
            old(self).next() + listing@.len() <= u64::MAX,
        ensures
            final(self).wf(),
            final(self).table() == old(self).table().update(
                dir_idx as int,
                (old(self).table()[dir_idx as int].0, Some(new_children(listing_view(listing), old(self).table().len() as int))),
            ) + new_entries(listing_view(listing), old(self).next()),
            final(self).pending() == old(self).pending() + new_dirs(pview(dir_name), listing_view(listing), old(self).table().len() as int),
            final(self).next() == old(self).next() + listing@.len(),
            final(self).first() == old(self).first(),
            final(self).root_fd() == old(self).root_fd(),
            final(self).taken() == old(self).taken().remove(dir_idx),
            old(self).queued_all() ==> final(self).queued_all(),
    {
        let ghost t0 = self.table();
        let ghost p0 = self.pending();
        let ghost n = t0.len() as int;
        let ghost next0 = self.next_inode;
        let ghost lv = listing_view(listing);
        let mut dir_contents: Vec<(usize, Vec<u8>)> = Vec::new();
        let mut j: usize = 0;
        assert(new_entries(lv.take(0), next0) =~= Seq::<(Stat, Option<Seq<(usize, Seq<u8>)>>)>::empty());
        assert(t0 + new_entries(lv.take(0), next0) =~= t0);
        assert(p0 + new_dirs(pview(dir_name), lv.take(0), n) =~= p0);
        while j < listing.len()
            invariant
                t0.len() == n,
                n >= 1,
                lv == listing_view(listing),
                j <= listing.len(),
                self.files@.len() == n + j,
                self.table() == t0 + new_entries(lv.take(j as int), next0),
                self.pending() == p0 + new_dirs(pview(dir_name), lv.take(j as int), n),
                contents_view(&dir_contents) == new_children(lv.take(j as int), n),
                self.next_inode == next0 + j,
                next0 + listing@.len() <= u64::MAX,
                self.first_inode == old(self).first_inode,
                self.taken == old(self).taken,
                self.fd == old(self).fd,
                dir_idx < n,
            decreases listing.len() - j,
        {
            let ghost tb = self.table();
            let ghost pb = self.pending();
            assert(lv[j as int] == (listing@[j as int].0@, listing@[j as int].1));
            assert(lv.take(j + 1).drop_last() =~= lv.take(j as int));
            assert(lv.take(j + 1).last() == lv[j as int]);
            let idx = self.files.len();
            let is_dir = match crate::file_type::stat_file_type(listing[j].1.mode) {
                Some(FileKind::Directory) => true,
                _ => false,
            };
            if is_dir {
                let sub = crate::path::child_path(dir_name, &listing[j].0);
                let ghost before = self.directories@;
                self.directories.push((sub, idx));
                assert(self.directories@ == before.push((sub, idx)));
                assert(self.pending() =~= pb.push((pview(dir_name).push(lv[j as int].0), idx)));
            } else {
                assert(self.pending() =~= pb);
            }
            let name = crate::path::clone_name(&listing[j].0);
            let ghost dcb = dir_contents@;
            let ghost cvb = contents_view(&dir_contents);
            dir_contents.push((idx, name));
            assert(dir_contents@ == dcb.push((idx, name)));
            assert(contents_view(&dir_contents) =~= cvb.push((idx, name@)));
            assert(new_children(lv.take(j + 1), n) =~= new_children(lv.take(j as int), n).push(((n + j) as usize, lv[j as int].0)));
            let mut stat = listing[j].1;
            stat.ino = self.next_inode;
            let ghost fb = self.files@;
            assert(stat == Stat { ino: (next0 + j) as u64, ..lv[j as int].1 });
            self.files.push(FileEntry { stat, dir_contents: None });
            assert(self.files@ == fb.push(FileEntry { stat, dir_contents: None }));
            assert(self.table() =~= tb.push((stat, None)));
            assert(new_entries(lv.take(j + 1), next0) =~= new_entries(lv.take(j as int), next0).push((stat, None)));
            assert(self.table() =~= t0 + new_entries(lv.take(j + 1), next0));
            self.next_inode = self.next_inode + 1;
            j = j + 1;
        }
        assert(lv.take(listing.len() as int) =~= lv);
        let total = self.files.len();
        assert(n + listing@.len() == total);
        let stat = self.files[dir_idx].stat;
        assert(entry_view(self.files@[dir_idx as int]) == self.table()[dir_idx as int]);
        let ghost fb = self.files@;
        let ghost tt = self.table();
        let ghost dcv = contents_view(&dir_contents);
        assert(tt[dir_idx as int] == t0[dir_idx as int]);
        self.files.set(dir_idx, FileEntry { stat, dir_contents: Some(dir_contents) });
        proof {
            self.taken@ = self.taken@.remove(dir_idx);
            assert(self.files@ == fb.update(dir_idx as int, FileEntry { stat, dir_contents: Some(dir_contents) }));
            assert(self.table() =~= tt.update(dir_idx as int, (stat, Some(dcv))));
            assert(self.table() =~= t0.update(dir_idx as int, (t0[dir_idx as int].0, Some(dcv))) + new_entries(lv, next0));
            let t = self.table();
            assert forall|i: int| 0 <= i < t.len() implies supported_stat(#[trigger] t[i].0) by {
                if i < n {
                    assert(supported_stat(t0[i].0));
                } else {
                    assert(supported_stat(listing@[i - n].1));
                }
            }
            assert forall|i: int, k: int|
                0 <= i < t.len() && (#[trigger] t[i].1) is Some && 0 <= k < t[i].1.unwrap().len() implies 1
                    <= #[trigger] t[i].1.unwrap()[k].0 < t.len() by {
                if i == dir_idx {
                    assert(t[i].1.unwrap() == dcv);
                    assert(dcv[k].0 == n + k);
                } else if i < n {
                    assert(t[i] == t0[i]);
                    assert(t0[i].1.unwrap()[k].0 == t[i].1.unwrap()[k].0);
                } else {
                    assert(t[i].1 is None);
                }
            }
            assert forall|i: int| 1 <= i < t.len() implies (#[trigger] t[i]).0.ino == self.first() + i - 1 by {
                if i < n {
                    if i != dir_idx {
                        assert(t[i] == t0[i]);
                    }
                    assert(t0[i].0.ino == old(self).first() + i - 1);
                }
            }
            assert forall|k: int| 0 <= k < self.pending().len() implies (#[trigger] self.pending()[k]).1 < t.len() by {
                if k < p0.len() {
                    assert(self.pending()[k] == p0[k]);
                } else {
                    lemma_new_dirs_in_range(pview(dir_name), lv, n);
                    assert(self.pending()[k] == new_dirs(pview(dir_name), lv, n)[k - p0.len()]);
                }
            }
            if old(self).queued_all() {
                let nd = new_dirs(pview(dir_name), lv, n);
                assert forall|i: int|
                    0 <= i < t.len() && (#[trigger] t[i]).1 is None && t[i].0.mode & S_IFMT == S_IFDIR implies self.is_pending(i)
                        || self.taken().contains(i as usize) by {
                    if i < n {
                        assert(i != dir_idx);
                        assert(t[i] == t0[i]);
                        assert(old(self).is_pending(i) || old(self).taken().contains(i as usize));
                        if old(self).is_pending(i) {
                            let k = choose|k: int| 0 <= k < p0.len() && #[trigger] p0[k].1 == i;
                            assert(self.pending()[k] == p0[k]);
                        }
                    } else {
                        let j = i - n;
                        assert(t[i].0.mode == lv[j].1.mode);
                        lemma_new_dirs_contains(pview(dir_name), lv, n, j);
                        let w = choose|w: int| 0 <= w < nd.len() && nd[w] == (pview(dir_name).push(lv[j].0), (n + j) as usize);
                        assert(self.pending()[p0.len() + w] == nd[w]);
                        assert(self.pending()[p0.len() + w].1 == i);
                    }
                }
            }
        }
    }

    /// Ends the reading: the tree as read, and the inode that the next object found
    /// elsewhere would get.
    pub fn finish(self) -> (r: (MountPoint, u64))
        requires
            self.wf(),
        ensures
            r.0.table() == self.table(),
            r.0.inv(),
            r.0.spec_fd() == self.root_fd(),
            r.0.inodes_within(self.first(), self.next()),
            forall|i: int| 1 <= i < r.0.table().len() ==> (#[trigger] r.0.table()[i]).0.ino == self.first() + i - 1,
            r.1 == self.next(),
            self.queued_all() && self.pending().len() == 0 && self.taken().is_empty() ==> r.0.dirs_read(),
    {
        let next = self.next_inode;
        let mp = MountPoint { fd: self.fd, files: self.files };
        assert(mp.table() == self.table());
        proof {
            if self.queued_all() && self.pending().len() == 0 && self.taken().is_empty() {
                lemma_builder_done(self);
            }
        }
        (mp, next)
    }
}

proof fn lemma_new_dirs_in_range(dir_name: Seq<Seq<u8>>, listing: Seq<(Seq<u8>, Stat)>, n: int)
    requires
        n >= 0,
        n + listing.len() <= usize::MAX,
    ensures
        forall|k: int| 0 <= k < new_dirs(dir_name, listing, n).len() ==> n <= (#[trigger] new_dirs(dir_name, listing, n)[k]).1 < n + listing.len(),
    decreases listing.len(),
{
    if listing.len() > 0 {
        lemma_new_dirs_in_range(dir_name, listing.drop_last(), n);
        let rest = new_dirs(dir_name, listing.drop_last(), n);
        let all = new_dirs(dir_name, listing, n);
        assert forall|k: int| 0 <= k < all.len() implies n <= (#[trigger] all[k]).1 < n + listing.len() by {
            if k < rest.len() {
                assert(all[k] == rest[k]);
            }
        }
    }
}


/// In a well-formed tree whose non-root inodes lie in `[lo, hi)`, the attributes of
/// any object below the root carry an inode in `[lo, hi)`.
pub proof fn lemma_attr_inode_within(mp: MountPoint, p: Seq<Seq<u8>>, lo: u64, hi: u64)
    requires
        mp.inv(),
        mp.inodes_within(lo, hi),
        p.len() > 0,
        mp.spec_file_attr(p) is Some,
    ensures
        lo <= mp.spec_file_attr(p).unwrap().ino < hi,
{
    lemma_resolve_in_range(mp.table(), 0, p);
    let i = mp.spec_find(p).unwrap();
    assert(1 <= i < mp.table().len());
    assert(lo <= mp.table()[i].0.ino < hi);
}

/// `name` is `.` or `..`, the entries of a host directory listing that stand for the
/// directory itself and its parent, which a mounted tree leaves out.
pub fn is_dot_entry(name: &Vec<u8>) -> (r: bool)
    ensures
        r == (name@ == seq![0x2eu8] || name@ == seq![0x2eu8, 0x2eu8]),
{
    if name.len() == 1 {
        let r = name[0] == 0x2e;
        assert(r ==> name@ =~= seq![0x2eu8]);
        r
    } else if name.len() == 2 {
        let r = name[0] == 0x2e && name[1] == 0x2e;
        assert(r ==> name@ =~= seq![0x2eu8, 0x2eu8]);
        r
    } else {
        false
    }
}

/// No path of a mounted tree is both a directory and a file.
pub proof fn lemma_dir_or_file(mp: MountPoint, p: Seq<Seq<u8>>)
    ensures
        !(mp.spec_dir_exists(p) && mp.spec_file_exists(p)),
{
}

/// The kinds of directory entry agree with the kinds of object that the same mode
/// word describes.
pub proof fn lemma_entry_kind_agrees(mode: u32)
    ensures
        spec_vfs_file_type(mode) == Some(FileType::Dir) <==> spec_stat_file_type(mode) == Some(FileKind::Directory),
        spec_vfs_file_type(mode) == Some(FileType::File) <==> spec_stat_file_type(mode) == Some(FileKind::RegularFile),
        spec_vfs_file_type(mode) == Some(FileType::Symlink) <==> spec_stat_file_type(mode) == Some(FileKind::Symlink),
{
}

/// While a tree is read, every object found below the root has an inode of its own:
/// no two entries share one, and all lie in `[first, next)`.
pub proof fn lemma_builder_inodes_distinct(b: MountPointBuilder, i: int, j: int)
    requires
        b.wf(),
        1 <= i < b.table().len(),
        1 <= j < b.table().len(),
        i != j,
    ensures
        b.table()[i].0.ino != b.table()[j].0.ino,
        b.first() <= b.table()[i].0.ino < b.next(),
{
}

proof fn lemma_lookup_some(dc: Seq<(usize, Seq<u8>)>, n: Seq<u8>, j: int)
    requires
        0 <= j < dc.len(),
        dc[j].1 == n,
    ensures
        lookup_child(dc, n) is Some,
    decreases dc.len(),
{
    if dc[0].1 != n {
        assert(dc.drop_first()[j - 1] == dc[j]);
        lemma_lookup_some(dc.drop_first(), n, j - 1);
    }
}

proof fn lemma_listing_has_child(
    t: Seq<(Stat, Option<Seq<(usize, Seq<u8>)>>)>,
    dc: Seq<(usize, Seq<u8>)>,
    n: Seq<u8>,
)
    requires
        crate::vfs::names(listing(t, dc)).contains(n),
    ensures
        lookup_child(dc, n) is Some,
    decreases dc.len(),
{
    broadcast use vstd::seq_lib::group_seq_properties;

    if dc.len() == 0 {
        assert(crate::vfs::names(listing(t, dc)) =~= Seq::<Seq<u8>>::empty());
    } else {
        let rest = listing(t, dc.drop_last());
        let names_rest = crate::vfs::names(rest);
        if names_rest.contains(n) {
            lemma_listing_has_child(t, dc.drop_last(), n);
            let c = lookup_child(dc.drop_last(), n);
            lemma_lookup_prefix(dc, n);
        } else {
            match spec_vfs_file_type(t[dc.last().0 as int].0.mode) {
                Some(ty) => {
                    assert(crate::vfs::names(rest.push((dc.last().1, ty))) =~= names_rest.push(dc.last().1));
                    assert(dc.last().1 == n);
                    lemma_lookup_some(dc, n, dc.len() - 1);
                },
                None => {},
            }
        }
    }
}

proof fn lemma_lookup_prefix(dc: Seq<(usize, Seq<u8>)>, n: Seq<u8>)
    requires
        dc.len() > 0,
        lookup_child(dc.drop_last(), n) is Some,
    ensures
        lookup_child(dc, n) is Some,
    decreases dc.len(),
{
    if dc[0].1 != n {
        assert(dc.drop_last().drop_first() =~= dc.drop_first().drop_last());
        lemma_lookup_prefix(dc.drop_first(), n);
    }
}

proof fn lemma_resolve_push(
    t: Seq<(Stat, Option<Seq<(usize, Seq<u8>)>>)>,
    idx: int,
    p: Seq<Seq<u8>>,
    x: Seq<u8>,
)
    ensures
        resolve(t, idx, p.push(x)) == match resolve(t, idx, p) {
            Some(j) => resolve(t, j, seq![x]),
            None => None,
        },
    decreases p.len(),
{
    if p.len() > 0 {
        assert(p.push(x)[0] == p[0]);
        assert(p.push(x).drop_first() =~= p.drop_first().push(x));
        if 0 <= idx < t.len() {
            if let Some(dc) = t[idx].1 {
                if let Some(c) = lookup_child(dc, p[0]) {
                    lemma_resolve_push(t, c as int, p.drop_first(), x);
                }
            }
        }
    } else {
        assert(p.push(x) =~= seq![x]);
    }
}

/// Every name that a mounted tree lists in a directory can be found below that
/// directory, and has attributes there.
pub proof fn lemma_listed_child_has_attr(mp: MountPoint, d: Seq<Seq<u8>>, n: Seq<u8>)
    requires
        mp.inv(),
        crate::vfs::names(mp.spec_read_dir(d)).contains(n),
    ensures
        mp.spec_file_attr(d.push(n)) is Some,
{
    broadcast use vstd::seq_lib::group_seq_properties;

    let t = mp.table();
    match mp.spec_find(d) {
        Some(i) => {
            lemma_resolve_in_range(t, 0, d);
            match t[i].1 {
                Some(dc) => {
                    lemma_listing_has_child(t, dc, n);
                    lemma_resolve_push(t, 0, d, n);
                    assert(seq![n][0] == n);
                    assert(seq![n].drop_first() =~= Seq::<Seq<u8>>::empty());
                    let c = lookup_child(dc, n).unwrap();
                    assert(resolve(t, c as int, Seq::<Seq<u8>>::empty()) == Some(c as int));
                    assert(resolve(t, i, seq![n]) == Some(c as int));
                    assert(mp.spec_find(d.push(n)) == Some(c as int));
                },
                None => {
                    assert(crate::vfs::names(mp.spec_read_dir(d)) =~= Seq::<Seq<u8>>::empty());
                },
            }
        },
        None => {
            assert(crate::vfs::names(mp.spec_read_dir(d)) =~= Seq::<Seq<u8>>::empty());
        },
    }
}


/// Every path of a mounted tree that leads to an entry names a directory or a file,
/// never both: a directory exactly where the entry's children were recorded, however
/// many there are (an empty directory is a directory), and a file at every other entry,
/// whatever its kind (a symbolic link or a device is a file). A path that leads nowhere
/// names neither; every path that names one of the two has attributes.
pub proof fn lemma_dir_file_partition(mp: MountPoint, p: Seq<Seq<u8>>)
    ensures
        mp.spec_file_attr(p) is Some <==> (mp.spec_dir_exists(p) || mp.spec_file_exists(p)),
        mp.spec_find(p) is None ==> !mp.spec_dir_exists(p) && !mp.spec_file_exists(p),
        mp.spec_find(p) is Some ==> mp.spec_dir_exists(p) != mp.spec_file_exists(p),
        mp.spec_dir_exists(p) == (mp.spec_find(p) matches Some(i) && mp.table()[i].1 is Some),
        mp.spec_file_exists(p) == (mp.spec_find(p) is Some && !mp.spec_dir_exists(p)),
{
}

proof fn lemma_listing_contains(
    t: Seq<(Stat, Option<Seq<(usize, Seq<u8>)>>)>,
    dc: Seq<(usize, Seq<u8>)>,
    k: int,
)
    requires
        0 <= k < dc.len(),
        spec_vfs_file_type(t[dc[k].0 as int].0.mode) is Some,
    ensures
        listing(t, dc).contains((dc[k].1, spec_vfs_file_type(t[dc[k].0 as int].0.mode).unwrap())),
    decreases dc.len(),
{
    let rest = listing(t, dc.drop_last());
    let e = (dc[k].1, spec_vfs_file_type(t[dc[k].0 as int].0.mode).unwrap());
    if k == dc.len() - 1 {
        assert(dc.last() == dc[k]);
        assert(listing(t, dc) == rest.push(e));
        assert(listing(t, dc)[rest.len() as int] == e);
    } else {
        assert(dc.drop_last()[k] == dc[k]);
        lemma_listing_contains(t, dc.drop_last(), k);
        let w = choose|m: int| 0 <= m < rest.len() && rest[m] == e;
        match spec_vfs_file_type(t[dc.last().0 as int].0.mode) {
            Some(ty) => {
                assert(listing(t, dc)[w] == e);
            },
            None => {},
        }
    }
}

/// A directory of a mounted tree lists every one of its children of a listable kind,
/// under the child's name (whatever it is, a leading dot too) and with the kind that
/// the child's mode word names: a directory as `Dir`, a regular file as `File`, a
/// symbolic link as `Symlink`.
pub proof fn lemma_read_dir_lists_every_child(mp: MountPoint, d: Seq<Seq<u8>>, i: int, k: int)
    requires
        mp.inv(),
        mp.spec_find(d) == Some(i),
        mp.table()[i].1 is Some,
        0 <= k < mp.table()[i].1.unwrap().len(),
    ensures
        ({
            let c = mp.table()[i].1.unwrap()[k];
            let m = mp.table()[c.0 as int].0.mode & S_IFMT;
            &&& m == S_IFDIR ==> mp.spec_read_dir(d).contains((c.1, FileType::Dir))
            &&& m == S_IFREG ==> mp.spec_read_dir(d).contains((c.1, FileType::File))
            &&& m == S_IFLNK ==> mp.spec_read_dir(d).contains((c.1, FileType::Symlink))
            &&& spec_vfs_file_type(mp.table()[c.0 as int].0.mode) is Some
                ==> crate::vfs::names(mp.spec_read_dir(d)).contains(c.1)
        }),
{
    let t = mp.table();
    let dc = t[i].1.unwrap();
    let c = dc[k];
    let mode = t[c.0 as int].0.mode;
    if spec_vfs_file_type(mode) is Some {
        lemma_listing_contains(t, dc, k);
        let l = mp.spec_read_dir(d);
        assert(l == listing(t, dc));
        let e = (c.1, spec_vfs_file_type(mode).unwrap());
        let w = choose|m: int| 0 <= m < l.len() && l[m] == e;
        assert(crate::vfs::names(l)[w] == c.1);
    }
}

proof fn lemma_new_dirs_contains(dir_name: Seq<Seq<u8>>, listing: Seq<(Seq<u8>, Stat)>, n: int, j: int)
    requires
        0 <= j < listing.len(),
        spec_stat_file_type(listing[j].1.mode) == Some(FileKind::Directory),
    ensures
        new_dirs(dir_name, listing, n).contains((dir_name.push(listing[j].0), (n + j) as usize)),
    decreases listing.len(),
{
    let rest = new_dirs(dir_name, listing.drop_last(), n);
    let e = (dir_name.push(listing[j].0), (n + j) as usize);
    if j == listing.len() - 1 {
        assert(listing.last() == listing[j]);
        assert(new_dirs(dir_name, listing, n) == rest.push(e));
        assert(new_dirs(dir_name, listing, n)[rest.len() as int] == e);
    } else {
        assert(listing.drop_last()[j] == listing[j]);
        lemma_new_dirs_contains(dir_name, listing.drop_last(), n, j);
        let w = choose|m: int| 0 <= m < rest.len() && rest[m] == e;
        if spec_stat_file_type(listing.last().1.mode) == Some(FileKind::Directory) {
            assert(new_dirs(dir_name, listing, n)[w] == e);
        }
    }
}

/// Reading a directory queues every directory that its listing holds, at any depth:
/// the listed object `j` whose mode word names a directory is queued under the path
/// of the directory read with its name appended, with the table index it got, whatever
/// the length of that path.
pub proof fn lemma_new_dirs_complete(dir_name: Seq<Seq<u8>>, listing: Seq<(Seq<u8>, Stat)>, n: int, j: int)
    requires
        0 <= j < listing.len(),
        listing[j].1.mode & S_IFMT == S_IFDIR,
    ensures
        new_dirs(dir_name, listing, n).contains((dir_name.push(listing[j].0), (n + j) as usize)),
{
    lemma_new_dirs_contains(dir_name, listing, n, j);
}

proof fn lemma_listing_sound(
    t: Seq<(Stat, Option<Seq<(usize, Seq<u8>)>>)>,
    dc: Seq<(usize, Seq<u8>)>,
    m: int,
) -> (k: int)
    requires
        0 <= m < listing(t, dc).len(),
    ensures
        0 <= k < dc.len(),
        listing(t, dc)[m] == (dc[k].1, spec_vfs_file_type(t[dc[k].0 as int].0.mode).unwrap()),
        spec_vfs_file_type(t[dc[k].0 as int].0.mode) is Some,
    decreases dc.len(),
{
    let rest = listing(t, dc.drop_last());
    if m < rest.len() {
        let k = lemma_listing_sound(t, dc.drop_last(), m);
        assert(dc.drop_last()[k] == dc[k]);
        match spec_vfs_file_type(t[dc.last().0 as int].0.mode) {
            Some(ty) => {
                assert(listing(t, dc)[m] == rest[m]);
            },
            None => {},
        }
        k
    } else {
        dc.len() - 1
    }
}

/// A directory of a mounted tree lists nothing but its children: each entry of the
/// listing is a child of the directory, under the child's name, with the kind that
/// the child's mode word names.
pub proof fn lemma_read_dir_lists_only_children(mp: MountPoint, d: Seq<Seq<u8>>, m: int)
    requires
        mp.inv(),
        0 <= m < mp.spec_read_dir(d).len(),
    ensures
        mp.spec_find(d) matches Some(i) && mp.table()[i].1 matches Some(dc) && exists|k: int|
            #![trigger dc[k]]
            0 <= k < dc.len() && mp.spec_read_dir(d)[m] == (
                dc[k].1,
                spec_vfs_file_type(mp.table()[dc[k].0 as int].0.mode).unwrap(),
            ) && spec_vfs_file_type(mp.table()[dc[k].0 as int].0.mode) is Some,
{
    let t = mp.table();
    match mp.spec_find(d) {
        Some(i) => match t[i].1 {
            Some(dc) => {
                let k = lemma_listing_sound(t, dc, m);
                assert(mp.spec_read_dir(d)[m] == listing(t, dc)[m]);
            },
            None => {},
        },
        None => {},
    }
}

proof fn lemma_new_dirs_sound(dir_name: Seq<Seq<u8>>, listing: Seq<(Seq<u8>, Stat)>, n: int, m: int) -> (j: int)
    requires
        0 <= m < new_dirs(dir_name, listing, n).len(),
    ensures
        0 <= j < listing.len(),
        spec_stat_file_type(listing[j].1.mode) == Some(FileKind::Directory),
        new_dirs(dir_name, listing, n)[m] == (dir_name.push(listing[j].0), (n + j) as usize),
    decreases listing.len(),
{
    let rest = new_dirs(dir_name, listing.drop_last(), n);
    if m < rest.len() {
        let j = lemma_new_dirs_sound(dir_name, listing.drop_last(), n, m);
        assert(listing.drop_last()[j] == listing[j]);
        if spec_stat_file_type(listing.last().1.mode) == Some(FileKind::Directory) {
            assert(new_dirs(dir_name, listing, n)[m] == rest[m]);
        }
        j
    } else {
        listing.len() - 1
    }
}

/// Reading a directory queues nothing but directories of its listing: each queued
/// pair is the path of the directory read with the name of a listed directory
/// appended, and the table index that the listed directory got.
pub proof fn lemma_new_dirs_only_directories(dir_name: Seq<Seq<u8>>, listing: Seq<(Seq<u8>, Stat)>, n: int, m: int)
    requires
        0 <= m < new_dirs(dir_name, listing, n).len(),
    ensures
        exists|j: int|
            #![trigger listing[j]]
            0 <= j < listing.len() && listing[j].1.mode & S_IFMT == S_IFDIR && new_dirs(dir_name, listing, n)[m]
                == (dir_name.push(listing[j].0), (n + j) as usize),
{
    let j = lemma_new_dirs_sound(dir_name, listing, n, m);
}

/// Once no directory is left to read and none taken is still unrecorded, every entry
/// of the tree whose mode word names a directory has its children recorded, at any
/// depth.
pub proof fn lemma_builder_done(b: MountPointBuilder)
    requires
        b.queued_all(),
        b.pending().len() == 0,
        b.taken().is_empty(),
    ensures
        forall|i: int|
            0 <= i < b.table().len() && (#[trigger] b.table()[i]).0.mode & S_IFMT == S_IFDIR ==> b.table()[i].1 is Some,
{
    assert forall|i: int|
        0 <= i < b.table().len() && (#[trigger] b.table()[i]).0.mode & S_IFMT == S_IFDIR implies b.table()[i].1 is Some by {
        if b.table()[i].1 is None {
            assert(b.is_pending(i) || b.taken().contains(i as usize));
            if b.is_pending(i) {
                let k = choose|k: int| 0 <= k < b.pending().len() && #[trigger] b.pending()[k].1 == i;
            }
        }
    }
}

/// In a tree whose directories were all read, every path that leads to an object
/// whose mode word names a directory is a directory of the tree, however many
/// children it has; so is every path whose attributes say `Directory`.
pub proof fn lemma_read_tree_dirs_exist(mp: MountPoint, p: Seq<Seq<u8>>)
    requires
        mp.inv(),
        mp.dirs_read(),
    ensures
        mp.spec_find(p) matches Some(i) && mp.table()[i].0.mode & S_IFMT == S_IFDIR ==> mp.spec_dir_exists(p),
        mp.spec_file_attr(p) matches Some(a) && a.kind == FileKind::Directory ==> mp.spec_dir_exists(p),
{
    if let Some(i) = mp.spec_find(p) {
        lemma_resolve_in_range(mp.table(), 0, p);
        assert(0 <= i < mp.table().len());
        assert(mp.table()[i].0.mode & S_IFMT == S_IFDIR ==> mp.table()[i].1 is Some);
    }
}

} // verus!
