//! The file system that the kernel talks to: inode numbers for the paths of the
//! virtual file system, and handles for opened files. Each operation decides what
//! to answer; the kernel protocol and the host I/O stay with the caller.

use vstd::prelude::*;
use std::collections::HashMap;
use crate::attr::FileAttr;
use crate::handles::Handles;
use crate::mount_point::{MountPoint, lemma_attr_inode_within, lemma_listed_child_has_attr};
use crate::path::{child_path, clone_path, join_components, pview, relative_c_path};
use crate::path_table::PathTable;
use crate::vfs::{DirEntry, FileType, Layer, LayerAt, Vfs, entries_view, layer_lists, lemma_read_dir_is_union, names, top_attr, top_opener};

verus! {

broadcast use vstd::std_specs::hash::group_hash_axioms;

/// The inode of the root directory.
pub const ROOT_INODE: u64 = 1;

/// Why an operation has no answer but an error.
#[derive(Clone, Copy, Debug, PartialEq, Eq, Structural)]
pub enum FsError {
    /// No such file or directory.
    NotFound,
}

/// The inode tables and the open handles over a stack of mounted trees.
pub struct ModdingFileSystem {
    vfs: Vfs<MountPoint>,
    inode_to_path: HashMap<u64, Vec<Vec<u8>>>,
    path_inodes: PathTable,
    next_inode: u64,
    open_files: Handles,
    mounted_end: Ghost<u64>,
}

impl ModdingFileSystem {
    /// The path that each known inode stands for.
    pub closed spec fn inodes(&self) -> Map<u64, Seq<Seq<u8>>> {
        self.inode_to_path@.map_values(|p: Vec<Vec<u8>>| pview(&p))
    }

    /// The inode that each enumerated path was given.
    pub closed spec fn paths(&self) -> Map<Seq<Seq<u8>>, u64> {
        self.path_inodes.view()
    }

    /// The inode that the next newly enumerated path will get.
    pub closed spec fn next(&self) -> u64 {
        self.next_inode
    }

    /// The open handles and the inodes opened under them.
    pub closed spec fn handles(&self) -> Map<usize, u64> {
        self.open_files.view()
    }

    /// The stack of mounted trees.
    pub closed spec fn tree(&self) -> Vfs<MountPoint> {
        self.vfs
    }

    /// The end of the range `[2, end)` that holds the inodes of the mounted trees.
    pub closed spec fn mounted_end(&self) -> u64 {
        self.mounted_end@
    }

    /// The file system is consistent: the trees are well formed, mounted at the root,
    /// and numbered in `[2, mounted_end)`; every enumerated path has the root inode or
    /// an inode in `[mounted_end, next)`, and its inode leads back to it.
    pub closed spec fn wf(&self) -> bool {
        &&& self.vfs.wf()
        &&& self.path_inodes.wf()
        &&& 2 <= self.mounted_end() <= self.next()
        &&& self.paths().contains_key(Seq::<Seq<u8>>::empty())
        &&& self.paths()[Seq::<Seq<u8>>::empty()] == ROOT_INODE
        &&& forall|i: int| 0 <= i < self.vfs.layers().len() ==> {
            &&& (#[trigger] self.vfs.layers()[i]).at_view() is None
            &&& self.vfs.layers()[i].layer.inodes_within(2, self.mounted_end())
        }
        &&& forall|p: Seq<Seq<u8>>| #[trigger] self.paths().contains_key(p) ==> {
            &&& self.paths()[p] == ROOT_INODE || self.mounted_end() <= self.paths()[p] < self.next()
            &&& self.inodes().contains_key(self.paths()[p])
            &&& self.inodes()[self.paths()[p]] == p
        }
    }

    /// A file system over the tree `root`, whose objects below the root are numbered in
    /// `[2, next_inode)`: the root inode stands for the root path, and new paths will
    /// be numbered from `next_inode`.
    pub fn new(root: MountPoint, next_inode: u64) -> (r: Self)
        requires
            root.inv(),
            root.inodes_within(2, next_inode),
            next_inode >= 2,
        ensures
            r.wf(),
            r.inodes() == map![ROOT_INODE => Seq::<Seq<u8>>::empty()],
            r.paths() == map![Seq::<Seq<u8>>::empty() => ROOT_INODE],
            r.next() == next_inode,
            r.handles() == Map::<usize, u64>::empty(),
            r.tree().layers().len() == 1,
            r.tree().layers()[0].layer == root,
            r.tree().layers()[0].at_view() is None,
            r.tree().layers()[0].whitelist_view() is None,
    {
        let mut inode_to_path: HashMap<u64, Vec<Vec<u8>>> = HashMap::new();
        let root_path: Vec<Vec<u8>> = Vec::new();
        assert(pview(&root_path) =~= Seq::<Seq<u8>>::empty());
        inode_to_path.insert(ROOT_INODE, Vec::new());
        let path_inodes = PathTable::singleton(root_path, ROOT_INODE);
        let mut vfs: Vfs<MountPoint> = Vfs::new();
        vfs.push_layer(root, None, None);
        let r = ModdingFileSystem {
            vfs,
            inode_to_path,
            path_inodes,
            next_inode,
            open_files: Handles::new(),
            mounted_end: Ghost(next_inode),
        };
        proof {
            assert(r.inodes() =~= map![ROOT_INODE => Seq::<Seq<u8>>::empty()]);
            assert(r.vfs.layers()[0] == r.vfs.layers().last());
        }
        r
    }
}


/// Over trees mounted at the root and numbered in `[2, hi)` below their roots, the
/// attributes of any object below the root carry an inode in `[2, hi)`.
proof fn lemma_top_attr_within(layers: Seq<LayerAt<MountPoint>>, p: Seq<Seq<u8>>, n: int, hi: u64)
    requires
        0 <= n <= layers.len(),
        p.len() > 0,
        forall|i: int| 0 <= i < layers.len() ==> {
            &&& (#[trigger] layers[i]).at_view() is None
            &&& layers[i].layer.inv()
            &&& layers[i].layer.inodes_within(2, hi)
        },
    ensures
        top_attr(layers, p, n) matches Some(a) ==> 2 <= a.ino < hi,
    decreases n,
{
    if n > 0 {
        let la = layers[n - 1];
        assert(la.at_view() is None);
        if la.layer.spec_file_attr(p) is Some {
            lemma_attr_inode_within(la.layer, p, 2, hi);
        } else {
            lemma_top_attr_within(layers, p, n - 1, hi);
        }
    }
}

/// The entries of a listing after the first `offset` (as a `usize`), none when the
/// listing is no longer.
pub open spec fn skip_entries(l: Seq<(Seq<u8>, FileType)>, offset: i64) -> Seq<(Seq<u8>, FileType)> {
    if offset as usize >= l.len() {
        Seq::empty()
    } else {
        l.skip(offset as usize as int)
    }
}

impl ModdingFileSystem {
    /// The answer to looking up `name` in the directory `parent`: its attributes,
    /// when `parent` is a known inode whose directory lists `name` and some layer has
    /// an object at the child path.
    pub open spec fn spec_lookup(&self, parent: u64, name: Seq<u8>) -> Result<FileAttr, FsError> {
        if !self.inodes().contains_key(parent) {
            Err(FsError::NotFound)
        } else {
            match self.tree().spec_read_dir(self.inodes()[parent]) {
                None => Err(FsError::NotFound),
                Some(l) => if !names(l).contains(name) {
                    Err(FsError::NotFound)
                } else {
                    match self.tree().spec_file_attr(self.inodes()[parent].push(name)) {
                        Some(a) => Ok(a),
                        None => Err(FsError::NotFound),
                    }
                },
            }
        }
    }

    /// The attributes of the object that the inode `ino` stands for.
    pub open spec fn spec_getattr(&self, ino: u64) -> Option<FileAttr> {
        if self.inodes().contains_key(ino) {
            self.tree().spec_file_attr(self.inodes()[ino])
        } else {
            None
        }
    }

    /// Looks up `name` in the directory `parent`; on success the inode in the answer
    /// stands from then on for the child path.
    pub fn lookup(&mut self, parent: u64, name: &Vec<u8>) -> (r: Result<FileAttr, FsError>)
        requires
            old(self).wf(),
        ensures
            final(self).wf(),
            r == old(self).spec_lookup(parent, name@),
            final(self).inodes() == match r {
                Ok(a) => old(self).inodes().insert(a.ino, old(self).inodes()[parent].push(name@)),
                Err(_) => old(self).inodes(),
            },
            final(self).paths() == old(self).paths(),
            final(self).next() == old(self).next(),
            final(self).handles() == old(self).handles(),
            final(self).tree() == old(self).tree(),
    {
        let parent_path = match self.inode_to_path.get(&parent) {
            Some(p) => clone_path(p),
            None => {
                return Err(FsError::NotFound);
            },
        };
        assert(pview(&parent_path) == self.inodes()[parent]);
        let listing = match self.vfs.read_dir(&parent_path) {
            Some(l) => l,
            None => {
                return Err(FsError::NotFound);
            },
        };
        if !crate::vfs::name_listed(&listing, name) {
            return Err(FsError::NotFound);
        }
        let item_path = child_path(&parent_path, name);
        let attrs = match self.vfs.file_attr(&item_path) {
            Some(a) => a,
            None => {
                return Err(FsError::NotFound);
            },
        };
        proof {
            lemma_top_attr_within(self.vfs.layers(), pview(&item_path), self.vfs.layers().len() as int, self.mounted_end());
        }
        let ghost ip = pview(&item_path);
        self.inode_to_path.insert(attrs.ino, item_path);
        proof {
            assert(self.inodes() =~= old(self).inodes().insert(attrs.ino, ip));
            assert forall|p: Seq<Seq<u8>>| #[trigger] self.paths().contains_key(p) implies {
                &&& self.paths()[p] == ROOT_INODE || self.mounted_end() <= self.paths()[p] < self.next()
                &&& self.inodes().contains_key(self.paths()[p])
                &&& self.inodes()[self.paths()[p]] == p
            } by {
                assert(old(self).paths().contains_key(p));
                assert(self.paths()[p] != attrs.ino);
            }
        }
        Ok(attrs)
    }

    /// The attributes of the object that the inode `ino` stands for.
    pub fn getattr(&self, ino: u64) -> (r: Option<FileAttr>)
        requires
            self.wf(),
        ensures
            r == self.spec_getattr(ino),
    {
        match self.inode_to_path.get(&ino) {
            Some(p) => {
                assert(pview(p) == self.inodes()[ino]);
                self.vfs.file_attr(p)
            },
            None => None,
        }
    }

    /// The path that the inode `ino` stands for, if it is known.
    pub fn path_of(&self, ino: u64) -> (r: Option<Vec<Vec<u8>>>)
        ensures
            match r {
                Some(p) => self.inodes().contains_key(ino) && pview(&p) == self.inodes()[ino],
                None => !self.inodes().contains_key(ino),
            },
    {
        match self.inode_to_path.get(&ino) {
            Some(p) => Some(clone_path(p)),
            None => None,
        }
    }

    /// The inode that the path `p` was given when it was enumerated, if it was.
    pub fn inode_of_path(&self, p: &Vec<Vec<u8>>) -> (r: Option<u64>)
        requires
            self.wf(),
        ensures
            r == if self.paths().contains_key(pview(p)) {
                Some(self.paths()[pview(p)])
            } else {
                None
            },
    {
        self.path_inodes.get(p)
    }

    /// The inode that the next newly enumerated path will get.
    pub fn next_inode(&self) -> (r: u64)
        ensures
            r == self.next(),
    {
        self.next_inode
    }
}


impl ModdingFileSystem {
    /// Where the file of the inode `ino` is opened: the root descriptor of the topmost
    /// tree that holds a file (not a directory) at its path, and the path relative to
    /// that root as a NUL-terminated byte string; `NotFound` when no tree holds one.
    pub open spec fn spec_open_target(&self, ino: u64) -> Result<(i32, Seq<u8>), FsError> {
        let p = self.inodes()[ino];
        match top_opener(self.tree().layers(), p, self.tree().layers().len() as int) {
            Some(k) => Ok((self.tree().layers()[k].layer.spec_fd(), join_components(p).push(0u8))),
            None => Err(FsError::NotFound),
        }
    }

    /// Decides where to open the file of the known inode `ino`.
    pub fn open_target(&self, ino: u64) -> (r: Result<(i32, Vec<u8>), FsError>)
        requires
            self.wf(),
            self.inodes().contains_key(ino),
        ensures
            match r {
                Ok((fd, c_path)) => self.spec_open_target(ino) == Ok::<(i32, Seq<u8>), FsError>((fd, c_path@)),
                Err(e) => self.spec_open_target(ino) == Err::<(i32, Seq<u8>), FsError>(e),
            },
    {
        let path = match self.inode_to_path.get(&ino) {
            Some(p) => p,
            None => {
                return Err(FsError::NotFound);
            },
        };
        assert(pview(path) == self.inodes()[ino]);
        match self.vfs.layer_that_opens_file(path) {
            Some((_, layer)) => {
                let fd = layer.fd();
                let c_path = relative_c_path(path);
                Ok((fd, c_path))
            },
            None => Err(FsError::NotFound),
        }
    }

    /// Records that the file of `ino` was opened, under a new handle.
    pub fn register_open(&mut self, ino: u64) -> (fh: u64)
        requires
            old(self).wf(),
        ensures
            final(self).wf(),
            !old(self).handles().contains_key(fh as usize),
            final(self).handles() == old(self).handles().insert(fh as usize, ino),
            final(self).inodes() == old(self).inodes(),
            final(self).paths() == old(self).paths(),
            final(self).next() == old(self).next(),
            final(self).tree() == old(self).tree(),
    {
        let k = self.open_files.open(ino);
        assert(k as u64 as usize == k);
        proof {
            assert(self.paths() == old(self).paths());
            assert(self.inodes() == old(self).inodes());
            assert(self.vfs == old(self).vfs);
        }
        k as u64
    }

    /// The inode opened under the handle `fh`, if it is open.
    pub fn handle_inode(&self, fh: u64) -> (r: Option<u64>)
        ensures
            r == if self.handles().contains_key(fh as usize) {
                Some(self.handles()[fh as usize])
            } else {
                None
            },
    {
        self.open_files.get(fh as usize)
    }

    /// The handle `fh` is open.
    pub fn is_open(&self, fh: u64) -> (r: bool)
        ensures
            r == self.handles().contains_key(fh as usize),
    {
        self.open_files.get(fh as usize).is_some()
    }

    /// Closes the open handle `fh`.
    pub fn release(&mut self, fh: u64)
        requires
            old(self).wf(),
            old(self).handles().contains_key(fh as usize),
        ensures
            final(self).wf(),
            final(self).handles() == old(self).handles().remove(fh as usize),
            final(self).inodes() == old(self).inodes(),
            final(self).paths() == old(self).paths(),
            final(self).next() == old(self).next(),
            final(self).tree() == old(self).tree(),
    {
        self.open_files.close(fh as usize);
        proof {
            assert(self.paths() == old(self).paths());
            assert(self.inodes() == old(self).inodes());
            assert(self.vfs == old(self).vfs);
        }
    }

    /// What reading the directory `ino` from `offset` answers: `NotFound` for an
    /// unknown inode; no answer at all when no tree holds the directory; otherwise its
    /// path and its merged listing after the first `offset` entries.
    pub open spec fn spec_readdir(&self, ino: u64, offset: i64) -> Result<Option<(Seq<Seq<u8>>, Seq<(Seq<u8>, FileType)>)>, FsError> {
        if !self.inodes().contains_key(ino) {
            Err(FsError::NotFound)
        } else {
            match self.tree().spec_read_dir(self.inodes()[ino]) {
                None => Ok(None),
                Some(l) => Ok(Some((self.inodes()[ino], skip_entries(l, offset)))),
            }
        }
    }

    /// Reads the directory `ino` from `offset`.
    pub fn readdir(&self, ino: u64, offset: i64) -> (r: Result<Option<(Vec<Vec<u8>>, Vec<DirEntry>)>, FsError>)
        requires
            self.wf(),
        ensures
            match r {
                Err(e) => self.spec_readdir(ino, offset) == Err::<Option<(Seq<Seq<u8>>, Seq<(Seq<u8>, FileType)>)>, FsError>(e),
                Ok(None) => self.spec_readdir(ino, offset) == Ok::<Option<(Seq<Seq<u8>>, Seq<(Seq<u8>, FileType)>)>, FsError>(None),
                Ok(Some((p, l))) => self.spec_readdir(ino, offset) == Ok::<Option<(Seq<Seq<u8>>, Seq<(Seq<u8>, FileType)>)>, FsError>(Some((pview(&p), entries_view(&l)))),
            },
    {
        let path = match self.inode_to_path.get(&ino) {
            Some(p) => clone_path(p),
            None => {
                return Err(FsError::NotFound);
            },
        };
        assert(pview(&path) == self.inodes()[ino]);
        let mut listing = match self.vfs.read_dir(&path) {
            Some(l) => l,
            None => {
                return Ok(None);
            },
        };
        let skip = offset as usize;
        let ghost full = entries_view(&listing);
        if skip >= listing.len() {
            let empty: Vec<DirEntry> = Vec::new();
            assert(entries_view(&empty) =~= skip_entries(full, offset));
            return Ok(Some((path, empty)));
        }
        let rest = listing.split_off(skip);
        assert(entries_view(&rest) =~= skip_entries(full, offset));
        Ok(Some((path, rest)))
    }

    /// The inode of the child `name` of the directory `dir`: the one the child path
    /// was given before, or else the next inode, which from then on stands for it.
    pub fn entry_inode(&mut self, dir: &Vec<Vec<u8>>, name: &Vec<u8>) -> (r: u64)
        requires
            old(self).wf(),
            old(self).paths().contains_key(pview(dir).push(name@)) || old(self).next() < u64::MAX,
        ensures
            final(self).wf(),
            old(self).paths().contains_key(pview(dir).push(name@)) ==> {
                &&& r == old(self).paths()[pview(dir).push(name@)]
                &&& final(self).inodes() == old(self).inodes()
                &&& final(self).paths() == old(self).paths()
                &&& final(self).next() == old(self).next()
            },
            !old(self).paths().contains_key(pview(dir).push(name@)) ==> {
                &&& r == old(self).next()
                &&& final(self).inodes() == old(self).inodes().insert(r, pview(dir).push(name@))
                &&& final(self).paths() == old(self).paths().insert(pview(dir).push(name@), r)
                &&& final(self).next() == old(self).next() + 1
            },
            final(self).paths().contains_key(pview(dir).push(name@)),
            final(self).paths()[pview(dir).push(name@)] == r,
            entry_inode_step(*old(self), *final(self), pview(dir), name@, r),
            final(self).handles() == old(self).handles(),
            final(self).tree() == old(self).tree(),
    {
        let path = child_path(dir, name);
        match self.path_inodes.get(&path) {
            Some(ino) => ino,
            None => {
                let ino = self.next_inode;
                let ghost p = pview(&path);
                self.path_inodes.insert_new(&path, ino);
                self.inode_to_path.insert(ino, path);
                self.next_inode = self.next_inode + 1;
                proof {
                    assert(self.inodes() =~= old(self).inodes().insert(ino, p));
                    assert forall|q: Seq<Seq<u8>>| #[trigger] self.paths().contains_key(q) implies {
                        &&& self.paths()[q] == ROOT_INODE || self.mounted_end() <= self.paths()[q] < self.next()
                        &&& self.inodes().contains_key(self.paths()[q])
                        &&& self.inodes()[self.paths()[q]] == q
                    } by {
                        if q != p {
                            assert(old(self).paths().contains_key(q));
                            assert(self.paths()[q] != ino);
                        }
                    }
                }
                ino
            },
        }
    }
}

/// The inode that an enumerated path was given leads back to that path: looking the
/// inode up again gives the same path.
pub proof fn lemma_path_inode_leads_back(fs: ModdingFileSystem, p: Seq<Seq<u8>>)
    requires
        fs.wf(),
        fs.paths().contains_key(p),
    ensures
        fs.inodes().contains_key(fs.paths()[p]),
        fs.inodes()[fs.paths()[p]] == p,
{
}

/// Distinct enumerated paths have distinct inodes.
pub proof fn lemma_path_inodes_distinct(fs: ModdingFileSystem, p: Seq<Seq<u8>>, q: Seq<Seq<u8>>)
    requires
        fs.wf(),
        fs.paths().contains_key(p),
        fs.paths().contains_key(q),
        p != q,
    ensures
        fs.paths()[p] != fs.paths()[q],
{
}

/// The root path keeps the root inode, and the root inode keeps standing for the
/// root path, whatever operations ran.
pub proof fn lemma_root_kept(fs: ModdingFileSystem)
    requires
        fs.wf(),
    ensures
        fs.paths().contains_key(Seq::<Seq<u8>>::empty()),
        fs.paths()[Seq::<Seq<u8>>::empty()] == ROOT_INODE,
        fs.inodes().contains_key(ROOT_INODE),
        fs.inodes()[ROOT_INODE] == Seq::<Seq<u8>>::empty(),
{
}

/// A handle opened for an inode reads back that inode until it is released, and
/// releasing one handle leaves the others as they were.
pub proof fn lemma_handle_reads_back(
    opened: ModdingFileSystem,
    released: ModdingFileSystem,
    fh: u64,
    other: u64,
    ino: u64,
)
    requires
        opened.handles().contains_key(fh as usize),
        opened.handles()[fh as usize] == ino,
        released.handles() == opened.handles().remove(other as usize),
        other as usize != fh as usize,
    ensures
        released.handles().contains_key(fh as usize),
        released.handles()[fh as usize] == ino,
        !opened.handles().remove(fh as usize).contains_key(fh as usize),
{
}

proof fn lemma_top_attr_some(layers: Seq<LayerAt<MountPoint>>, p: Seq<Seq<u8>>, n: int, i: int)
    requires
        0 <= i < n <= layers.len(),
        layers[i].spec_map_path_at(p) matches Some(m) && layers[i].layer.spec_file_attr(m) is Some,
    ensures
        top_attr(layers, p, n) is Some,
    decreases n,
{
    if i < n - 1 {
        lemma_top_attr_some(layers, p, n - 1, i);
    }
}

/// What reading a directory lists, looking it up finds: every name in the merged
/// listing of a known directory inode answers a lookup with attributes.
pub proof fn lemma_listed_names_can_be_looked_up(fs: ModdingFileSystem, parent: u64, name: Seq<u8>)
    requires
        fs.wf(),
        fs.inodes().contains_key(parent),
        fs.tree().spec_read_dir(fs.inodes()[parent]) is Some,
        names(fs.tree().spec_read_dir(fs.inodes()[parent]).unwrap()).contains(name),
    ensures
        fs.spec_lookup(parent, name) is Ok,
{
    let d = fs.inodes()[parent];
    let ls = fs.vfs.layers();
    lemma_read_dir_is_union(fs.vfs, d, name);
    let i = choose|i: int| 0 <= i < ls.len() && layer_lists(#[trigger] ls[i], d, name);
    assert(ls[i].at_view() is None);
    assert(ls[i].layer.inv());
    lemma_listed_child_has_attr(ls[i].layer, d, name);
    lemma_top_attr_some(ls, d.push(name), ls.len() as int, i);
}

/// After a successful lookup, asking for the attributes of the inode it answered
/// gives the same attributes.
pub proof fn lemma_lookup_then_getattr(before: ModdingFileSystem, after: ModdingFileSystem, parent: u64, name: Seq<u8>)
    requires
        before.wf(),
        before.spec_lookup(parent, name) is Ok,
        after.inodes() == before.inodes().insert(
            before.spec_lookup(parent, name).unwrap().ino,
            before.inodes()[parent].push(name),
        ),
        after.tree() == before.tree(),
    ensures
        after.spec_getattr(before.spec_lookup(parent, name).unwrap().ino) == Some(before.spec_lookup(parent, name).unwrap()),
{
}

/// What one call of `entry_inode` for the child `name` of `dir` does, with answer `r`:
/// a child path that has an inode keeps it and nothing changes; otherwise the path
/// gets the next inode, which from then on stands for it.
pub open spec fn entry_inode_step(
    before: ModdingFileSystem,
    after: ModdingFileSystem,
    dir: Seq<Seq<u8>>,
    name: Seq<u8>,
    r: u64,
) -> bool {
    let p = dir.push(name);
    &&& after.wf()
    &&& if before.paths().contains_key(p) {
        &&& r == before.paths()[p]
        &&& after.inodes() == before.inodes()
        &&& after.paths() == before.paths()
        &&& after.next() == before.next()
    } else {
        &&& r == before.next()
        &&& after.inodes() == before.inodes().insert(r, p)
        &&& after.paths() == before.paths().insert(p, r)
        &&& after.next() == before.next() + 1
    }
    &&& after.handles() == before.handles()
    &&& after.tree() == before.tree()
}

/// The paths and the next inode after handing out inodes to the children `names` of
/// `dir`, in order, starting from `paths` and `next`: a child that has an inode keeps
/// it, and each other child gets the next one.
pub open spec fn assigned(
    paths: Map<Seq<Seq<u8>>, u64>,
    next: u64,
    dir: Seq<Seq<u8>>,
    names: Seq<Seq<u8>>,
) -> (Map<Seq<Seq<u8>>, u64>, u64)
    decreases names.len(),
{
    if names.len() == 0 {
        (paths, next)
    } else {
        let (m, n) = assigned(paths, next, dir, names.drop_last());
        let p = dir.push(names.last());
        if m.contains_key(p) {
            (m, n)
        } else {
            (m.insert(p, n), (n + 1) as u64)
        }
    }
}

proof fn lemma_listing_prefix(
    states: Seq<ModdingFileSystem>,
    dir: Seq<Seq<u8>>,
    names: Seq<Seq<u8>>,
    inos: Seq<u64>,
    j: int,
)
    requires
        states.len() == names.len() + 1,
        inos.len() == names.len(),
        states[0].wf(),
        forall|k: int| #![trigger inos[k]] 0 <= k < names.len() ==> entry_inode_step(states[k], states[k + 1], dir, names[k], inos[k]),
        0 <= j <= names.len(),
    ensures
        states[j].wf(),
        states[j].paths() == assigned(states[0].paths(), states[0].next(), dir, names.take(j)).0,
        states[j].next() == assigned(states[0].paths(), states[0].next(), dir, names.take(j)).1,
        forall|k: int| #![trigger names[k]] 0 <= k < j ==> (states[j].paths().contains_key(dir.push(names[k])) && states[j].paths()[dir.push(
            names[k],
        )] == inos[k]),
        forall|q: Seq<Seq<u8>>| #[trigger] states[0].paths().contains_key(q) ==> states[j].paths().contains_key(q)
            && states[j].paths()[q] == states[0].paths()[q],
    decreases j,
{
    if j > 0 {
        lemma_listing_prefix(states, dir, names, inos, j - 1);
        assert(names.take(j).drop_last() =~= names.take(j - 1));
        assert(names.take(j).last() == names[j - 1]);
        assert(entry_inode_step(states[j - 1], states[j - 1 + 1], dir, names[j - 1], inos[j - 1]));
        assert(states[j - 1 + 1] == states[j]);
        let prev = states[j - 1];
        let cur = states[j];
        let p = dir.push(names[j - 1]);
        assert(cur.paths().contains_key(p) && cur.paths()[p] == inos[j - 1]);
        assert forall|k: int| #![trigger names[k]] 0 <= k < j implies (states[j].paths().contains_key(dir.push(names[k])) && states[j].paths()[dir.push(
            names[k],
        )] == inos[k]) by {
            if k == j - 1 {
                assert(dir.push(names[k]) == p);
            } else {
                assert(prev.paths().contains_key(dir.push(names[k])));
                if !prev.paths().contains_key(p) {
                    assert(dir.push(names[k]) != p);
                }
            }
        }
        assert forall|q: Seq<Seq<u8>>| #[trigger] states[0].paths().contains_key(q) implies (cur.paths().contains_key(q)
            && cur.paths()[q] == states[0].paths()[q]) by {
            assert(prev.paths().contains_key(q));
            if !prev.paths().contains_key(p) {
                assert(q != p);
            }
        }
    } else {
        assert(names.take(0) =~= Seq::<Seq<u8>>::empty());
        assert(assigned(states[0].paths(), states[0].next(), dir, names.take(0)) == (states[0].paths(), states[0].next()));
    }
}

/// Reading a directory hands out inodes over the whole listing: after `entry_inode`
/// ran for the children `names` of `dir` in order, each child that had an inode keeps
/// it, the others get the next inodes in listing order, every child path leads to
/// the inode it was answered, no earlier path changes its inode, and the file system
/// stays consistent.
pub proof fn lemma_listing_inodes(
    states: Seq<ModdingFileSystem>,
    dir: Seq<Seq<u8>>,
    names: Seq<Seq<u8>>,
    inos: Seq<u64>,
)
    requires
        states.len() == names.len() + 1,
        inos.len() == names.len(),
        states[0].wf(),
        forall|k: int| #![trigger inos[k]] 0 <= k < names.len() ==> entry_inode_step(states[k], states[k + 1], dir, names[k], inos[k]),
    ensures
        states.last().wf(),
        states.last().paths() == assigned(states[0].paths(), states[0].next(), dir, names).0,
        states.last().next() == assigned(states[0].paths(), states[0].next(), dir, names).1,
        forall|k: int| 0 <= k < names.len() ==> states.last().paths()[dir.push(names[k])] == #[trigger] inos[k]
            && states.last().inodes()[inos[k]] == dir.push(names[k]),
        forall|q: Seq<Seq<u8>>| #[trigger] states[0].paths().contains_key(q) ==> states.last().paths()[q]
            == states[0].paths()[q],
{
    let n = names.len() as int;
    lemma_listing_prefix(states, dir, names, inos, n);
    assert(names.take(n) =~= names);
    assert(states.last() == states[n]);
    assert forall|k: int| 0 <= k < names.len() implies states.last().paths()[dir.push(names[k])] == #[trigger] inos[k]
        && states.last().inodes()[inos[k]] == dir.push(names[k]) by {
        assert(states[n].paths().contains_key(dir.push(names[k])));
        lemma_path_inode_leads_back(states[n], dir.push(names[k]));
    }
}

/// The offset at which a directory listing resumes after its `k`-th entry (from 0)
/// when it was read from `offset`: the position just past that entry.
pub fn entry_next_offset(offset: i64, k: usize) -> (r: i64)
    requires
        0 <= offset,
        offset + k + 1 <= i64::MAX,
    ensures
        r == offset + k + 1,
{
    offset + (k as i64) + 1
}

} // verus!
