//! The virtual file system: a stack of layers, each optionally mounted below a path
//! and optionally restricted to a whitelist of names, queried as one tree.

use vstd::prelude::*;
use crate::attr::FileAttr;
use crate::path::pview;

verus! {

/// The kinds of directory entry that a layer reports.
#[derive(Clone, Copy, Debug, PartialEq, Eq, Structural)]
pub enum FileType {
    Dir,
    File,
    Symlink,
}

/// One entry of a directory listing.
#[derive(Debug)]
pub struct DirEntry {
    pub name: Vec<u8>,
    pub typ: FileType,
}

/// The view of a directory entry: its name and its kind.
pub open spec fn entry_view(e: DirEntry) -> (Seq<u8>, FileType) {
    (e.name@, e.typ)
}

/// The view of a directory listing.
pub open spec fn entries_view(v: &Vec<DirEntry>) -> Seq<(Seq<u8>, FileType)> {
    v@.map_values(|e: DirEntry| entry_view(e))
}

/// A source of files and directories that the virtual file system stacks.
pub trait Layer {
    /// The layer is well formed.
    spec fn inv(&self) -> bool;

    /// `dir` names a directory of this layer.
    spec fn spec_dir_exists(&self, dir: Seq<Seq<u8>>) -> bool;

    /// `file` names an object of this layer that is not a directory.
    spec fn spec_file_exists(&self, file: Seq<Seq<u8>>) -> bool;

    /// The listing of the directory `dir` (empty where there is none).
    spec fn spec_read_dir(&self, dir: Seq<Seq<u8>>) -> Seq<(Seq<u8>, FileType)>;

    /// The attributes of the object at `file`, if there is one.
    spec fn spec_file_attr(&self, file: Seq<Seq<u8>>) -> Option<FileAttr>;

    fn dir_exists(&self, dir: &Vec<Vec<u8>>) -> (r: bool)
        requires
            self.inv(),
        ensures
            r == self.spec_dir_exists(pview(dir)),
    ;

    fn file_exists(&self, file: &Vec<Vec<u8>>) -> (r: bool)
        requires
            self.inv(),
        ensures
            r == self.spec_file_exists(pview(file)),
    ;

    fn read_dir(&self, dir: &Vec<Vec<u8>>) -> (r: Vec<DirEntry>)
        requires
            self.inv(),
        ensures
            entries_view(&r) == self.spec_read_dir(pview(dir)),
    ;

    fn file_attr(&self, file: &Vec<Vec<u8>>) -> (r: Option<FileAttr>)
        requires
            self.inv(),
        ensures
            r == self.spec_file_attr(pview(file)),
    ;
}


/// The names of a listing, in order.
pub open spec fn names(s: Seq<(Seq<u8>, FileType)>) -> Seq<Seq<u8>> {
    s.map_values(|e: (Seq<u8>, FileType)| e.0)
}

/// A whitelist admits a name: there is none, or it holds the name.
pub open spec fn admitted(wl: Option<Seq<Seq<u8>>>, name: Seq<u8>) -> bool {
    match wl {
        None => true,
        Some(w) => w.contains(name),
    }
}

/// The entries of a listing whose names a whitelist admits, in order.
pub open spec fn filter_admitted(s: Seq<(Seq<u8>, FileType)>, wl: Option<Seq<Seq<u8>>>) -> Seq<(Seq<u8>, FileType)>
    decreases s.len(),
{
    if s.len() == 0 {
        Seq::empty()
    } else {
        let rest = filter_admitted(s.drop_last(), wl);
        if admitted(wl, s.last().0) {
            rest.push(s.last())
        } else {
            rest
        }
    }
}

/// The first entry of each name, in the order of first appearance.
pub open spec fn dedup(s: Seq<(Seq<u8>, FileType)>) -> Seq<(Seq<u8>, FileType)>
    decreases s.len(),
{
    if s.len() == 0 {
        Seq::empty()
    } else {
        let d = dedup(s.drop_last());
        if names(d).contains(s.last().0) {
            d
        } else {
            d.push(s.last())
        }
    }
}

/// Where `path` lies in a layer mounted at `at`: below the mount point it is the rest
/// of the path; elsewhere it is not in the layer at all. A layer without a mount
/// point sees every path as it is.
pub open spec fn spec_map_path(at: Option<Seq<Seq<u8>>>, path: Seq<Seq<u8>>) -> Option<Seq<Seq<u8>>> {
    match at {
        None => Some(path),
        Some(a) => if crate::path::is_prefix(a, path) {
            Some(path.skip(a.len() as int))
        } else {
            None
        },
    }
}

/// A layer in the stack, with its mount point and its whitelist of names.
pub struct LayerAt<L> {
    /// The path of the virtual tree that the layer's root is mounted at.
    pub at: Option<Vec<Vec<u8>>>,
    /// The names the layer may show; only membership in it is ever asked.
    pub whitelist: Option<Vec<Vec<u8>>>,
    pub layer: L,
}

impl<L: Layer> LayerAt<L> {
    /// The mount point of the layer.
    pub open spec fn at_view(&self) -> Option<Seq<Seq<u8>>> {
        match self.at {
            Some(a) => Some(pview(&a)),
            None => None,
        }
    }

    /// The whitelist of the layer.
    pub open spec fn whitelist_view(&self) -> Option<Seq<Seq<u8>>> {
        match self.whitelist {
            Some(w) => Some(pview(&w)),
            None => None,
        }
    }

    /// Where `path` lies in this layer.
    pub open spec fn spec_map_path_at(&self, path: Seq<Seq<u8>>) -> Option<Seq<Seq<u8>>> {
        spec_map_path(self.at_view(), path)
    }

    /// What this layer contributes to the listing of `dir`: its listing of the
    /// directory that `dir` maps to, restricted to the whitelist.
    pub open spec fn candidates(&self, dir: Seq<Seq<u8>>) -> Seq<(Seq<u8>, FileType)> {
        match self.spec_map_path_at(dir) {
            Some(m) => filter_admitted(self.layer.spec_read_dir(m), self.whitelist_view()),
            None => Seq::empty(),
        }
    }

    /// Where `path` lies in this layer; `None` when the layer is mounted elsewhere.
    fn map_path_at(&self, path: &Vec<Vec<u8>>) -> (r: Option<Vec<Vec<u8>>>)
        ensures
            match r {
                Some(m) => self.spec_map_path_at(pview(path)) == Some(pview(&m)),
                None => self.spec_map_path_at(pview(path)) is None,
            },
    {
        match &self.at {
            Some(at) => crate::path::strip_prefix(path, at),
            None => Some(crate::path::clone_path(path)),
        }
    }
}

/// The listings of `dir` in the layers `layers`, bottom first, concatenated.
pub open spec fn all_candidates<L: Layer>(layers: Seq<LayerAt<L>>, dir: Seq<Seq<u8>>) -> Seq<(Seq<u8>, FileType)>
    decreases layers.len(),
{
    if layers.len() == 0 {
        Seq::empty()
    } else {
        all_candidates(layers.drop_last(), dir) + layers.last().candidates(dir)
    }
}

/// Some layer holds the directory `dir`.
pub open spec fn some_layer_has_dir<L: Layer>(layers: Seq<LayerAt<L>>, dir: Seq<Seq<u8>>) -> bool {
    exists|i: int| 0 <= i < layers.len() && #[trigger] layer_has_dir(layers[i], dir)
}

/// The layer holds the directory `dir`.
pub open spec fn layer_has_dir<L: Layer>(la: LayerAt<L>, dir: Seq<Seq<u8>>) -> bool {
    match la.spec_map_path_at(dir) {
        Some(m) => la.layer.spec_dir_exists(m),
        None => false,
    }
}

/// The attributes of `path` in the topmost of the first `n` layers that has an object
/// there.
pub open spec fn top_attr<L: Layer>(layers: Seq<LayerAt<L>>, path: Seq<Seq<u8>>, n: int) -> Option<FileAttr>
    decreases n,
{
    if n <= 0 {
        None
    } else {
        let la = layers[n - 1];
        match la.spec_map_path_at(path) {
            Some(m) => match la.layer.spec_file_attr(m) {
                Some(a) => Some(a),
                None => top_attr(layers, path, n - 1),
            },
            None => top_attr(layers, path, n - 1),
        }
    }
}

/// The index of the topmost of the first `n` layers that holds a file (not a
/// directory) at `path`.
pub open spec fn top_opener<L: Layer>(layers: Seq<LayerAt<L>>, path: Seq<Seq<u8>>, n: int) -> Option<int>
    decreases n,
{
    if n <= 0 {
        None
    } else {
        let la = layers[n - 1];
        match la.spec_map_path_at(path) {
            Some(m) => if la.layer.spec_file_exists(m) {
                Some(n - 1)
            } else {
                top_opener(layers, path, n - 1)
            },
            None => top_opener(layers, path, n - 1),
        }
    }
}

/// A stack of layers queried as one tree; the layer pushed last is on top.
pub struct Vfs<L> {
    /// Layers are only ever pushed, so a layer's index is the order it was pushed in.
    layers: Vec<LayerAt<L>>,
}

impl<L: Layer> Vfs<L> {
    /// The layers, bottom first.
    pub closed spec fn layers(&self) -> Seq<LayerAt<L>> {
        self.layers@
    }

    /// Every layer is well formed.
    pub open spec fn wf(&self) -> bool {
        forall|i: int| 0 <= i < self.layers().len() ==> (#[trigger] self.layers()[i]).layer.inv()
    }

    /// The merged listing of `dir`: `None` when no layer holds the directory;
    /// otherwise the first entry of each name over all layers, bottom layer first,
    /// in the reverse of the order of first appearance.
    pub open spec fn spec_read_dir(&self, dir: Seq<Seq<u8>>) -> Option<Seq<(Seq<u8>, FileType)>> {
        if some_layer_has_dir(self.layers(), dir) {
            Some(dedup(all_candidates(self.layers(), dir)).reverse())
        } else {
            None
        }
    }

    /// The attributes of `path`, from the topmost layer that has an object there.
    pub open spec fn spec_file_attr(&self, path: Seq<Seq<u8>>) -> Option<FileAttr> {
        top_attr(self.layers(), path, self.layers().len() as int)
    }

    /// An empty stack.
    pub fn new() -> (r: Self)
        ensures
            r.wf(),
            r.layers() == Seq::<LayerAt<L>>::empty(),
    {
        Vfs { layers: Vec::new() }
    }

    /// Puts `layer` on top of the stack, mounted at `at` (at the root when `None`),
    /// showing only the names in `whitelist` when there is one.
    pub fn push_layer(&mut self, layer: L, at: Option<&Vec<Vec<u8>>>, whitelist: Option<Vec<Vec<u8>>>)
        requires
            old(self).wf(),
            layer.inv(),
        ensures
            final(self).wf(),
            final(self).layers().len() == old(self).layers().len() + 1,
            final(self).layers().drop_last() == old(self).layers(),
            final(self).layers().last().layer == layer,
            final(self).layers().last().at_view() == match at {
                Some(a) => Some(pview(a)),
                None => None::<Seq<Seq<u8>>>,
            },
            final(self).layers().last().whitelist_view() == match whitelist {
                Some(w) => Some(pview(&w)),
                None => None::<Seq<Seq<u8>>>,
            },
    {
        let at = match at {
            Some(a) => Some(crate::path::clone_path(a)),
            None => None,
        };
        let ghost before = self.layers@;
        self.layers.push(LayerAt { at, whitelist, layer });
        assert(self.layers().drop_last() =~= before);
        assert(self.layers()[before.len() as int] == LayerAt { at, whitelist, layer });
    }
}


proof fn lemma_dedup_push(s: Seq<(Seq<u8>, FileType)>, x: (Seq<u8>, FileType))
    ensures
        dedup(s.push(x)) == if names(dedup(s)).contains(x.0) {
            dedup(s)
        } else {
            dedup(s).push(x)
        },
{
    assert(s.push(x).drop_last() =~= s);
}

proof fn lemma_filter_push(s: Seq<(Seq<u8>, FileType)>, x: (Seq<u8>, FileType), wl: Option<Seq<Seq<u8>>>)
    ensures
        filter_admitted(s.push(x), wl) == if admitted(wl, x.0) {
            filter_admitted(s, wl).push(x)
        } else {
            filter_admitted(s, wl)
        },
{
    assert(s.push(x).drop_last() =~= s);
}

proof fn lemma_all_candidates_step<L: Layer>(layers: Seq<LayerAt<L>>, dir: Seq<Seq<u8>>, i: int)
    requires
        0 <= i < layers.len(),
    ensures
        all_candidates(layers.take(i + 1), dir) == all_candidates(layers.take(i), dir) + layers[i].candidates(dir),
{
    assert(layers.take(i + 1).drop_last() =~= layers.take(i));
}

/// `name` is one of the names of the listing `v`.
pub(crate) fn name_listed(v: &Vec<DirEntry>, name: &Vec<u8>) -> (r: bool)
    ensures
        r == names(entries_view(v)).contains(name@),
{
    let mut i: usize = 0;
    while i < v.len()
        invariant
            i <= v.len(),
            forall|k: int| 0 <= k < i ==> names(entries_view(v))[k] != name@,
        decreases v.len() - i,
    {
        assert(names(entries_view(v))[i as int] == v@[i as int].name@);
        if crate::path::names_eq(&v[i].name, name) {
            return true;
        }
        i = i + 1;
    }
    false
}

/// `name` is one of the names in `list`.
fn name_in(list: &Vec<Vec<u8>>, name: &Vec<u8>) -> (r: bool)
    ensures
        r == pview(list).contains(name@),
{
    let mut i: usize = 0;
    while i < list.len()
        invariant
            i <= list.len(),
            forall|k: int| 0 <= k < i ==> pview(list)[k] != name@,
        decreases list.len() - i,
    {
        assert(pview(list)[i as int] == list@[i as int]@);
        if crate::path::names_eq(&list[i], name) {
            return true;
        }
        i = i + 1;
    }
    false
}

impl<L: Layer> LayerAt<L> {
    /// The whitelist of the layer, if any, admits `name`.
    fn admits(&self, name: &Vec<u8>) -> (r: bool)
        ensures
            r == admitted(self.whitelist_view(), name@),
    {
        match &self.whitelist {
            Some(w) => name_in(w, name),
            None => true,
        }
    }
}

impl<L: Layer> Vfs<L> {
    /// Lists the directory `dir` over all layers: `None` when no layer holds it;
    /// otherwise each name once, with the entry of the lowest layer that lists it
    /// under its whitelist, in the reverse of the order in which the names were first
    /// met going up the stack.
    pub fn read_dir(&self, dir: &Vec<Vec<u8>>) -> (r: Option<Vec<DirEntry>>)
        requires
            self.wf(),
        ensures
            match r {
                Some(v) => self.spec_read_dir(pview(dir)) == Some(entries_view(&v)),
                None => self.spec_read_dir(pview(dir)) is None,
            },
    {
        let ghost d = pview(dir);
        let ghost ls = self.layers();
        let mut any = false;
        let mut i: usize = 0;
        while i < self.layers.len()
            invariant
                self.wf(),
                ls == self.layers(),
                d == pview(dir),
                i <= ls.len(),
                any ==> some_layer_has_dir(ls, d),
                !any ==> forall|k: int| 0 <= k < i ==> !layer_has_dir(#[trigger] ls[k], d),
            decreases ls.len() - i,
        {
            let la = &self.layers[i];
            assert(ls[i as int].layer.inv());
            match la.map_path_at(dir) {
                Some(m) => {
                    if la.layer.dir_exists(&m) {
                        assert(layer_has_dir(ls[i as int], d));
                        any = true;
                    }
                },
                None => {},
            }
            i = i + 1;
        }
        if !any {
            return None;
        }
        let mut to_yield: Vec<DirEntry> = Vec::new();
        let mut i: usize = 0;
        assert(ls.take(0) =~= Seq::<LayerAt<L>>::empty());
        assert(entries_view(&to_yield) =~= dedup(all_candidates(ls.take(0), d)));
        while i < self.layers.len()
            invariant
                self.wf(),
                ls == self.layers(),
                d == pview(dir),
                i <= ls.len(),
                entries_view(&to_yield) == dedup(all_candidates(ls.take(i as int), d)),
            decreases ls.len() - i,
        {
            let la = &self.layers[i];
            assert(ls[i as int].layer.inv());
            proof {
                lemma_all_candidates_step(ls, d, i as int);
            }
            let ghost base = all_candidates(ls.take(i as int), d);
            match la.map_path_at(dir) {
                Some(m) => {
                    let entries = la.layer.read_dir(&m);
                    let ghost ev = entries_view(&entries);
                    let ghost wl = la.whitelist_view();
                    assert(ls[i as int].candidates(d) == filter_admitted(ev, wl));
                    let mut k: usize = 0;
                    assert(ev.take(0) =~= Seq::<(Seq<u8>, FileType)>::empty());
                    assert(base + filter_admitted(ev.take(0), wl) =~= base);
                    while k < entries.len()
                        invariant
                            ev == entries_view(&entries),
                            wl == la.whitelist_view(),
                            k <= entries.len(),
                            entries_view(&to_yield) == dedup(base + filter_admitted(ev.take(k as int), wl)),
                        decreases entries.len() - k,
                    {
                        let e = &entries[k];
                        let ghost x = ev[k as int];
                        assert(x == (e.name@, e.typ));
                        assert(ev.take(k + 1) =~= ev.take(k as int).push(x));
                        proof {
                            lemma_filter_push(ev.take(k as int), x, wl);
                        }
                        if la.admits(&e.name) {
                            let ghost pre = base + filter_admitted(ev.take(k as int), wl);
                            assert(base + filter_admitted(ev.take(k + 1), wl) =~= pre.push(x));
                            proof {
                                lemma_dedup_push(pre, x);
                            }
                            if !name_listed(&to_yield, &e.name) {
                                let ghost before = to_yield@;
                                let name = crate::path::clone_name(&e.name);
                                let entry = DirEntry { name, typ: e.typ };
                                to_yield.push(entry);
                                assert(to_yield@ == before.push(entry));
                                assert(entries_view(&to_yield) =~= dedup(pre).push(x));
                            }
                        }
                        k = k + 1;
                    }
                    assert(ev.take(entries.len() as int) =~= ev);
                },
                None => {
                    assert(ls[i as int].candidates(d) =~= Seq::<(Seq<u8>, FileType)>::empty());
                    assert(base + ls[i as int].candidates(d) =~= base);
                },
            }
            i = i + 1;
        }
        assert(ls.take(ls.len() as int) =~= ls);
        let ghost collected = entries_view(&to_yield);
        let mut out: Vec<DirEntry> = Vec::new();
        while to_yield.len() > 0
            invariant
                collected.len() == to_yield@.len() + out@.len(),
                entries_view(&to_yield) == collected.take(to_yield@.len() as int),
                entries_view(&out) == collected.skip(to_yield@.len() as int).reverse(),
            decreases to_yield.len(),
        {
            let ghost before_y = to_yield@;
            let ghost before_o = out@;
            let ghost ylen = to_yield@.len() as int;
            assert(entries_view(&to_yield)[ylen - 1] == entry_view(before_y[ylen - 1]));
            assert(collected.take(ylen)[ylen - 1] == collected[ylen - 1]);
            let e = match to_yield.pop() {
                Some(e) => e,
                None => {
                    assert(false);
                    return None;
                },
            };
            assert(e == before_y[ylen - 1]);
            assert(to_yield@ == before_y.drop_last());
            assert(entry_view(e) == collected[to_yield@.len() as int]);
            assert(collected.skip(to_yield@.len() as int) =~= seq![collected[to_yield@.len() as int]] + collected.skip(ylen));
            out.push(e);
            assert(out@ == before_o.push(e));
            assert(entries_view(&to_yield) =~= collected.take(to_yield@.len() as int));
            assert(entries_view(&out) =~= collected.skip(ylen).reverse().push(collected[ylen - 1]));
            assert(collected.skip(ylen - 1).reverse() =~= collected.skip(ylen).reverse().push(collected[ylen - 1]));
        }
        assert(collected.skip(0) =~= collected);
        Some(out)
    }
}


impl<L: Layer> Vfs<L> {
    /// The attributes of the object at `path` in the topmost layer that has one.
    pub fn file_attr(&self, path: &Vec<Vec<u8>>) -> (r: Option<FileAttr>)
        requires
            self.wf(),
        ensures
            r == self.spec_file_attr(pview(path)),
    {
        let ghost p = pview(path);
        let ghost ls = self.layers();
        let mut i: usize = self.layers.len();
        while i > 0
            invariant
                self.wf(),
                ls == self.layers(),
                p == pview(path),
                i <= ls.len(),
                top_attr(ls, p, ls.len() as int) == top_attr(ls, p, i as int),
            decreases i,
        {
            let la = &self.layers[i - 1];
            assert(ls[i - 1].layer.inv());
            match la.map_path_at(path) {
                Some(m) => {
                    match la.layer.file_attr(&m) {
                        Some(a) => {
                            return Some(a);
                        },
                        None => {},
                    }
                },
                None => {},
            }
            i = i - 1;
        }
        None
    }

    /// The topmost layer that holds a file (not a directory) at `file`, and where
    /// `file` lies in it.
    pub fn layer_that_opens_file(&self, file: &Vec<Vec<u8>>) -> (r: Option<(Vec<Vec<u8>>, &L)>)
        requires
            self.wf(),
        ensures
            match r {
                Some((m, l)) => match top_opener(self.layers(), pview(file), self.layers().len() as int) {
                    Some(k) => 0 <= k < self.layers().len() && *l == self.layers()[k].layer
                        && self.layers()[k].spec_map_path_at(pview(file)) == Some(pview(&m)),
                    None => false,
                },
                None => top_opener(self.layers(), pview(file), self.layers().len() as int) is None,
            },
    {
        let ghost p = pview(file);
        let ghost ls = self.layers();
        let mut i: usize = self.layers.len();
        while i > 0
            invariant
                self.wf(),
                ls == self.layers(),
                p == pview(file),
                i <= ls.len(),
                top_opener(ls, p, ls.len() as int) == top_opener(ls, p, i as int),
            decreases i,
        {
            let la = &self.layers[i - 1];
            assert(ls[i - 1].layer.inv());
            match la.map_path_at(file) {
                Some(m) => {
                    if la.layer.file_exists(&m) {
                        return Some((m, &la.layer));
                    }
                },
                None => {},
            }
            i = i - 1;
        }
        None
    }
}


/// What the host reports of a file's metadata, for a layer read straight from a host
/// directory.
#[derive(Clone, Copy, Debug, PartialEq, Eq, Structural)]
pub struct RawMetadata {
    pub is_dir: bool,
    pub is_file: bool,
    pub is_symlink: bool,
    pub size: u64,
    pub blocks: u64,
    pub atime: i64,
    pub mtime: i64,
    pub ctime: i64,
    pub mode: u32,
    pub nlink: u64,
    pub uid: u32,
    pub gid: u32,
    pub rdev: u64,
    pub blksize: u64,
}

/// The kind of directory entry from the host's answers to "is it a directory, a
/// regular file, a symbolic link", asked in that order.
pub open spec fn spec_entry_type(is_dir: bool, is_file: bool, is_symlink: bool) -> Option<FileType> {
    if is_dir {
        Some(FileType::Dir)
    } else if is_file {
        Some(FileType::File)
    } else if is_symlink {
        Some(FileType::Symlink)
    } else {
        None
    }
}

/// The attributes of a file from its host metadata: `None` for a kind other than a
/// directory, a regular file or a symbolic link; the inode is left 0 to be filled in
/// elsewhere, numbers are converted as `as` converts them, and the creation time is
/// the epoch.
pub open spec fn spec_attr_from_metadata(md: RawMetadata) -> Option<FileAttr> {
    let kind = if md.is_dir {
        Some(crate::file_type::FileKind::Directory)
    } else if md.is_file {
        Some(crate::file_type::FileKind::RegularFile)
    } else if md.is_symlink {
        Some(crate::file_type::FileKind::Symlink)
    } else {
        None
    };
    match kind {
        Some(k) => Some(FileAttr {
            ino: 0,
            size: md.size,
            blocks: md.blocks,
            atime: md.atime as u64,
            mtime: md.mtime as u64,
            ctime: md.ctime as u64,
            crtime: 0,
            kind: k,
            perm: md.mode as u16,
            nlink: md.nlink as u32,
            uid: md.uid,
            gid: md.gid,
            rdev: md.rdev as u32,
            blksize: md.blksize as u32,
            flags: 0,
        }),
        None => None,
    }
}

/// A layer read straight from a host directory on every query.
pub struct RawFsLayer {
    source: Vec<u8>,
}

impl RawFsLayer {
    /// The host directory that the layer shows.
    pub closed spec fn spec_source(&self) -> Seq<u8> {
        self.source@
    }

    /// A layer showing the host directory `source`.
    pub fn new(source: Vec<u8>) -> (r: Self)
        ensures
            r.spec_source() == source@,
    {
        RawFsLayer { source }
    }

    /// The host directory that the layer shows.
    pub fn source(&self) -> (r: &[u8])
        ensures
            r@ == self.spec_source(),
    {
        self.source.as_slice()
    }

    /// The host path of `path`: the source directory adjoined with the path's
    /// components.
    pub fn host_path(&self, path: &Vec<Vec<u8>>) -> (r: Vec<u8>)
        ensures
            r@ == crate::path::host_join(self.spec_source(), crate::path::join_components(pview(path))),
    {
        crate::path::host_path(&self.source, path)
    }

    /// The kind of a listed host entry; `None` for kinds the layer does not show.
    pub fn entry_type(is_dir: bool, is_file: bool, is_symlink: bool) -> (r: Option<FileType>)
        ensures
            r == spec_entry_type(is_dir, is_file, is_symlink),
    {
        if is_dir {
            Some(FileType::Dir)
        } else if is_file {
            Some(FileType::File)
        } else if is_symlink {
            Some(FileType::Symlink)
        } else {
            None
        }
    }

    /// The attributes of a host file from its metadata.
    pub fn attr_from_metadata(md: &RawMetadata) -> (r: Option<FileAttr>)
        ensures
            r == spec_attr_from_metadata(*md),
    {
        let kind = if md.is_dir {
            crate::file_type::FileKind::Directory
        } else if md.is_file {
            crate::file_type::FileKind::RegularFile
        } else if md.is_symlink {
            crate::file_type::FileKind::Symlink
        } else {
            return None;
        };
        Some(FileAttr {
            ino: 0,
            size: md.size,
            blocks: md.blocks,
            atime: md.atime as u64,
            mtime: md.mtime as u64,
            ctime: md.ctime as u64,
            crtime: 0,
            kind,
            perm: md.mode as u16,
            nlink: md.nlink as u32,
            uid: md.uid,
            gid: md.gid,
            rdev: md.rdev as u32,
            blksize: md.blksize as u32,
            flags: 0,
        })
    }
}


proof fn lemma_names_push(s: Seq<(Seq<u8>, FileType)>, x: (Seq<u8>, FileType))
    ensures
        names(s.push(x)) == names(s).push(x.0),
{
    assert(names(s.push(x)) =~= names(s).push(x.0));
}

proof fn lemma_names_concat(s: Seq<(Seq<u8>, FileType)>, t: Seq<(Seq<u8>, FileType)>)
    ensures
        names(s + t) == names(s) + names(t),
{
    assert(names(s + t) =~= names(s) + names(t));
}

/// Keeping the first entry of each name keeps every name.
proof fn lemma_dedup_contains(s: Seq<(Seq<u8>, FileType)>, n: Seq<u8>)
    ensures
        names(dedup(s)).contains(n) == names(s).contains(n),
    decreases s.len(),
{
    broadcast use vstd::seq_lib::group_seq_properties;

    if s.len() > 0 {
        let d = dedup(s.drop_last());
        lemma_dedup_contains(s.drop_last(), n);
        lemma_names_push(s.drop_last(), s.last());
        assert(s.drop_last().push(s.last()) =~= s);
        if !names(d).contains(s.last().0) {
            lemma_names_push(d, s.last());
        } else {
            lemma_dedup_contains(s.drop_last(), s.last().0);
        }
    } else {
        assert(names(s) =~= Seq::<Seq<u8>>::empty());
    }
}

/// Keeping the first entry of each name keeps each name once.
proof fn lemma_dedup_distinct(s: Seq<(Seq<u8>, FileType)>)
    ensures
        names(dedup(s)).no_duplicates(),
    decreases s.len(),
{
    broadcast use vstd::seq_lib::group_seq_properties;

    if s.len() > 0 {
        let d = dedup(s.drop_last());
        lemma_dedup_distinct(s.drop_last());
        if !names(d).contains(s.last().0) {
            lemma_names_push(d, s.last());
            let nd = names(dedup(s));
            assert forall|i: int, j: int| 0 <= i < nd.len() && 0 <= j < nd.len() && i != j implies nd[i] != nd[j] by {
                if j == names(d).len() {
                    assert(nd[i] == names(d)[i]);
                    assert(names(d).contains(nd[i]));
                } else if i == names(d).len() {
                    assert(nd[j] == names(d)[j]);
                    assert(names(d).contains(nd[j]));
                } else {
                    assert(nd[i] == names(d)[i]);
                    assert(nd[j] == names(d)[j]);
                }
            }
        }
    } else {
        assert(names(dedup(s)) =~= Seq::<Seq<u8>>::empty());
    }
}

/// A listing restricted to a whitelist holds exactly the admitted names.
proof fn lemma_filter_contains(s: Seq<(Seq<u8>, FileType)>, wl: Option<Seq<Seq<u8>>>, n: Seq<u8>)
    ensures
        names(filter_admitted(s, wl)).contains(n) == (names(s).contains(n) && admitted(wl, n)),
    decreases s.len(),
{
    broadcast use vstd::seq_lib::group_seq_properties;

    if s.len() > 0 {
        lemma_filter_contains(s.drop_last(), wl, n);
        let f = filter_admitted(s.drop_last(), wl);
        lemma_names_push(s.drop_last(), s.last());
        assert(s.drop_last().push(s.last()) =~= s);
        lemma_names_push(f, s.last());
    } else {
        assert(names(s) =~= Seq::<Seq<u8>>::empty());
    }
}

/// The concatenated listings hold a name exactly when one of the layers contributes it.
proof fn lemma_all_candidates_contains<L: Layer>(layers: Seq<LayerAt<L>>, dir: Seq<Seq<u8>>, n: Seq<u8>)
    ensures
        names(all_candidates(layers, dir)).contains(n) == exists|i: int|
            0 <= i < layers.len() && names(#[trigger] layers[i].candidates(dir)).contains(n),
    decreases layers.len(),
{
    broadcast use vstd::seq_lib::group_seq_properties;

    if layers.len() > 0 {
        let init = layers.drop_last();
        lemma_all_candidates_contains(init, dir, n);
        lemma_names_concat(all_candidates(init, dir), layers.last().candidates(dir));
        if exists|i: int| 0 <= i < layers.len() && names(#[trigger] layers[i].candidates(dir)).contains(n) {
            let i = choose|i: int| 0 <= i < layers.len() && names(#[trigger] layers[i].candidates(dir)).contains(n);
            if i < layers.len() - 1 {
                assert(init[i] == layers[i]);
            }
        }
        if exists|i: int| 0 <= i < init.len() && names(#[trigger] init[i].candidates(dir)).contains(n) {
            let i = choose|i: int| 0 <= i < init.len() && names(#[trigger] init[i].candidates(dir)).contains(n);
            assert(init[i] == layers[i]);
        }
        if names(layers.last().candidates(dir)).contains(n) {
            assert(layers[layers.len() - 1] == layers.last());
        }
    } else {
        assert(names(all_candidates(layers, dir)) =~= Seq::<Seq<u8>>::empty());
    }
}

proof fn lemma_reverse_names(d: Seq<(Seq<u8>, FileType)>, n: Seq<u8>)
    ensures
        names(d.reverse()).contains(n) == names(d).contains(n),
        names(d).no_duplicates() ==> names(d.reverse()).no_duplicates(),
{
    let r = d.reverse();
    if names(r).contains(n) {
        let k = choose|k: int| 0 <= k < names(r).len() && names(r)[k] == n;
        assert(names(d)[d.len() - 1 - k] == n);
    }
    if names(d).contains(n) {
        let k = choose|k: int| 0 <= k < names(d).len() && names(d)[k] == n;
        assert(names(r)[d.len() - 1 - k] == n);
    }
    if names(d).no_duplicates() {
        assert forall|i: int, j: int| 0 <= i < names(r).len() && 0 <= j < names(r).len() && i != j implies names(r)[i] != names(r)[j] by {
            assert(names(r)[i] == names(d)[d.len() - 1 - i]);
            assert(names(r)[j] == names(d)[d.len() - 1 - j]);
        }
    }
}

/// The layer reaches `dir` and shows `name` in it: its own listing of the directory
/// holds the name and its whitelist, if any, admits it.
pub open spec fn layer_lists<L: Layer>(la: LayerAt<L>, dir: Seq<Seq<u8>>, name: Seq<u8>) -> bool {
    match la.spec_map_path_at(dir) {
        Some(m) => names(la.layer.spec_read_dir(m)).contains(name) && admitted(la.whitelist_view(), name),
        None => false,
    }
}

/// Merged listings hold every name once: a name shown by several layers is listed a
/// single time.
pub proof fn lemma_read_dir_names_distinct<L: Layer>(vfs: Vfs<L>, dir: Seq<Seq<u8>>)
    requires
        vfs.spec_read_dir(dir) is Some,
    ensures
        names(vfs.spec_read_dir(dir).unwrap()).no_duplicates(),
{
    let d = dedup(all_candidates(vfs.layers(), dir));
    lemma_dedup_distinct(all_candidates(vfs.layers(), dir));
    lemma_reverse_names(d, Seq::empty());
}

/// The merged listing of a directory is the union of what the layers show of it:
/// a name is listed exactly when some layer that reaches the directory lists it and
/// that layer's whitelist, if any, admits it.
pub proof fn lemma_read_dir_is_union<L: Layer>(vfs: Vfs<L>, dir: Seq<Seq<u8>>, name: Seq<u8>)
    requires
        vfs.spec_read_dir(dir) is Some,
    ensures
        names(vfs.spec_read_dir(dir).unwrap()).contains(name) <==> exists|i: int|
            0 <= i < vfs.layers().len() && layer_lists(#[trigger] vfs.layers()[i], dir, name),
{
    let ls = vfs.layers();
    let c = all_candidates(ls, dir);
    let d = dedup(c);
    lemma_reverse_names(d, name);
    lemma_dedup_contains(c, name);
    lemma_all_candidates_contains(ls, dir, name);
    assert forall|i: int| 0 <= i < ls.len() implies names(#[trigger] ls[i].candidates(dir)).contains(name) == layer_lists(
        ls[i],
        dir,
        name,
    ) by {
        if let Some(m) = ls[i].spec_map_path_at(dir) {
            lemma_filter_contains(ls[i].layer.spec_read_dir(m), ls[i].whitelist_view(), name);
        } else {
            assert(names(ls[i].candidates(dir)) =~= Seq::<Seq<u8>>::empty());
        }
    }
    if exists|i: int| 0 <= i < ls.len() && layer_lists(#[trigger] ls[i], dir, name) {
        let i = choose|i: int| 0 <= i < ls.len() && layer_lists(#[trigger] ls[i], dir, name);
        assert(names(ls[i].candidates(dir)).contains(name));
    }
    if exists|i: int| 0 <= i < ls.len() && names(#[trigger] ls[i].candidates(dir)).contains(name) {
        let i = choose|i: int| 0 <= i < ls.len() && names(#[trigger] ls[i].candidates(dir)).contains(name);
        assert(layer_lists(ls[i], dir, name));
    }
}

/// The first entry of `s` named `n`.
pub open spec fn first_entry(s: Seq<(Seq<u8>, FileType)>, n: Seq<u8>) -> Option<(Seq<u8>, FileType)>
    decreases s.len(),
{
    if s.len() == 0 {
        None
    } else if names(s.drop_last()).contains(n) {
        first_entry(s.drop_last(), n)
    } else if s.last().0 == n {
        Some(s.last())
    } else {
        None
    }
}

proof fn lemma_dedup_first(s: Seq<(Seq<u8>, FileType)>, k: int)
    requires
        0 <= k < dedup(s).len(),
    ensures
        first_entry(s, dedup(s)[k].0) == Some(dedup(s)[k]),
    decreases s.len(),
{
    broadcast use vstd::seq_lib::group_seq_properties;

    let d = dedup(s.drop_last());
    let e = dedup(s)[k];
    if k < d.len() {
        assert(e == d[k]);
        lemma_dedup_first(s.drop_last(), k);
        assert(names(d)[k] == e.0);
        lemma_dedup_contains(s.drop_last(), e.0);
    } else {
        assert(!names(d).contains(s.last().0));
        lemma_dedup_contains(s.drop_last(), s.last().0);
        assert(e == s.last());
    }
}

/// Where several layers list the same name, the merged listing shows the entry of the
/// lowest such layer (the first one met going up the stack).
pub proof fn lemma_read_dir_lowest_layer_wins<L: Layer>(vfs: Vfs<L>, dir: Seq<Seq<u8>>, k: int)
    requires
        vfs.spec_read_dir(dir) is Some,
        0 <= k < vfs.spec_read_dir(dir).unwrap().len(),
    ensures
        first_entry(all_candidates(vfs.layers(), dir), vfs.spec_read_dir(dir).unwrap()[k].0) == Some(
            vfs.spec_read_dir(dir).unwrap()[k],
        ),
{
    let d = dedup(all_candidates(vfs.layers(), dir));
    assert(vfs.spec_read_dir(dir).unwrap()[k] == d[d.len() - 1 - k]);
    lemma_dedup_first(all_candidates(vfs.layers(), dir), d.len() - 1 - k);
}

proof fn lemma_top_attr_prefix<L: Layer>(a: Seq<LayerAt<L>>, b: Seq<LayerAt<L>>, p: Seq<Seq<u8>>, n: int)
    requires
        0 <= n <= a.len(),
        n <= b.len(),
        forall|i: int| 0 <= i < n ==> a[i] == b[i],
    ensures
        top_attr(a, p, n) == top_attr(b, p, n),
        top_opener(a, p, n) == top_opener(b, p, n),
    decreases n,
{
    if n > 0 {
        assert(a[n - 1] == b[n - 1]);
        lemma_top_attr_prefix(a, b, p, n - 1);
    }
}

/// A layer pushed on top shadows the ones below: a path that it holds an object at
/// gets that object's attributes, and any other path keeps the attributes it had.
pub proof fn lemma_push_layer_shadows<L: Layer>(before: Vfs<L>, after: Vfs<L>, path: Seq<Seq<u8>>)
    requires
        after.layers().len() == before.layers().len() + 1,
        after.layers().drop_last() == before.layers(),
    ensures
        after.spec_file_attr(path) == match after.layers().last().spec_map_path_at(path) {
            Some(m) => match after.layers().last().layer.spec_file_attr(m) {
                Some(a) => Some(a),
                None => before.spec_file_attr(path),
            },
            None => before.spec_file_attr(path),
        },
{
    let n = before.layers().len() as int;
    assert forall|i: int| 0 <= i < n implies after.layers()[i] == before.layers()[i] by {
        assert(after.layers().drop_last()[i] == after.layers()[i]);
    }
    lemma_top_attr_prefix(after.layers(), before.layers(), path, n);
    assert(after.layers()[n] == after.layers().last());
}

/// Files are opened from the topmost layer that holds them: after a push, a file the
/// new layer holds opens there, and any other path opens where it did before.
pub proof fn lemma_push_layer_opens_on_top<L: Layer>(before: Vfs<L>, after: Vfs<L>, path: Seq<Seq<u8>>)
    requires
        after.layers().len() == before.layers().len() + 1,
        after.layers().drop_last() == before.layers(),
    ensures
        top_opener(after.layers(), path, after.layers().len() as int) == match after.layers().last().spec_map_path_at(path) {
            Some(m) => if after.layers().last().layer.spec_file_exists(m) {
                Some(before.layers().len() as int)
            } else {
                top_opener(before.layers(), path, before.layers().len() as int)
            },
            None => top_opener(before.layers(), path, before.layers().len() as int),
        },
{
    let n = before.layers().len() as int;
    assert forall|i: int| 0 <= i < n implies after.layers()[i] == before.layers()[i] by {
        assert(after.layers().drop_last()[i] == after.layers()[i]);
    }
    lemma_top_attr_prefix(after.layers(), before.layers(), path, n);
    assert(after.layers()[n] == after.layers().last());
}

/// A layer mounted at `at` sees the path `at` followed by `rest` as `rest`, and sees
/// nothing of a path that does not start with `at`.
pub proof fn lemma_map_path_below_mount(at: Seq<Seq<u8>>, rest: Seq<Seq<u8>>, other: Seq<Seq<u8>>)
    requires
        !crate::path::is_prefix(at, other),
    ensures
        spec_map_path(Some(at), at + rest) == Some(rest),
        spec_map_path(Some(at), other) is None,
{
    assert((at + rest).subrange(0, at.len() as int) =~= at);
    assert((at + rest).skip(at.len() as int) =~= rest);
}

} // verus!
