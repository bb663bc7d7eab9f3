//! The configuration file: a KDL document listing game installs, each with its
//! target directory and the directories mounted over it.

use vstd::prelude::*;
use kdl::{KdlDocument, KdlEntry, KdlError, KdlNode};

verus! {

/// `kdl::KdlDocument`: a parsed KDL document, a sequence of nodes.
#[verifier::external_type_specification]
#[verifier::external_body]
pub struct ExKdlDocument(KdlDocument);

/// `kdl::KdlNode`: a KDL node with a name, entries and maybe children.
#[verifier::external_type_specification]
#[verifier::external_body]
pub struct ExKdlNode(KdlNode);

/// `kdl::KdlEntry`: an argument or a property of a KDL node.
#[verifier::external_type_specification]
#[verifier::external_body]
pub struct ExKdlEntry(KdlEntry);

/// `kdl::KdlError`: why a text is not a KDL document.
#[verifier::external_type_specification]
#[verifier::external_body]
pub struct ExKdlError(KdlError);

/// What the configuration logic reads of a KDL entry: its name, for a property, and
/// its value, when that is a string.
pub ghost struct KdlEntryView {
    pub name: Option<Seq<char>>,
    pub string: Option<Seq<char>>,
}

/// What the configuration logic reads of a KDL node.
pub ghost struct KdlNodeView {
    pub name: Seq<char>,
    pub entries: Seq<KdlEntryView>,
    pub children: Option<Seq<KdlNodeView>>,
}

/// The nodes of the KDL document that a text parses to, if it parses.
pub uninterp spec fn kdl_parsed(text: Seq<char>) -> Option<Seq<KdlNodeView>>;

/// The nodes that a KDL document holds.
pub uninterp spec fn kdl_nodes(doc: KdlDocument) -> Seq<KdlNodeView>;

/// What a KDL node holds.
pub uninterp spec fn kdl_node(node: KdlNode) -> KdlNodeView;

/// What a KDL entry holds.
pub uninterp spec fn kdl_entry(entry: KdlEntry) -> KdlEntryView;

/// `KdlDocument::from_str` (through `str::parse`): parses a KDL text.
#[verifier::external_body]
fn parse_kdl(text: &str) -> (r: Result<KdlDocument, KdlError>)
    ensures
        match r {
            Ok(d) => kdl_parsed(text@) == Some(kdl_nodes(d)),
            Err(_) => kdl_parsed(text@) is None,
        },
{
    text.parse::<KdlDocument>()
}

/// `KdlDocument::nodes`: the nodes of a document, in order.
#[verifier::external_body]
fn document_nodes(doc: &KdlDocument) -> (r: &[KdlNode])
    ensures
        r@.map_values(|n: KdlNode| kdl_node(n)) == kdl_nodes(*doc),
{
    doc.nodes()
}

/// The index of the first node named `name`.
pub open spec fn first_named(s: Seq<KdlNodeView>, name: Seq<char>) -> Option<int>
    decreases s.len(),
{
    if s.len() == 0 {
        None
    } else if s[0].name == name {
        Some(0)
    } else {
        match first_named(s.drop_first(), name) {
            Some(i) => Some(i + 1),
            None => None,
        }
    }
}

/// The index of the `n`-th argument (entry without a name), counting from 0.
pub open spec fn nth_argument(s: Seq<KdlEntryView>, n: nat) -> Option<int>
    decreases s.len(),
{
    if s.len() == 0 {
        None
    } else {
        let found = if s[0].name is None {
            if n == 0 {
                Some(-1int)
            } else {
                nth_argument(s.drop_first(), (n - 1) as nat)
            }
        } else {
            nth_argument(s.drop_first(), n)
        };
        match found {
            Some(i) => Some(i + 1),
            None => None,
        }
    }
}

/// The index of the last property named `key`.
pub open spec fn last_property(s: Seq<KdlEntryView>, key: Seq<char>) -> Option<int>
    decreases s.len(),
{
    if s.len() == 0 {
        None
    } else if s.last().name == Some(key) {
        Some(s.len() - 1)
    } else {
        last_property(s.drop_last(), key)
    }
}

/// How an entry of a node is looked up: by position among the arguments, or by
/// property name.
pub enum EntryKey<'a> {
    Argument(usize),
    Property(&'a str),
}

/// The index of the entry that `key` finds among `s`.
pub open spec fn entry_index(s: Seq<KdlEntryView>, key: EntryKey) -> Option<int> {
    match key {
        EntryKey::Argument(n) => nth_argument(s, n as nat),
        EntryKey::Property(k) => last_property(s, k@),
    }
}

/// `KdlNode::name` with `KdlIdentifier::value`: the name of a node.
#[verifier::external_body]
fn node_name(node: &KdlNode) -> (r: &str)
    ensures
        r@ == kdl_node(*node).name,
{
    node.name().value()
}

/// `KdlNode::children`: the child document of a node, if it has one.
#[verifier::external_body]
fn node_children(node: &KdlNode) -> (r: Option<&KdlDocument>)
    ensures
        match r {
            Some(d) => kdl_node(*node).children == Some(kdl_nodes(*d)),
            None => kdl_node(*node).children is None,
        },
{
    node.children()
}

/// `KdlDocument::get`: the first node of a document with the given name.
#[verifier::external_body]
fn document_get<'a>(doc: &'a KdlDocument, name: &str) -> (r: Option<&'a KdlNode>)
    ensures
        match r {
            Some(n) => first_named(kdl_nodes(*doc), name@) matches Some(i) && kdl_node(*n) == kdl_nodes(*doc)[i],
            None => first_named(kdl_nodes(*doc), name@) is None,
        },
{
    doc.get(name)
}

/// `KdlNode::get`: the `n`-th argument of a node, or its last property with the given
/// name. Looking up an argument computes `n + 1`, so `n` must be below `usize::MAX`.
#[verifier::external_body]
fn node_get<'a>(node: &'a KdlNode, key: EntryKey) -> (r: Option<&'a KdlEntry>)
    requires
        match key {
            EntryKey::Argument(n) => n < usize::MAX,
            EntryKey::Property(_) => true,
        },
    ensures
        match r {
            Some(e) => entry_index(kdl_node(*node).entries, key) matches Some(i) && kdl_entry(*e) == kdl_node(*node).entries[i],
            None => entry_index(kdl_node(*node).entries, key) is None,
        },
{
    match key {
        EntryKey::Argument(n) => node.get(n),
        EntryKey::Property(k) => node.get(k),
    }
}

/// `KdlEntry::value` with `KdlValue::as_string`: the value of an entry, when it is a
/// string.
#[verifier::external_body]
fn entry_string(entry: &KdlEntry) -> (r: Option<&str>)
    ensures
        match r {
            Some(s) => kdl_entry(*entry).string == Some(s@),
            None => kdl_entry(*entry).string is None,
        },
{
    entry.value().as_string()
}

/// The nodes of `s` named `name`, in order.
pub open spec fn named(s: Seq<KdlNodeView>, name: Seq<char>) -> Seq<KdlNodeView>
    decreases s.len(),
{
    if s.len() == 0 {
        Seq::empty()
    } else {
        let rest = named(s.drop_last(), name);
        if s.last().name == name {
            rest.push(s.last())
        } else {
            rest
        }
    }
}

/// The string value of the first argument of a node, if it has one.
pub open spec fn first_argument(n: KdlNodeView) -> Option<Seq<char>> {
    match nth_argument(n.entries, 0) {
        Some(k) => n.entries[k].string,
        None => None,
    }
}

/// The string value of the last property `key` of a node, if it has one.
pub open spec fn property(n: KdlNodeView, key: Seq<char>) -> Option<Seq<char>> {
    match last_property(n.entries, key) {
        Some(k) => n.entries[k].string,
        None => None,
    }
}

/// How a path is adjoined to a base path on Unix, on text: an absolute `rel`
/// replaces the base; otherwise one `/` is put between them unless the base is empty
/// or already ends in one.
pub open spec fn join_path_text(base: Seq<char>, rel: Seq<char>) -> Seq<char> {
    if rel.len() > 0 && rel[0] == '/' {
        rel
    } else if base.len() == 0 || base.last() == '/' {
        base + rel
    } else {
        base + seq!['/'] + rel
    }
}

/// `base` adjoined with `rel`, as `Path::join` adjoins paths.
pub fn join_path(base: &str, rel: &str) -> (r: String)
    ensures
        r@ == join_path_text(base@, rel@),
{
    let rel_len = rel.unicode_len();
    if rel_len > 0 && rel.get_char(0) == '/' {
        return rel.to_owned();
    }
    let base_len = base.unicode_len();
    let mut r = base.to_owned();
    if base_len > 0 && base.get_char(base_len - 1) != '/' {
        let sep = "/";
        proof {
            reveal_strlit("/");
        }
        r.append(sep);
    }
    r.append(rel);
    r
}

/// Text equality of two strings.
fn text_eq(a: &str, b: &str) -> (r: bool)
    ensures
        r == (a@ == b@),
{
    a.to_owned() == b.to_owned()
}

/// Why the configuration could not be read.
pub enum ConfigError {
    /// The text is not a KDL document.
    Parse(KdlError),
}

/// The parsed configuration document.
pub struct Config {
    doc: KdlDocument,
}

/// The configuration of one game install: a node named `install`.
pub struct Install<'a> {
    node: &'a KdlNode,
}

/// A set of directories mounted over an install: a node named `mount`, with its
/// `at` and `parent` properties.
pub struct Mount<'a> {
    node: &'a KdlNode,
    at: Option<&'a str>,
    parent: Option<&'a str>,
}

/// One mounted directory: a node named `dir` inside a mount.
pub struct MountDir<'a, 'b> {
    node: &'a KdlNode,
    mount: &'b Mount<'a>,
}

impl Config {
    /// The top-level nodes of the document.
    pub closed spec fn nodes(&self) -> Seq<KdlNodeView> {
        kdl_nodes(self.doc)
    }

    /// Parses the text of the configuration file.
    pub fn parse(text: &str) -> (r: Result<Config, ConfigError>)
        ensures
            match r {
                Ok(c) => kdl_parsed(text@) == Some(c.nodes()),
                Err(_) => kdl_parsed(text@) is None,
            },
    {
        match parse_kdl(text) {
            Ok(doc) => Ok(Config { doc }),
            Err(e) => Err(ConfigError::Parse(e)),
        }
    }

    /// The installs: the top-level nodes named `install`, in order.
    pub fn installs(&self) -> (r: Vec<Install<'_>>)
        ensures
            r@.map_values(|i: Install| i.view()) == named(self.nodes(), "install"@),
    {
        let nodes = nodes_named(&self.doc, "install");
        let mut out: Vec<Install<'_>> = Vec::new();
        let mut i: usize = 0;
        while i < nodes.len()
            invariant
                nodes@.map_values(|n: &KdlNode| kdl_node(*n)) == named(self.nodes(), "install"@),
                i <= nodes@.len(),
                out@.map_values(|x: Install| x.view()) == nodes@.map_values(|n: &KdlNode| kdl_node(*n)).take(i as int),
            decreases nodes@.len() - i,
        {
            let ghost before = out@;
            out.push(Install { node: nodes[i] });
            assert(out@ == before.push(Install { node: nodes@[i as int] }));
            assert(out@.map_values(|x: Install| x.view()) =~= before.map_values(|x: Install| x.view()).push(kdl_node(*nodes@[i as int])));
            assert(out@.map_values(|x: Install| x.view()) =~= nodes@.map_values(|n: &KdlNode| kdl_node(*n)).take(i + 1));
            i = i + 1;
        }
        assert(nodes@.map_values(|n: &KdlNode| kdl_node(*n)).take(nodes@.len() as int) =~= nodes@.map_values(|n: &KdlNode| kdl_node(*n)));
        out
    }
}

/// The nodes of `doc` named `name`, in order.
fn nodes_named<'a>(doc: &'a KdlDocument, name: &str) -> (r: Vec<&'a KdlNode>)
    ensures
        r@.map_values(|n: &KdlNode| kdl_node(*n)) == named(kdl_nodes(*doc), name@),
{
    let nodes = document_nodes(doc);
    let ghost s = kdl_nodes(*doc);
    let mut out: Vec<&'a KdlNode> = Vec::new();
    let mut i: usize = 0;
    assert(s.take(0) =~= Seq::<KdlNodeView>::empty());
    while i < nodes.len()
        invariant
            s == kdl_nodes(*doc),
            nodes@.map_values(|n: KdlNode| kdl_node(n)) == s,
            i <= nodes@.len(),
            out@.map_values(|x: &KdlNode| kdl_node(*x)) == named(s.take(i as int), name@),
        decreases nodes@.len() - i,
    {
        let node = &nodes[i];
        assert(kdl_node(*node) == s[i as int]);
        assert(s.take(i + 1).drop_last() =~= s.take(i as int));
        let ghost before = out@;
        if text_eq(node_name(node), name) {
            out.push(node);
            assert(out@ == before.push(node));
            assert(out@.map_values(|x: &KdlNode| kdl_node(*x)) =~= named(s.take(i as int), name@).push(s[i as int]));
        }
        i = i + 1;
    }
    assert(s.take(nodes@.len() as int) =~= s);
    out
}

impl<'a> Install<'a> {
    /// The node of the install.
    pub closed spec fn view(&self) -> KdlNodeView {
        kdl_node(*self.node)
    }
}

/// The string value of the first argument of `node`.
fn string_argument<'a>(node: &'a KdlNode) -> (r: Option<&'a str>)
    ensures
        match r {
            Some(s) => first_argument(kdl_node(*node)) == Some(s@),
            None => first_argument(kdl_node(*node)) is None,
        },
{
    match node_get(node, EntryKey::Argument(0)) {
        Some(e) => entry_string(e),
        None => None,
    }
}

/// The string value of the last property `key` of `node`.
fn string_property<'a>(node: &'a KdlNode, key: &str) -> (r: Option<&'a str>)
    ensures
        match r {
            Some(s) => property(kdl_node(*node), key@) == Some(s@),
            None => property(kdl_node(*node), key@) is None,
        },
{
    match node_get(node, EntryKey::Property(key)) {
        Some(e) => entry_string(e),
        None => None,
    }
}

/// The view of an optional string.
pub open spec fn opt_view(s: Option<&str>) -> Option<Seq<char>> {
    match s {
        Some(t) => Some(t@),
        None => None,
    }
}

/// The target directory of an install node: the first argument of its first child
/// named `target`, when it is a string.
pub open spec fn spec_target(n: KdlNodeView) -> Option<Seq<char>> {
    match n.children {
        Some(cs) => match first_named(cs, "target"@) {
            Some(i) => first_argument(cs[i]),
            None => None,
        },
        None => None,
    }
}

impl<'a> Install<'a> {
    /// The directory of the game install; `None` when the node has no child named
    /// `target` whose first argument is a string.
    ///
    /// Such a configuration is broken; the library reports it as `None` instead of
    /// panicking, and the program stops on it when it needs the value.
    pub fn target(&self) -> (r: Option<String>)
        ensures
            match r {
                Some(t) => spec_target(self.view()) == Some(t@),
                None => spec_target(self.view()) is None,
            },
    {
        let children = match node_children(self.node) {
            Some(c) => c,
            None => {
                return None;
            },
        };
        let target = match document_get(children, "target") {
            Some(t) => t,
            None => {
                return None;
            },
        };
        match string_argument(target) {
            Some(s) => Some(s.to_owned()),
            None => None,
        }
    }

    /// The mounts of the install: its children named `mount`, in order, each with its
    /// `at` and `parent` properties; `None` when the node has no children.
    ///
    /// Such a configuration is broken; the library reports it as `None` instead of
    /// panicking, and the program stops on it when it needs the value.
    pub fn mounts(&self) -> (r: Option<Vec<Mount<'a>>>)
        ensures
            match r {
                Some(ms) => self.view().children is Some && ms@.map_values(|m: Mount| m.view()) == named(
                    self.view().children.unwrap(),
                    "mount"@,
                ) && forall|k: int| 0 <= k < ms@.len() ==> (#[trigger] ms@[k]).wf(),
                None => self.view().children is None,
            },
    {
        let children = match node_children(self.node) {
            Some(c) => c,
            None => {
                return None;
            },
        };
        let nodes = nodes_named(children, "mount");
        let ghost nv = nodes@.map_values(|n: &KdlNode| kdl_node(*n));
        let mut out: Vec<Mount<'a>> = Vec::new();
        let mut i: usize = 0;
        while i < nodes.len()
            invariant
                nv == nodes@.map_values(|n: &KdlNode| kdl_node(*n)),
                i <= nodes@.len(),
                out@.map_values(|x: Mount| x.view()) == nv.take(i as int),
                forall|k: int| 0 <= k < out@.len() ==> (#[trigger] out@[k]).wf(),
            decreases nodes@.len() - i,
        {
            let node = nodes[i];
            let at = string_property(node, "at");
            let parent = string_property(node, "parent");
            let m = Mount { node, at, parent };
            assert(m.wf());
            let ghost before = out@;
            out.push(m);
            assert(out@ == before.push(m));
            assert(out@.map_values(|x: Mount| x.view()) =~= before.map_values(|x: Mount| x.view()).push(kdl_node(*node)));
            assert(out@.map_values(|x: Mount| x.view()) =~= nv.take(i + 1));
            i = i + 1;
        }
        assert(nv.take(nodes@.len() as int) =~= nv);
        Some(out)
    }
}

impl<'a> Mount<'a> {
    /// The node of the mount.
    pub closed spec fn view(&self) -> KdlNodeView {
        kdl_node(*self.node)
    }

    /// The `at` property of the mount.
    pub closed spec fn at_view(&self) -> Option<Seq<char>> {
        opt_view(self.at)
    }

    /// The `parent` property of the mount.
    pub closed spec fn parent_view(&self) -> Option<Seq<char>> {
        opt_view(self.parent)
    }

    /// The properties held are those of the node.
    pub open spec fn wf(&self) -> bool {
        &&& self.at_view() == property(self.view(), "at"@)
        &&& self.parent_view() == property(self.view(), "parent"@)
    }

    /// Where in the virtual tree the mount's directories go, if set.
    pub fn at(&self) -> (r: Option<&str>)
        ensures
            opt_view(r) == self.at_view(),
    {
        self.at
    }

    /// The host directory that relative directories of the mount are taken from.
    pub fn parent(&self) -> (r: Option<&str>)
        ensures
            opt_view(r) == self.parent_view(),
    {
        self.parent
    }

    /// The directories of the mount: its children named `dir`, in order; `None` when
    /// the node has no children.
    ///
    /// Such a configuration is broken; the library reports it as `None` instead of
    /// panicking, and the program stops on it when it needs the value.
    pub fn dirs<'b>(&'b self) -> (r: Option<Vec<MountDir<'a, 'b>>>)
        ensures
            match r {
                Some(ds) => self.view().children is Some && ds@.map_values(|d: MountDir| d.view()) == named(
                    self.view().children.unwrap(),
                    "dir"@,
                ) && forall|k: int| 0 <= k < ds@.len() ==> (#[trigger] ds@[k]).parent_view() == self.parent_view(),
                None => self.view().children is None,
            },
    {
        let children = match node_children(self.node) {
            Some(c) => c,
            None => {
                return None;
            },
        };
        let nodes = nodes_named(children, "dir");
        let ghost nv = nodes@.map_values(|n: &KdlNode| kdl_node(*n));
        let mut out: Vec<MountDir<'a, 'b>> = Vec::new();
        let mut i: usize = 0;
        while i < nodes.len()
            invariant
                nv == nodes@.map_values(|n: &KdlNode| kdl_node(*n)),
                i <= nodes@.len(),
                out@.map_values(|x: MountDir| x.view()) == nv.take(i as int),
                forall|k: int| 0 <= k < out@.len() ==> (#[trigger] out@[k]).parent_view() == self.parent_view(),
            decreases nodes@.len() - i,
        {
            let node = nodes[i];
            let d = MountDir { node, mount: self };
            let ghost before = out@;
            out.push(d);
            assert(out@ == before.push(d));
            assert(out@.map_values(|x: MountDir| x.view()) =~= before.map_values(|x: MountDir| x.view()).push(kdl_node(*node)));
            assert(out@.map_values(|x: MountDir| x.view()) =~= nv.take(i + 1));
            i = i + 1;
        }
        assert(nv.take(nodes@.len() as int) =~= nv);
        Some(out)
    }
}

/// The host directory of a `dir` node: its first argument, adjoined to the mount's
/// parent directory when there is one.
pub open spec fn spec_dir(n: KdlNodeView, parent: Option<Seq<char>>) -> Option<Seq<char>> {
    match first_argument(n) {
        Some(d) => Some(
            match parent {
                Some(p) => join_path_text(p, d),
                None => d,
            },
        ),
        None => None,
    }
}

/// The names of the nodes of `s`, in order.
pub open spec fn node_names(s: Seq<KdlNodeView>) -> Seq<Seq<char>> {
    s.map_values(|n: KdlNodeView| n.name)
}

impl<'a, 'b> MountDir<'a, 'b> {
    /// The node of the directory.
    pub closed spec fn view(&self) -> KdlNodeView {
        kdl_node(*self.node)
    }

    /// The `parent` property of the mount that the directory belongs to.
    pub closed spec fn parent_view(&self) -> Option<Seq<char>> {
        self.mount.parent_view()
    }

    /// The host directory; `None` when the node has no string argument.
    ///
    /// Such a configuration is broken; the library reports it as `None` instead of
    /// panicking, and the program stops on it when it needs the value.
    pub fn dir(&self) -> (r: Option<String>)
        ensures
            match r {
                Some(d) => spec_dir(self.view(), self.parent_view()) == Some(d@),
                None => spec_dir(self.view(), self.parent_view()) is None,
            },
    {
        let dir = match string_argument(self.node) {
            Some(d) => d,
            None => {
                return None;
            },
        };
        match self.mount.parent {
            Some(parent) => Some(join_path(parent, dir)),
            None => Some(dir.to_owned()),
        }
    }

    /// The whitelist of the directory: the names of its children, in order, when it
    /// has children; then only those names are shown.
    pub fn files(&self) -> (r: Option<Vec<&'a str>>)
        ensures
            match r {
                Some(fs) => self.view().children is Some && fs@.map_values(|f: &str| f@) == node_names(
                    self.view().children.unwrap(),
                ),
                None => self.view().children is None,
            },
    {
        let children = match node_children(self.node) {
            Some(c) => c,
            None => {
                return None;
            },
        };
        let nodes = document_nodes(children);
        let ghost nv = kdl_nodes(*children);
        let mut out: Vec<&'a str> = Vec::new();
        let mut i: usize = 0;
        while i < nodes.len()
            invariant
                nv == kdl_nodes(*children),
                nodes@.map_values(|n: KdlNode| kdl_node(n)) == nv,
                i <= nodes@.len(),
                out@.map_values(|f: &str| f@) == node_names(nv).take(i as int),
            decreases nodes@.len() - i,
        {
            let name = node_name(&nodes[i]);
            assert(name@ == nv[i as int].name);
            let ghost before = out@;
            out.push(name);
            assert(out@ == before.push(name));
            assert(out@.map_values(|f: &str| f@) =~= before.map_values(|f: &str| f@).push(name@));
            assert(node_names(nv)[i as int] == nv[i as int].name);
            assert(out@.map_values(|f: &str| f@) =~= node_names(nv).take(i + 1));
            i = i + 1;
        }
        assert(node_names(nv).take(nodes@.len() as int) =~= node_names(nv));
        Some(out)
    }
}

} // verus!
