use m3::attr::Stat;
use m3::file_type::FileKind;
use m3::mount_point::{MountPoint, MountPointBuilder};
use m3::vfs::{FileType, RawFsLayer, RawMetadata, Vfs};

fn stat_with_mode(mode: u32) -> Stat {
    Stat { ino: 1, mode, nlink: 1, uid: 0, gid: 0, rdev: 0, size: 3, blksize: 4096, blocks: 1, atime: 0, mtime: 0, ctime: 0 }
}

fn comps(path: &str) -> Vec<Vec<u8>> {
    path.split('/').filter(|c| !c.is_empty()).map(|c| c.as_bytes().to_vec()).collect()
}

fn build(fd: i32, tree: &[(&str, &[(&str, bool)])], first: u64) -> (MountPoint, u64) {
    let mut b = MountPointBuilder::new(fd, stat_with_mode(0o040755), first);
    while let Some((path, idx)) = b.next_dir() {
        let key = path.iter().map(|c| String::from_utf8(c.clone()).unwrap()).collect::<Vec<_>>().join("/");
        let entries: &[(&str, bool)] = tree.iter().find(|(p, _)| *p == key).map(|(_, e)| *e).unwrap_or(&[]);
        let listing: Vec<(Vec<u8>, Stat)> = entries
            .iter()
            .map(|(n, d)| (n.as_bytes().to_vec(), stat_with_mode(if *d { 0o040755 } else { 0o100644 })))
            .collect();
        b.add_listing(&path, idx, &listing);
    }
    b.finish()
}

fn gamedir(first: u64) -> (MountPoint, u64) {
    build(
        10,
        &[
            ("", &[("gamefile1.txt", false), ("subdir", true)]),
            ("subdir", &[("gamefile2.txt", false), ("subsubdir", true)]),
            ("subdir/subsubdir", &[("gamefile3.txt", false)]),
        ],
        first,
    )
}

fn moddir(first: u64) -> (MountPoint, u64) {
    build(11, &[("", &[("modfile1.txt", false), ("subdir", true)]), ("subdir", &[("modfile2.txt", false)])], first)
}

fn names_of(vfs: &Vfs<MountPoint>, dir: &str) -> Option<Vec<String>> {
    vfs.read_dir(&comps(dir)).map(|v| v.into_iter().map(|e| String::from_utf8(e.name).unwrap()).collect())
}

fn overlay() -> Vfs<MountPoint> {
    let (game, next) = gamedir(2);
    let (m, _) = moddir(next);
    let mut vfs = Vfs::new();
    vfs.push_layer(game, None, None);
    vfs.push_layer(m, None, None);
    vfs
}

#[test]
fn readme_overlay_shows_game_and_mod_files() {
    let vfs = overlay();
    let mut root = names_of(&vfs, "/").unwrap();
    root.sort();
    assert_eq!(root, vec!["gamefile1.txt", "modfile1.txt", "subdir"]);
    let mut sub = names_of(&vfs, "subdir").unwrap();
    sub.sort();
    assert_eq!(sub, vec!["gamefile2.txt", "modfile2.txt", "subsubdir"]);
    assert_eq!(names_of(&vfs, "subdir/subsubdir").unwrap(), vec!["gamefile3.txt"]);
}

#[test]
fn merged_listing_comes_in_reverse_order_of_first_appearance() {
    let vfs = overlay();
    assert_eq!(names_of(&vfs, "/").unwrap(), vec!["modfile1.txt", "subdir", "gamefile1.txt"]);
}

#[test]
fn read_dir_is_none_where_no_layer_has_the_directory() {
    let vfs = overlay();
    assert_eq!(names_of(&vfs, "nosuch"), None);
    assert_eq!(names_of(&vfs, "gamefile1.txt"), None);
    let empty: Vfs<MountPoint> = Vfs::new();
    assert_eq!(names_of(&empty, "/"), None);
}

#[test]
fn lowest_layer_gives_the_entry_of_a_shared_name() {
    let (game, next) = build(1, &[("", &[("x", true)])], 2);
    let (top, _) = build(2, &[("", &[("x", false)])], next);
    let mut vfs = Vfs::new();
    vfs.push_layer(game, None, None);
    vfs.push_layer(top, None, None);
    let entries = vfs.read_dir(&vec![]).unwrap();
    assert_eq!(entries.len(), 1);
    assert_eq!(entries[0].typ, FileType::Dir);
    // while attributes come from the top layer
    assert_eq!(vfs.file_attr(&comps("x")).unwrap().kind, FileKind::RegularFile);
}

#[test]
fn top_layer_shadows_attributes() {
    let (game, next) = gamedir(2);
    let (m, _) = moddir(next);
    let mut vfs = Vfs::new();
    vfs.push_layer(game, None, None);
    let before = vfs.file_attr(&comps("subdir")).unwrap().ino;
    assert_eq!(before, 3);
    vfs.push_layer(m, None, None);
    let after = vfs.file_attr(&comps("subdir")).unwrap().ino;
    assert_eq!(after, next + 1);
    assert_eq!(vfs.file_attr(&comps("gamefile1.txt")).unwrap().ino, 2);
    assert_eq!(vfs.file_attr(&comps("nosuch")), None);
}

#[test]
fn whitelist_restricts_a_layer() {
    let (game, next) = gamedir(2);
    let (m, _) = moddir(next);
    let mut vfs = Vfs::new();
    vfs.push_layer(game, None, None);
    vfs.push_layer(m, None, Some(vec![b"subdir".to_vec()]));
    let mut root = names_of(&vfs, "/").unwrap();
    root.sort();
    assert_eq!(root, vec!["gamefile1.txt", "subdir"]);
}

#[test]
fn layer_mounted_below_a_path() {
    let (game, next) = gamedir(2);
    let (m, _) = moddir(next);
    let mut vfs = Vfs::new();
    vfs.push_layer(game, None, None);
    vfs.push_layer(m, Some(&comps("subdir/subsubdir")), None);
    let mut deep = names_of(&vfs, "subdir/subsubdir").unwrap();
    deep.sort();
    assert_eq!(deep, vec!["gamefile3.txt", "modfile1.txt", "subdir"]);
    assert_eq!(names_of(&vfs, "subdir/subsubdir/subdir").unwrap(), vec!["modfile2.txt"]);
    let mut sub = names_of(&vfs, "subdir").unwrap();
    sub.sort();
    assert_eq!(sub, vec!["gamefile2.txt", "subsubdir"]);
}

#[test]
fn opening_picks_the_topmost_layer_with_the_file() {
    let vfs = overlay();
    let (mapped, layer) = vfs.layer_that_opens_file(&comps("subdir/modfile2.txt")).unwrap();
    assert_eq!(mapped, comps("subdir/modfile2.txt"));
    assert_eq!(layer.fd(), 11);
    let (_, layer) = vfs.layer_that_opens_file(&comps("gamefile1.txt")).unwrap();
    assert_eq!(layer.fd(), 10);
    assert!(vfs.layer_that_opens_file(&comps("subdir")).is_none());
    assert!(vfs.layer_that_opens_file(&comps("nosuch")).is_none());
}

#[test]
fn mounted_layer_opens_with_the_path_below_its_mount() {
    let (game, next) = gamedir(2);
    let (m, _) = moddir(next);
    let mut vfs = Vfs::new();
    vfs.push_layer(game, None, None);
    vfs.push_layer(m, Some(&comps("mods")), None);
    let (mapped, layer) = vfs.layer_that_opens_file(&comps("mods/modfile1.txt")).unwrap();
    assert_eq!(mapped, comps("modfile1.txt"));
    assert_eq!(layer.fd(), 11);
}

#[test]
fn raw_layer_keeps_its_source() {
    let layer = RawFsLayer::new(b"/games/base".to_vec());
    assert_eq!(layer.source(), b"/games/base");
    assert_eq!(layer.host_path(&comps("a/b")), b"/games/base/a/b".to_vec());
    assert_eq!(layer.host_path(&vec![]), b"/games/base/".to_vec());
    let slashed = RawFsLayer::new(b"/games/base/".to_vec());
    assert_eq!(slashed.host_path(&comps("a")), b"/games/base/a".to_vec());
    let empty = RawFsLayer::new(Vec::new());
    assert_eq!(empty.host_path(&comps("a")), b"a".to_vec());
}

#[test]
fn raw_layer_entry_types() {
    assert_eq!(RawFsLayer::entry_type(true, false, false), Some(FileType::Dir));
    assert_eq!(RawFsLayer::entry_type(false, true, false), Some(FileType::File));
    assert_eq!(RawFsLayer::entry_type(false, false, true), Some(FileType::Symlink));
    assert_eq!(RawFsLayer::entry_type(false, false, false), None);
}

#[test]
fn raw_layer_attributes_from_metadata() {
    let md = RawMetadata {
        is_dir: false,
        is_file: true,
        is_symlink: false,
        size: 1234,
        blocks: 8,
        atime: 1,
        mtime: 2,
        ctime: 3,
        mode: 0o100644,
        nlink: 2,
        uid: 1000,
        gid: 1000,
        rdev: 0,
        blksize: 4096,
    };
    let a = RawFsLayer::attr_from_metadata(&md).unwrap();
    assert_eq!(a.ino, 0);
    assert_eq!(a.size, 1234);
    assert_eq!(a.kind, FileKind::RegularFile);
    assert_eq!(a.perm, 0o100644u32 as u16);
    assert_eq!((a.atime, a.mtime, a.ctime, a.crtime), (1, 2, 3, 0));
    let other = RawMetadata { is_file: false, ..md };
    assert_eq!(RawFsLayer::attr_from_metadata(&other), None);
    let dir = RawMetadata { is_dir: true, ..md };
    assert_eq!(RawFsLayer::attr_from_metadata(&dir).unwrap().kind, FileKind::Directory);
}
