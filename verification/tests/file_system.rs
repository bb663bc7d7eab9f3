use m3::attr::Stat;
use m3::file_type::FileKind;
use m3::fs::{entry_next_offset, FsError, ModdingFileSystem, ROOT_INODE};
use m3::mount_point::{MountPoint, MountPointBuilder};
use m3::vfs::FileType;

fn stat_with_mode(mode: u32) -> Stat {
    Stat { ino: 500, mode, nlink: 1, uid: 0, gid: 0, rdev: 0, size: 3, blksize: 4096, blocks: 1, atime: 0, mtime: 0, ctime: 0 }
}

fn comps(path: &str) -> Vec<Vec<u8>> {
    path.split('/').filter(|c| !c.is_empty()).map(|c| c.as_bytes().to_vec()).collect()
}

fn gamedir() -> (MountPoint, u64) {
    let tree: &[(&str, &[(&str, bool)])] = &[
        ("", &[("gamefile1.txt", false), ("subdir", true)]),
        ("subdir", &[("gamefile2.txt", false), ("subsubdir", true)]),
        ("subdir/subsubdir", &[("gamefile3.txt", false)]),
    ];
    let mut b = MountPointBuilder::new(33, stat_with_mode(0o040755), 2);
    while let Some((path, idx)) = b.next_dir() {
        let key = path.iter().map(|c| String::from_utf8(c.clone()).unwrap()).collect::<Vec<_>>().join("/");
        let entries: &[(&str, bool)] = tree.iter().find(|(p, _)| *p == key).map(|(_, e)| *e).unwrap_or(&[]);
        let listing: Vec<(Vec<u8>, Stat)> = entries
            .iter()
            .map(|(n, d)| (n.as_bytes().to_vec(), stat_with_mode(if *d { 0o040755 } else { 0o100644 })))
            .collect();
        b.add_listing(&path, idx, &listing);
    }
    b.finish()
}

fn fresh() -> ModdingFileSystem {
    let (mp, next) = gamedir();
    ModdingFileSystem::new(mp, next)
}

#[test]
fn new_file_system_knows_only_the_root() {
    let fs = fresh();
    assert_eq!(fs.path_of(ROOT_INODE), Some(vec![]));
    assert_eq!(fs.path_of(2), None);
    assert_eq!(fs.inode_of_path(&vec![]), Some(ROOT_INODE));
    assert_eq!(fs.next_inode(), 7);
    assert_eq!(fs.getattr(ROOT_INODE).unwrap().kind, FileKind::Directory);
    assert_eq!(fs.getattr(99), None);
}

#[test]
fn lookup_answers_with_the_attributes_and_remembers_the_inode() {
    let mut fs = fresh();
    let attr = fs.lookup(ROOT_INODE, &b"subdir".to_vec()).unwrap();
    assert_eq!(attr.kind, FileKind::Directory);
    assert_eq!(attr.ino, 3);
    assert_eq!(fs.path_of(3), Some(comps("subdir")));
    let inner = fs.lookup(3, &b"gamefile2.txt".to_vec()).unwrap();
    assert_eq!(inner.kind, FileKind::RegularFile);
    assert_eq!(fs.path_of(inner.ino), Some(comps("subdir/gamefile2.txt")));
}

#[test]
fn lookup_of_missing_names_is_not_found() {
    let mut fs = fresh();
    assert_eq!(fs.lookup(ROOT_INODE, &b"nosuch".to_vec()), Err(FsError::NotFound));
    assert_eq!(fs.lookup(12345, &b"subdir".to_vec()), Err(FsError::NotFound));
    let file = fs.lookup(ROOT_INODE, &b"gamefile1.txt".to_vec()).unwrap();
    assert_eq!(fs.lookup(file.ino, &b"x".to_vec()), Err(FsError::NotFound));
    assert_eq!(fs.path_of(12345), None);
}

#[test]
fn readdir_lists_after_the_offset() {
    let fs = fresh();
    let (path, all) = fs.readdir(ROOT_INODE, 0).unwrap().unwrap();
    assert!(path.is_empty());
    let names: Vec<Vec<u8>> = all.iter().map(|e| e.name.clone()).collect();
    assert_eq!(names, vec![b"subdir".to_vec(), b"gamefile1.txt".to_vec()]);
    assert_eq!(all[0].typ, FileType::Dir);
    let (_, rest) = fs.readdir(ROOT_INODE, 1).unwrap().unwrap();
    assert_eq!(rest.len(), 1);
    assert_eq!(rest[0].name, b"gamefile1.txt".to_vec());
    let (_, none) = fs.readdir(ROOT_INODE, 5).unwrap().unwrap();
    assert!(none.is_empty());
    let (_, negative) = fs.readdir(ROOT_INODE, -1).unwrap().unwrap();
    assert!(negative.is_empty());
    assert_eq!(fs.readdir(77, 0).unwrap_err(), FsError::NotFound);
}

#[test]
fn readdir_of_a_file_has_no_answer() {
    let mut fs = fresh();
    let file = fs.lookup(ROOT_INODE, &b"gamefile1.txt".to_vec()).unwrap();
    assert_eq!(fs.readdir(file.ino, 0).unwrap().map(|(p, _)| p), None);
}

#[test]
fn entry_inodes_are_handed_out_once_per_path() {
    let mut fs = fresh();
    let a = fs.entry_inode(&vec![], &b"subdir".to_vec());
    assert_eq!(a, 7);
    let b = fs.entry_inode(&vec![], &b"gamefile1.txt".to_vec());
    assert_eq!(b, 8);
    assert_eq!(fs.entry_inode(&vec![], &b"subdir".to_vec()), 7);
    assert_eq!(fs.next_inode(), 9);
    assert_eq!(fs.path_of(7), Some(comps("subdir")));
    assert_eq!(fs.inode_of_path(&comps("subdir")), Some(7));
    let c = fs.entry_inode(&comps("subdir"), &b"gamefile2.txt".to_vec());
    assert_eq!(c, 9);
    assert_eq!(fs.path_of(9), Some(comps("subdir/gamefile2.txt")));
    let (_, inner) = fs.readdir(7, 0).unwrap().unwrap();
    assert_eq!(inner.len(), 2);
}

#[test]
fn open_target_is_the_mount_and_the_relative_path() {
    let mut fs = fresh();
    let file = fs.lookup(ROOT_INODE, &b"subdir".to_vec()).unwrap();
    let inner = fs.lookup(file.ino, &b"gamefile2.txt".to_vec()).unwrap();
    let (fd, c_path) = fs.open_target(inner.ino).unwrap();
    assert_eq!(fd, 33);
    assert_eq!(c_path, b"subdir/gamefile2.txt\0".to_vec());
    assert_eq!(fs.open_target(file.ino), Err(FsError::NotFound));
}

#[test]
fn handles_read_back_until_released() {
    let mut fs = fresh();
    let h1 = fs.register_open(4);
    let h2 = fs.register_open(6);
    assert_ne!(h1, h2);
    assert_eq!(fs.handle_inode(h1), Some(4));
    assert_eq!(fs.handle_inode(h2), Some(6));
    assert!(fs.is_open(h1));
    fs.release(h1);
    assert_eq!(fs.handle_inode(h1), None);
    assert!(!fs.is_open(h1));
    assert_eq!(fs.handle_inode(h2), Some(6));
    let h3 = fs.register_open(5);
    assert_eq!(h3, h1);
    assert_eq!(fs.handle_inode(h3), Some(5));
    assert_eq!(fs.handle_inode(1000), None);
}

#[test]
fn every_listed_name_can_be_looked_up() {
    let mut fs = fresh();
    for dir_ino in [ROOT_INODE] {
        let (_, entries) = fs.readdir(dir_ino, 0).unwrap().unwrap();
        for e in entries {
            assert!(fs.lookup(dir_ino, &e.name).is_ok());
        }
    }
    let sub = fs.lookup(ROOT_INODE, &b"subdir".to_vec()).unwrap().ino;
    let (_, entries) = fs.readdir(sub, 0).unwrap().unwrap();
    for e in entries {
        assert!(fs.lookup(sub, &e.name).is_ok());
    }
}

#[test]
fn getattr_after_lookup_answers_the_same() {
    let mut fs = fresh();
    let a = fs.lookup(ROOT_INODE, &b"gamefile1.txt".to_vec()).unwrap();
    assert_eq!(fs.getattr(a.ino), Some(a));
    let s = fs.lookup(ROOT_INODE, &b"subdir".to_vec()).unwrap();
    assert_eq!(fs.getattr(s.ino), Some(s));
}

#[test]
fn root_stays_the_root() {
    let mut fs = fresh();
    fs.entry_inode(&vec![], &b"subdir".to_vec());
    fs.lookup(ROOT_INODE, &b"subdir".to_vec()).unwrap();
    assert_eq!(fs.path_of(ROOT_INODE), Some(vec![]));
    assert_eq!(fs.inode_of_path(&vec![]), Some(ROOT_INODE));
}

#[test]
fn next_offsets_continue_from_the_offset() {
    assert_eq!(entry_next_offset(0, 0), 1);
    assert_eq!(entry_next_offset(0, 2), 3);
    assert_eq!(entry_next_offset(5, 0), 6);
    assert_eq!(entry_next_offset(5, 3), 9);
}

#[test]
fn a_whole_listing_gets_consecutive_new_inodes() {
    let mut fs = fresh();
    let n = fs.next_inode();
    let known = fs.entry_inode(&vec![], &b"gamefile1.txt".to_vec());
    assert_eq!(known, n);
    let (path, entries) = fs.readdir(ROOT_INODE, 0).unwrap().unwrap();
    let inos: Vec<u64> = entries.iter().map(|e| fs.entry_inode(&path, &e.name)).collect();
    // "subdir" comes first and is new; "gamefile1.txt" keeps its inode.
    assert_eq!(inos, vec![n + 1, n]);
    assert_eq!(fs.next_inode(), n + 2);
    assert_eq!(fs.path_of(n + 1), Some(comps("subdir")));
    assert_eq!(fs.path_of(n), Some(comps("gamefile1.txt")));
}
