use m3::attr::{attr_from_stat, FileAttr, Stat};
use m3::file_type::{stat_file_type, FileKind, S_IFBLK, S_IFCHR, S_IFDIR, S_IFIFO, S_IFLNK, S_IFMT, S_IFREG, S_IFSOCK};
use m3::mount_point::{is_dot_entry, stat_vfs_file_type, MountPoint, MountPointBuilder};
use m3::vfs::{FileType, Layer};

fn stat_with_mode(mode: u32) -> Stat {
    Stat {
        ino: 9999,
        mode,
        nlink: 1,
        uid: 1000,
        gid: 100,
        rdev: 0,
        size: 42,
        blksize: 4096,
        blocks: 8,
        atime: 10,
        mtime: 20,
        ctime: 30,
    }
}

fn dir_stat() -> Stat {
    stat_with_mode(0o040755)
}

fn file_stat() -> Stat {
    stat_with_mode(0o100644)
}

fn comps(path: &str) -> Vec<Vec<u8>> {
    path.split('/').filter(|c| !c.is_empty()).map(|c| c.as_bytes().to_vec()).collect()
}

fn key_of(path: &[Vec<u8>]) -> String {
    path.iter().map(|c| String::from_utf8(c.clone()).unwrap()).collect::<Vec<_>>().join("/")
}

fn build(fd: i32, tree: &[(&str, &[(&str, bool)])], first: u64) -> (MountPoint, u64) {
    let mut b = MountPointBuilder::new(fd, dir_stat(), first);
    while let Some((path, idx)) = b.next_dir() {
        let key = key_of(&path);
        let entries: &[(&str, bool)] = tree.iter().find(|(p, _)| *p == key).map(|(_, e)| *e).unwrap_or(&[]);
        let listing: Vec<(Vec<u8>, Stat)> = entries
            .iter()
            .map(|(n, d)| (n.as_bytes().to_vec(), if *d { dir_stat() } else { file_stat() }))
            .collect();
        b.add_listing(&path, idx, &listing);
    }
    b.finish()
}

fn game_tree() -> (MountPoint, u64) {
    build(
        7,
        &[
            ("", &[("gamefile1.txt", false), ("subdir", true)]),
            ("subdir", &[("gamefile2.txt", false), ("subsubdir", true)]),
            ("subdir/subsubdir", &[("gamefile3.txt", false)]),
        ],
        2,
    )
}

#[test]
fn builder_numbers_every_object_from_the_first_inode() {
    let (mp, next) = game_tree();
    assert_eq!(next, 2 + 5);
    let mut inos: Vec<u64> = ["gamefile1.txt", "subdir", "subdir/gamefile2.txt", "subdir/subsubdir", "subdir/subsubdir/gamefile3.txt"]
        .iter()
        .map(|p| mp.file_attr(&comps(p)).unwrap().ino)
        .collect();
    inos.sort();
    assert_eq!(inos, vec![2, 3, 4, 5, 6]);
    assert_eq!(mp.fd(), 7);
}

#[test]
fn root_keeps_its_host_stat() {
    let (mp, _) = game_tree();
    let attr = mp.file_attr(&vec![]).unwrap();
    assert_eq!(attr.ino, 9999);
    assert_eq!(attr.kind, FileKind::Directory);
}

#[test]
fn find_walks_down_the_tree() {
    let (mp, _) = game_tree();
    assert_eq!(mp.find_entry_idx_for_path(&vec![]), Some(0));
    assert!(mp.find_entry_idx_for_path(&comps("subdir/subsubdir/gamefile3.txt")).is_some());
    assert_eq!(mp.find_entry_idx_for_path(&comps("nosuch")), None);
    assert_eq!(mp.find_entry_idx_for_path(&comps("gamefile1.txt/inner")), None);
}

#[test]
fn dir_and_file_exist_exclusively() {
    let (mp, _) = game_tree();
    assert!(mp.dir_exists(&comps("subdir")));
    assert!(!mp.file_exists(&comps("subdir")));
    assert!(mp.file_exists(&comps("subdir/gamefile2.txt")));
    assert!(!mp.dir_exists(&comps("subdir/gamefile2.txt")));
    assert!(!mp.dir_exists(&comps("missing")));
    assert!(!mp.file_exists(&comps("missing")));
}

#[test]
fn read_dir_lists_children_in_order() {
    let (mp, _) = game_tree();
    let entries = mp.read_dir(&comps("subdir"));
    let got: Vec<(String, FileType)> = entries.iter().map(|e| (String::from_utf8(e.name.clone()).unwrap(), e.typ)).collect();
    assert_eq!(got, vec![("gamefile2.txt".to_string(), FileType::File), ("subsubdir".to_string(), FileType::Dir)]);
    assert!(mp.read_dir(&comps("subdir/gamefile2.txt")).is_empty());
    assert!(mp.read_dir(&comps("missing")).is_empty());
}

#[test]
fn read_dir_leaves_out_unlistable_kinds() {
    let mut b = MountPointBuilder::new(3, dir_stat(), 2);
    let (path, idx) = b.next_dir().unwrap();
    let listing = vec![
        (b"sock".to_vec(), stat_with_mode(0o140755)),
        (b"link".to_vec(), stat_with_mode(0o120777)),
        (b"file".to_vec(), file_stat()),
    ];
    b.add_listing(&path, idx, &listing);
    assert!(b.next_dir().is_none());
    let (mp, next) = b.finish();
    assert_eq!(next, 5);
    let got: Vec<(Vec<u8>, FileType)> = mp.read_dir(&vec![]).into_iter().map(|e| (e.name, e.typ)).collect();
    assert_eq!(got, vec![(b"link".to_vec(), FileType::Symlink), (b"file".to_vec(), FileType::File)]);
    assert_eq!(mp.file_attr(&comps("sock")).unwrap().kind, FileKind::Socket);
}

#[test]
fn duplicate_names_resolve_to_the_first() {
    let mut b = MountPointBuilder::new(3, dir_stat(), 10);
    let (path, idx) = b.next_dir().unwrap();
    let listing = vec![(b"x".to_vec(), file_stat()), (b"x".to_vec(), stat_with_mode(0o120777))];
    b.add_listing(&path, idx, &listing);
    let (mp, _) = b.finish();
    let attr = mp.file_attr(&comps("x")).unwrap();
    assert_eq!(attr.ino, 10);
    assert_eq!(attr.kind, FileKind::RegularFile);
}

#[test]
fn directories_are_read_depth_first_last_pushed_first() {
    let mut b = MountPointBuilder::new(3, dir_stat(), 2);
    let (root, idx) = b.next_dir().unwrap();
    assert!(root.is_empty());
    assert_eq!(idx, 0);
    b.add_listing(&root, idx, &vec![(b"a".to_vec(), dir_stat()), (b"b".to_vec(), dir_stat())]);
    let (next, next_idx) = b.next_dir().unwrap();
    assert_eq!(next, comps("b"));
    assert_eq!(next_idx, 2);
    b.add_listing(&next, next_idx, &vec![(b"c".to_vec(), file_stat())]);
    let (after, after_idx) = b.next_dir().unwrap();
    assert_eq!(after, comps("a"));
    assert_eq!(after_idx, 1);
}

#[test]
fn stat_file_type_decodes_every_kind() {
    assert_eq!(stat_file_type(0o060660), Some(FileKind::BlockDevice));
    assert_eq!(stat_file_type(0o020620), Some(FileKind::CharDevice));
    assert_eq!(stat_file_type(0o040755), Some(FileKind::Directory));
    assert_eq!(stat_file_type(0o010644), Some(FileKind::NamedPipe));
    assert_eq!(stat_file_type(0o120777), Some(FileKind::Symlink));
    assert_eq!(stat_file_type(0o100644), Some(FileKind::RegularFile));
    assert_eq!(stat_file_type(0o140755), Some(FileKind::Socket));
    assert_eq!(stat_file_type(0o000644), None);
    assert_eq!(stat_file_type(0o170000), None);
}

#[test]
fn stat_vfs_file_type_knows_three_kinds() {
    assert_eq!(stat_vfs_file_type(&stat_with_mode(0o040700)), Some(FileType::Dir));
    assert_eq!(stat_vfs_file_type(&stat_with_mode(0o120777)), Some(FileType::Symlink));
    assert_eq!(stat_vfs_file_type(&stat_with_mode(0o100600)), Some(FileType::File));
    assert_eq!(stat_vfs_file_type(&stat_with_mode(0o010644)), None);
    assert_eq!(stat_vfs_file_type(&stat_with_mode(0o060660)), None);
}

#[test]
fn attr_from_stat_converts_each_field() {
    let s = Stat {
        ino: 77,
        mode: 0o100640,
        nlink: (1u64 << 32) + 3,
        uid: 5,
        gid: 6,
        rdev: (1u64 << 32) + 9,
        size: -1,
        blksize: 512,
        blocks: 4,
        atime: 100,
        mtime: 200,
        ctime: -5,
    };
    let a = attr_from_stat(&s);
    let expected = FileAttr {
        ino: 77,
        size: u64::MAX,
        blocks: 4,
        atime: 100,
        mtime: 200,
        ctime: (-5i64) as u64,
        crtime: 0,
        kind: FileKind::RegularFile,
        perm: 0o100640u32 as u16,
        nlink: 3,
        uid: 5,
        gid: 6,
        rdev: 9,
        blksize: 512,
        flags: 0,
    };
    assert_eq!(a, expected);
}

#[test]
fn dot_entries_are_recognised() {
    assert!(is_dot_entry(&b".".to_vec()));
    assert!(is_dot_entry(&b"..".to_vec()));
    assert!(!is_dot_entry(&b"...".to_vec()));
    assert!(!is_dot_entry(&b".a".to_vec()));
    assert!(!is_dot_entry(&b"".to_vec()));
}

#[test]
fn mode_constants_are_the_linux_ones() {
    assert_eq!(S_IFMT, libc::S_IFMT);
    assert_eq!(S_IFBLK, libc::S_IFBLK);
    assert_eq!(S_IFCHR, libc::S_IFCHR);
    assert_eq!(S_IFDIR, libc::S_IFDIR);
    assert_eq!(S_IFIFO, libc::S_IFIFO);
    assert_eq!(S_IFLNK, libc::S_IFLNK);
    assert_eq!(S_IFREG, libc::S_IFREG);
    assert_eq!(S_IFSOCK, libc::S_IFSOCK);
}
