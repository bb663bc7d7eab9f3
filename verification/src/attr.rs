//! The attributes of a file: the raw `stat` record of the host and the attribute
//! record that the file system hands to the kernel.

use vstd::prelude::*;
use crate::file_type::{
    FileKind, S_IFBLK, S_IFCHR, S_IFDIR, S_IFIFO, S_IFLNK, S_IFMT, S_IFREG, S_IFSOCK,
    spec_stat_file_type, stat_file_type,
};

verus! {

/// The fields of a host `stat` record that the file system reads.
#[derive(Clone, Copy, Debug, PartialEq, Eq, Structural)]
pub struct Stat {
    pub ino: u64,
    pub mode: u32,
    pub nlink: u64,
    pub uid: u32,
    pub gid: u32,
    pub rdev: u64,
    pub size: i64,
    pub blksize: i64,
    pub blocks: i64,
    pub atime: i64,
    pub mtime: i64,
    pub ctime: i64,
}

/// The attributes of a file as the kernel receives them; times are whole seconds
/// after the Unix epoch.
#[derive(Clone, Copy, Debug, PartialEq, Eq, Structural)]
pub struct FileAttr {
    pub ino: u64,
    pub size: u64,
    pub blocks: u64,
    pub atime: u64,
    pub mtime: u64,
    pub ctime: u64,
    pub crtime: u64,
    pub kind: FileKind,
    pub perm: u16,
    pub nlink: u32,
    pub uid: u32,
    pub gid: u32,
    pub rdev: u32,
    pub blksize: u32,
    pub flags: u32,
}

/// The mode word of `s` names one of the known kinds of object.
pub open spec fn supported_stat(s: Stat) -> bool {
    spec_stat_file_type(s.mode) is Some
}

/// The attributes that a `stat` record of a supported kind of object describes;
/// numbers are converted as `as` converts them, and the creation time is the epoch.
pub open spec fn spec_attr_from_stat(s: Stat) -> FileAttr {
    FileAttr {
        ino: s.ino,
        size: s.size as u64,
        blocks: s.blocks as u64,
        atime: s.atime as u64,
        mtime: s.mtime as u64,
        ctime: s.ctime as u64,
        crtime: 0,
        kind: spec_stat_file_type(s.mode).unwrap(),
        perm: s.mode as u16,
        nlink: s.nlink as u32,
        uid: s.uid,
        gid: s.gid,
        rdev: s.rdev as u32,
        blksize: s.blksize as u32,
        flags: 0,
    }
}

/// The attribute record of an object from its `stat` record.
pub fn attr_from_stat(s: &Stat) -> (r: FileAttr)
    requires
        supported_stat(*s),
    ensures
        r == spec_attr_from_stat(*s),
        r.kind == spec_stat_file_type(s.mode).unwrap(),
        r.ino == s.ino,
        r.perm == s.mode as u16,
{
    let kind = match stat_file_type(s.mode) {
        Some(k) => k,
        None => FileKind::RegularFile,
    };
    FileAttr {
        ino: s.ino,
        size: s.size as u64,
        blocks: s.blocks as u64,
        atime: s.atime as u64,
        mtime: s.mtime as u64,
        ctime: s.ctime as u64,
        crtime: 0,
        kind,
        perm: s.mode as u16,
        nlink: s.nlink as u32,
        uid: s.uid,
        gid: s.gid,
        rdev: s.rdev as u32,
        blksize: s.blksize as u32,
        flags: 0,
    }
}

/// The kind in the attributes of an object is the kind that the type bits of its
/// mode word name (a symbolic link stays a symbolic link), and every other field is
/// the record's own, converted as `as` converts it; the creation time is the epoch.
pub proof fn lemma_attr_kind_from_mode(s: Stat)
    requires
        supported_stat(s),
    ensures
        spec_attr_from_stat(s).kind == spec_stat_file_type(s.mode).unwrap(),
        (s.mode & S_IFMT) == S_IFDIR ==> spec_attr_from_stat(s).kind == FileKind::Directory,
        (s.mode & S_IFMT) == S_IFREG ==> spec_attr_from_stat(s).kind == FileKind::RegularFile,
        (s.mode & S_IFMT) == S_IFLNK ==> spec_attr_from_stat(s).kind == FileKind::Symlink,
        (s.mode & S_IFMT) == S_IFBLK ==> spec_attr_from_stat(s).kind == FileKind::BlockDevice,
        (s.mode & S_IFMT) == S_IFCHR ==> spec_attr_from_stat(s).kind == FileKind::CharDevice,
        (s.mode & S_IFMT) == S_IFIFO ==> spec_attr_from_stat(s).kind == FileKind::NamedPipe,
        (s.mode & S_IFMT) == S_IFSOCK ==> spec_attr_from_stat(s).kind == FileKind::Socket,
        spec_attr_from_stat(s).ino == s.ino,
        spec_attr_from_stat(s).uid == s.uid,
        spec_attr_from_stat(s).gid == s.gid,
        spec_attr_from_stat(s).perm == s.mode as u16,
        spec_attr_from_stat(s).size == s.size as u64,
        spec_attr_from_stat(s).blocks == s.blocks as u64,
        spec_attr_from_stat(s).atime == s.atime as u64,
        spec_attr_from_stat(s).mtime == s.mtime as u64,
        spec_attr_from_stat(s).ctime == s.ctime as u64,
        spec_attr_from_stat(s).crtime == 0,
        spec_attr_from_stat(s).nlink == s.nlink as u32,
        spec_attr_from_stat(s).rdev == s.rdev as u32,
        spec_attr_from_stat(s).blksize == s.blksize as u32,
        spec_attr_from_stat(s).flags == 0,
{
}

} // verus!
