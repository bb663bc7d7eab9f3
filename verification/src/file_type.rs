//! Kinds of file system objects and their decoding from a `st_mode` word.

use vstd::prelude::*;

verus! {

/// The mask of the file-type bits of a `st_mode` word (`S_IFMT` on Linux).
pub const S_IFMT: u32 = 0o170000;

/// The file-type bits of a block device (`S_IFBLK` on Linux).
pub const S_IFBLK: u32 = 0o060000;

/// The file-type bits of a character device (`S_IFCHR` on Linux).
pub const S_IFCHR: u32 = 0o020000;

/// The file-type bits of a directory (`S_IFDIR` on Linux).
pub const S_IFDIR: u32 = 0o040000;

/// The file-type bits of a named pipe (`S_IFIFO` on Linux).
pub const S_IFIFO: u32 = 0o010000;

/// The file-type bits of a symbolic link (`S_IFLNK` on Linux).
pub const S_IFLNK: u32 = 0o120000;

/// The file-type bits of a regular file (`S_IFREG` on Linux).
pub const S_IFREG: u32 = 0o100000;

/// The file-type bits of a socket (`S_IFSOCK` on Linux).
pub const S_IFSOCK: u32 = 0o140000;

/// The kinds of object that the kernel side of the file system understands.
#[derive(Clone, Copy, Debug, PartialEq, Eq, Structural)]
pub enum FileKind {
    NamedPipe,
    CharDevice,
    BlockDevice,
    Directory,
    RegularFile,
    Symlink,
    Socket,
}

/// The file-type bits of a mode word.
pub open spec fn mode_type_bits(mode: u32) -> u32 {
    mode & S_IFMT
}

/// What kind of object a mode word describes, if it is one of the seven known kinds.
pub open spec fn spec_stat_file_type(mode: u32) -> Option<FileKind> {
    let t = mode_type_bits(mode);
    if t == S_IFBLK {
        Some(FileKind::BlockDevice)
    } else if t == S_IFCHR {
        Some(FileKind::CharDevice)
    } else if t == S_IFDIR {
        Some(FileKind::Directory)
    } else if t == S_IFIFO {
        Some(FileKind::NamedPipe)
    } else if t == S_IFLNK {
        Some(FileKind::Symlink)
    } else if t == S_IFREG {
        Some(FileKind::RegularFile)
    } else if t == S_IFSOCK {
        Some(FileKind::Socket)
    } else {
        None
    }
}

/// Decodes the kind of object from the `st_mode` word of a `stat` record.
pub fn stat_file_type(mode: u32) -> (r: Option<FileKind>)
    ensures
        r == spec_stat_file_type(mode),
{
    let t = mode & S_IFMT;
    if t == S_IFBLK {
        Some(FileKind::BlockDevice)
    } else if t == S_IFCHR {
        Some(FileKind::CharDevice)
    } else if t == S_IFDIR {
        Some(FileKind::Directory)
    } else if t == S_IFIFO {
        Some(FileKind::NamedPipe)
    } else if t == S_IFLNK {
        Some(FileKind::Symlink)
    } else if t == S_IFREG {
        Some(FileKind::RegularFile)
    } else if t == S_IFSOCK {
        Some(FileKind::Socket)
    } else {
        None
    }
}

} // verus!
