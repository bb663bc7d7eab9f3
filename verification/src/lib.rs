//! A layered ("overlay") virtual file system for mounting game modifications on top
//! of a clean game directory, with its inode bookkeeping verified.

pub mod attr;
pub mod file_type;
pub mod path;
pub mod vfs;
pub mod mount_point;
pub mod handles;
pub mod path_table;
pub mod fs;
pub mod config;
