# m3

A small Linux "mod manager": a FUSE file system mounted over a game's directory that
shows the game's own files together with files from mod directories, while the game
install on disk stays untouched.

- `src/` is the library, verified with Verus: mode-word decoding (`file_type`),
  attribute records (`attr`), component paths (`path`), the in-memory copy of a
  mounted host tree and its depth-first reader (`mount_point`), the layered virtual
  file system (`vfs`), the inode and handle tables the kernel sees (`fs`,
  `path_table`, `handles`), and the KDL configuration (`config`).
- `app/main.rs` is the program: command line, configuration file, logging, host
  directory reads through `libc`, and the FUSE protocol through `fuser`.
- `tests/` exercises the library on concrete trees and configuration texts.
