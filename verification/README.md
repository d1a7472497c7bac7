# erofs_rs

A verified reader for [EROFS](https://docs.kernel.org/filesystems/erofs.html)
(Enhanced Read-Only File System) images, written in Verus.

- `src/` is the library. Every function has a contract over the bytes of an image,
  and the laws that relate them are proof functions beside them.
  - `types`, `le`, `names`, `text`, `path`: what is stored, and how it reads.
  - `filesystem`: where inodes and blocks lie.
  - `dirent`, `lookup`, `cursor`, `walk`, `reader`: searching, listing and walking
    directories and reading files, as steps that say which bytes they need next.
  - `backend`, `sync`: the same on an image in memory.
  - `xattr`, `scan`: extended attributes.
  - `inspect`: what a command line tool decides.
- `tests/` runs the library on small images.
- `app/` is a command line tool. It reads local files and remote images, and drives
  the steps of the library with the bytes that it reads.
