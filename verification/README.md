# arbhx_local

A local-directory backend for the `arbhx_core` virtual file system.

* `src/` — the verified library (Verus):
  * `path.rs` — Unix path components, component-wise `starts_with`,
    forced joining of an item under the backend root, normalisation of
    reported paths, and the laws about them;
  * `vfs.rs` — the backend (`LocalVfs`): identity, root, real paths,
    metadata records, storage usage;
  * `query.rs` — listings (`LocalQuery`): which walked entries are yielded,
    the records yielded, the size of a listing;
  * `meta.rs` — metadata records; `text.rs` — string/character helpers.
* `app/` — the asynchronous I/O around it: `tokio` file handles, the
  `async_walkdir` walk, `sysinfo` disks, `filetime`, and the `arbhx_core`
  trait implementations.
* `tests/` — tests of the library on concrete values.
