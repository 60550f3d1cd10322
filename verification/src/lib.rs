//! A local-filesystem virtual file system backend: the path logic, metadata
//! records, listing decisions and usage computation behind it.
//!
//! Paths are handled as text and follow Unix path rules on every platform:
//! `/` is the only separator, a leading `/` is the root, and there are no
//! drive prefixes. On Windows, a backslash or a drive prefix such as `C:` in
//! an item is therefore kept as part of a component rather than treated as a
//! separator or skipped; only the normalisation of reported paths
//! (`path::fix_path`) turns backslashes into slashes and drops a drive part.
pub mod text;
pub mod path;
pub mod meta;
pub mod query;
pub mod vfs;
