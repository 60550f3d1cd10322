//! Directory listings: which walked entries a listing yields, the records it
//! yields for them, and the total size of a listing.
use vstd::prelude::*;
use crate::meta::{EntryInfo, FileStat};
use crate::path::{components, components_of, fix_path, parts_prefix, path_starts_with, path_starts_with_exec, spec_fix_path, views};
use crate::text::chars_of;

verus! {

/// What a directory walk does with one entry.
#[derive(PartialEq, Eq, Structural, Debug, Clone, Copy)]
pub enum Filtering {
    /// Skip the entry.
    Ignore,
    /// Skip the entry and, for a directory, everything below it.
    IgnoreDir,
    /// Yield the entry.
    Continue,
}

/// A listing of the directory `path` of a backend rooted at `abs`.
pub struct LocalQuery {
    pub abs: String,
    pub path: String,
    pub recursive: bool,
    pub root: bool,
}

/// The decision for the entry at `entry`: `is_dir` is `None` when its
/// metadata could not be read, and `passes` is the verdict of the listing's
/// filter on the entry's record.
pub open spec fn spec_sort_entry(
    q: LocalQuery,
    entry: Seq<char>,
    is_dir: Option<bool>,
    passes: bool,
) -> Filtering {
    match is_dir {
        None => Filtering::Ignore,
        Some(dir) => {
            if !q.root && components(entry) == components(q.path@) {
                Filtering::Ignore
            } else if !q.recursive && path_starts_with(entry, q.path@) && components(entry).len()
                > components(q.path@).len() + 1 {
                if dir {
                    Filtering::IgnoreDir
                } else {
                    Filtering::Ignore
                }
            } else if passes {
                Filtering::Continue
            } else {
                Filtering::Ignore
            }
        },
    }
}

/// The size one listed item adds: its length for a file, nothing for a
/// directory or an item that failed.
pub open spec fn item_size(item: Option<(bool, u64)>) -> int {
    match item {
        Some((false, len)) => len as int,
        _ => 0,
    }
}

/// The total size of a listing.
pub open spec fn listing_size(items: Seq<Option<(bool, u64)>>) -> int
    decreases items.len(),
{
    if items.len() == 0 {
        0
    } else {
        listing_size(items.drop_last()) + item_size(items.last())
    }
}

/// Whether two component lists are equal, component by component.
fn same_parts(a: &Vec<Vec<char>>, b: &Vec<Vec<char>>) -> (r: bool)
    ensures
        r == (views(a@) == views(b@)),
{
    if a.len() != b.len() {
        assert(views(a@).len() != views(b@).len());
        return false;
    }
    let r = parts_prefix(a, b);
    if r {
        assert(views(a@) =~= views(b@));
    }
    r
}

impl LocalQuery {
    /// A listing of `path`, reported relative to `abs`.
    pub fn new(abs: &str, path: &str, recursive: bool, root: bool) -> (q: Self)
        ensures
            q.abs@ == abs@,
            q.path@ == path@,
            q.recursive == recursive,
            q.root == root,
    {
        LocalQuery { abs: abs.to_owned(), path: path.to_owned(), recursive, root }
    }

    /// What the walk does with the entry at `entry_path`: entries whose
    /// metadata failed are skipped, the listed directory itself is skipped
    /// unless the listing includes it, a non-recursive listing skips
    /// everything deeper than the immediate children (and does not descend
    /// into such directories), and the rest is yielded when it passes the
    /// filter.
    pub fn sort_entry(&self, entry_path: &str, is_dir: Option<bool>, passes: bool) -> (f: Filtering)
        ensures
            f == spec_sort_entry(*self, entry_path@, is_dir, passes),
    {
        match is_dir {
            None => Filtering::Ignore,
            Some(dir) => {
                let ec = chars_of(entry_path);
                let qc = chars_of(self.path.as_str());
                let ce = components_of(&ec);
                let cq = components_of(&qc);
                if !self.root && same_parts(&ce, &cq) {
                    return Filtering::Ignore;
                }
                if !self.recursive {
                    let under = path_starts_with_exec(&ec, &qc);
                    if under && ce.len() - cq.len() > 1 {
                        return if dir {
                            Filtering::IgnoreDir
                        } else {
                            Filtering::Ignore
                        };
                    }
                }
                if passes {
                    Filtering::Continue
                } else {
                    Filtering::Ignore
                }
            },
        }
    }

    /// The record the listing's filter judges for the entry at `entry_path`:
    /// the path as walked, and the entry's reported attributes.
    pub fn filter_record(entry_path: &str, stat: &FileStat) -> (e: EntryInfo)
        ensures
            e.path@ == entry_path@,
            e.is_dir == stat.is_dir,
            e.mtime == stat.modified,
            e.atime == stat.accessed,
            e.ctime == stat.created,
            e.size == stat.len,
    {
        EntryInfo {
            path: entry_path.to_owned(),
            is_dir: stat.is_dir,
            ctime: stat.created,
            mtime: stat.modified,
            atime: stat.accessed,
            size: stat.len,
        }
    }

    /// The record the listing yields for the entry at `entry_path`: the path
    /// normalised against the backend root, and the entry's attributes.
    pub fn map_entry(&self, entry_path: &str, stat: &FileStat) -> (e: EntryInfo)
        ensures
            e.path@ == spec_fix_path(entry_path@, self.abs@),
            e.is_dir == stat.is_dir,
            e.mtime == stat.modified,
            e.atime == stat.accessed,
            e.ctime == stat.created,
            e.size == stat.len,
    {
        EntryInfo {
            path: fix_path(entry_path, self.abs.as_str()),
            is_dir: stat.is_dir,
            ctime: stat.created,
            mtime: stat.modified,
            atime: stat.accessed,
            size: stat.len,
        }
    }
}

/// Whether the filter's verdict matters for the entry at `entry`: the
/// decision differs between a passing and a failing verdict.
pub open spec fn spec_filter_decides(q: LocalQuery, entry: Seq<char>, is_dir: Option<bool>) -> bool {
    spec_sort_entry(q, entry, is_dir, true) != spec_sort_entry(q, entry, is_dir, false)
}

/// Whether a record passes a listing's size limit: files larger than `limit`
/// are excluded; directories, and every entry of a listing without a limit,
/// pass.
pub open spec fn spec_within_size_limit(limit: Option<u64>, is_dir: bool, size: u64) -> bool {
    match limit {
        Some(l) => is_dir || size <= l,
        None => true,
    }
}

impl LocalQuery {
    /// Whether the listing's filter has to be consulted for the entry at
    /// `entry_path`.
    pub fn filter_decides(&self, entry_path: &str, is_dir: Option<bool>) -> (r: bool)
        ensures
            r == spec_filter_decides(*self, entry_path@, is_dir),
    {
        let yes = self.sort_entry(entry_path, is_dir, true);
        let no = self.sort_entry(entry_path, is_dir, false);
        yes != no
    }
}

/// Whether `entry` passes the size limit `limit` of a listing's filter.
pub fn within_size_limit(limit: Option<u64>, entry: &EntryInfo) -> (r: bool)
    ensures
        r == spec_within_size_limit(limit, entry.is_dir, entry.size),
{
    match limit {
        Some(l) => entry.is_dir || entry.size <= l,
        None => true,
    }
}

/// Adds one listed item to a running total: `item` is `None` for an item
/// that failed, or whether it is a directory and its length.
pub fn size_step(total: u64, item: Option<(bool, u64)>) -> (r: u64)
    requires
        total + item_size(item) <= u64::MAX,
    ensures
        r == total + item_size(item),
{
    match item {
        Some((false, len)) => total + len,
        _ => total,
    }
}

/// Law: the size of a listing is the sum of the sizes of its parts.
pub proof fn law_listing_size_additive(a: Seq<Option<(bool, u64)>>, b: Seq<Option<(bool, u64)>>)
    ensures
        listing_size(a + b) == listing_size(a) + listing_size(b),
    decreases b.len(),
{
    if b.len() == 0 {
        assert(a + b =~= a);
    } else {
        law_listing_size_additive(a, b.drop_last());
        assert((a + b).drop_last() =~= a + b.drop_last());
        assert((a + b).last() == b.last());
    }
}

/// Law: a listing that does not include its root never yields the listed
/// directory itself.
pub proof fn law_root_excluded(q: LocalQuery, entry: Seq<char>, is_dir: Option<bool>, passes: bool)
    requires
        !q.root,
        components(entry) == components(q.path@),
    ensures
        spec_sort_entry(q, entry, is_dir, passes) == Filtering::Ignore,
{
}

/// Law: a non-recursive listing yields nothing below the immediate children
/// of the listed directory, and does not descend into deeper directories.
pub proof fn law_non_recursive_depth(q: LocalQuery, entry: Seq<char>, dir: bool, passes: bool)
    requires
        !q.recursive,
        path_starts_with(entry, q.path@),
        components(entry).len() > components(q.path@).len() + 1,
    ensures
        spec_sort_entry(q, entry, Some(dir), passes) != Filtering::Continue,
        dir ==> spec_sort_entry(q, entry, Some(dir), passes) == Filtering::IgnoreDir,
{
}

/// Law: an entry is yielded only when it passes the listing's filter and its
/// metadata could be read.
pub proof fn law_yield_needs_filter(q: LocalQuery, entry: Seq<char>, is_dir: Option<bool>, passes: bool)
    requires
        spec_sort_entry(q, entry, is_dir, passes) == Filtering::Continue,
    ensures
        passes,
        is_dir is Some,
{
}

/// Law: a listing that includes its root yields the listed directory itself
/// when its metadata can be read and it passes the filter.
pub proof fn law_root_included(q: LocalQuery, entry: Seq<char>, dir: bool)
    requires
        q.root,
        components(entry) == components(q.path@),
    ensures
        spec_sort_entry(q, entry, Some(dir), true) == Filtering::Continue,
{
}

/// Law: a non-recursive listing yields the immediate children of the listed
/// directory, files and directories alike, when their metadata can be read
/// and they pass the filter.
pub proof fn law_non_recursive_children(q: LocalQuery, entry: Seq<char>, dir: bool)
    requires
        !q.recursive,
        path_starts_with(entry, q.path@),
        components(entry).len() == components(q.path@).len() + 1,
    ensures
        spec_sort_entry(q, entry, Some(dir), true) == Filtering::Continue,
{
    assert(components(entry).len() != components(q.path@).len());
}

/// Law: a recursive listing yields every readable entry other than the
/// listed directory itself that passes the filter, at any depth.
pub proof fn law_recursive_yields_passing(q: LocalQuery, entry: Seq<char>, dir: bool)
    requires
        q.recursive,
        components(entry) != components(q.path@),
    ensures
        spec_sort_entry(q, entry, Some(dir), true) == Filtering::Continue,
{
}

} // verus!
