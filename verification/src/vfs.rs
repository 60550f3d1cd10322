//! The local backend: its identity and root, where its paths land on disk,
//! the records it reports, and its storage usage.
use vstd::prelude::*;
use crate::meta::{EntryInfo, FileStat};
use crate::path::{fix_path, join_force, path_starts_with, path_starts_with_exec, spec_fix_path, spec_join_force};
use crate::query::LocalQuery;
use crate::text::chars_of;

verus! {

/// Whether `id` carries the version and variant bits of a random (version 4,
/// RFC 4122 variant) UUID.
pub open spec fn is_random_uuid(id: u128) -> bool {
    (id >> 76u128) & 0xfu128 == 4u128 && (id >> 62u128) & 0x3u128 == 2u128
}

/// A fresh random identifier, as the bits of a UUID.
///
/// Trusted: calls `uuid::Uuid::new_v4` and takes the value's 128 bits with
/// `Uuid::as_u128`. The source of `new_v4` masks random bits so that the
/// version field is 4 and the variant bits are `10`; that is all that is
/// stated, the other bits being random.
#[verifier::external_body]
fn fresh_random_id() -> (id: u128)
    ensures
        is_random_uuid(id),
{
    uuid::Uuid::new_v4().as_u128()
}

/// One mounted disk: where it is mounted and its space in bytes.
pub struct DiskSpace {
    pub mount_point: String,
    pub total_space: u64,
    pub available_space: u64,
}

/// Storage usage of a backend, in bytes.
#[derive(PartialEq, Eq, Structural, Debug, Clone, Copy)]
pub struct DataUsage {
    pub used_bytes: u64,
    pub max_bytes: u64,
    pub free_bytes: u64,
}

/// Why usage could not be reported.
#[derive(PartialEq, Eq, Structural, Debug, Clone, Copy)]
pub enum UsageError {
    /// No disk holds the backend's root.
    Unsupported,
}

/// The first disk at or after `i` whose mount point holds `root`.
pub open spec fn first_mount_from(root: Seq<char>, disks: Seq<DiskSpace>, i: int) -> Option<int>
    decreases disks.len() - i,
{
    if i < 0 || i >= disks.len() {
        None
    } else if path_starts_with(root, disks[i].mount_point@) {
        Some(i)
    } else {
        first_mount_from(root, disks, i + 1)
    }
}

/// The first disk whose mount point holds `root`.
pub open spec fn first_mount(root: Seq<char>, disks: Seq<DiskSpace>) -> Option<int> {
    first_mount_from(root, disks, 0)
}

/// The usage reported for a disk.
pub open spec fn usage_of(d: DiskSpace) -> DataUsage {
    DataUsage {
        used_bytes: (d.total_space - d.available_space) as u64,
        max_bytes: d.total_space,
        free_bytes: d.available_space,
    }
}

/// The usage a backend rooted at `root` reports over `disks`.
pub open spec fn spec_usage(root: Seq<char>, disks: Seq<DiskSpace>) -> Result<Option<DataUsage>, UsageError> {
    match first_mount(root, disks) {
        Some(i) => Ok(Some(usage_of(disks[i]))),
        None => Err(UsageError::Unsupported),
    }
}

/// The disk chosen for `root` does not report more free space than it has.
pub open spec fn usage_defined(root: Seq<char>, disks: Seq<DiskSpace>) -> bool {
    match first_mount(root, disks) {
        Some(i) => disks[i].available_space <= disks[i].total_space,
        None => true,
    }
}

proof fn lemma_first_mount_from_bounds(root: Seq<char>, disks: Seq<DiskSpace>, i: int)
    ensures
        match first_mount_from(root, disks, i) {
            Some(k) => i <= k < disks.len() && path_starts_with(root, disks[k].mount_point@),
            None => true,
        },
    decreases disks.len() - i,
{
    if 0 <= i < disks.len() && !path_starts_with(root, disks[i].mount_point@) {
        lemma_first_mount_from_bounds(root, disks, i + 1);
    }
}

/// A virtual file system backed by the local directory `root`.
pub struct LocalVfs {
    id: u128,
    root: String,
}

impl LocalVfs {
    /// The backend's identifier.
    pub closed spec fn id_view(&self) -> u128 {
        self.id
    }

    /// The backend's root directory.
    pub closed spec fn root_view(&self) -> Seq<char> {
        self.root@
    }

    /// A backend rooted at `root`, with a fresh random identifier.
    pub fn new(root: &str) -> (v: Self)
        ensures
            v.root_view() == root@,
            is_random_uuid(v.id_view()),
    {
        LocalVfs { id: fresh_random_id(), root: root.to_owned() }
    }

    /// The backend's identifier, the bits of a UUID.
    pub fn id(&self) -> (id: u128)
        ensures
            id == self.id_view(),
    {
        self.id
    }

    /// The backend's root directory.
    pub fn root(&self) -> (r: &str)
        ensures
            r@ == self.root_view(),
    {
        self.root.as_str()
    }

    /// Where `item` lies on disk: the root followed by the components of
    /// `item` other than its own root.
    fn join_force(&self, item: &str) -> (p: String)
        ensures
            p@ == spec_join_force(self.root_view(), item@),
    {
        join_force(self.root.as_str(), item)
    }

    /// Where `item` lies on disk.
    pub fn realpath(&self, item: &str) -> (p: String)
        ensures
            p@ == spec_join_force(self.root_view(), item@),
    {
        self.join_force(item)
    }

    /// The record reported for the on-disk `path`, given what the file system
    /// says of it (`None` when it does not exist): its path normalised against
    /// the root, whether it is a directory, its modification and creation
    /// times, and its length; no access time.
    pub fn raw_metadata(&self, path: &str, stat: Option<FileStat>) -> (e: Option<EntryInfo>)
        ensures
            stat is None ==> e is None,
            stat matches Some(st) ==> (e matches Some(info) && {
                &&& info.path@ == spec_fix_path(path@, self.root_view())
                &&& info.is_dir == st.is_dir
                &&& info.mtime == st.modified
                &&& info.ctime == st.created
                &&& info.atime is None
                &&& info.size == st.len
            }),
    {
        match stat {
            None => None,
            Some(st) => Some(
                EntryInfo {
                    path: fix_path(path, self.root.as_str()),
                    is_dir: st.is_dir,
                    ctime: st.created,
                    mtime: st.modified,
                    atime: None,
                    size: st.len,
                },
            ),
        }
    }

    /// A listing of `item`, reported relative to the root.
    pub fn list(&self, item: &str, recursive: bool, include_root: bool) -> (q: LocalQuery)
        ensures
            q.abs@ == self.root_view(),
            q.path@ == spec_join_force(self.root_view(), item@),
            q.recursive == recursive,
            q.root == include_root,
    {
        let path = self.join_force(item);
        LocalQuery::new(self.root.as_str(), path.as_str(), recursive, include_root)
    }

    /// The index of the first of `disks` whose mount point holds the root.
    pub fn first_mount_index(&self, disks: &Vec<DiskSpace>) -> (r: Option<usize>)
        ensures
            match r {
                Some(i) => first_mount(self.root_view(), disks@) == Some(i as int),
                None => first_mount(self.root_view(), disks@) is None,
            },
    {
        let rc = chars_of(self.root.as_str());
        let mut i: usize = 0;
        while i < disks.len()
            invariant
                i <= disks.len(),
                rc@ == self.root_view(),
                first_mount(self.root_view(), disks@) == first_mount_from(
                    self.root_view(),
                    disks@,
                    i as int,
                ),
            decreases disks.len() - i,
        {
            let mc = chars_of(disks[i].mount_point.as_str());
            if path_starts_with_exec(&rc, &mc) {
                return Some(i);
            }
            i = i + 1;
        }
        None
    }

    /// Storage usage of the disk holding the root (the first of `disks` whose
    /// mount point holds it), or `Unsupported` when there is none.
    pub fn get_usage(&self, disks: &Vec<DiskSpace>) -> (r: Result<Option<DataUsage>, UsageError>)
        requires
            usage_defined(self.root_view(), disks@),
        ensures
            r == spec_usage(self.root_view(), disks@),
    {
        match self.first_mount_index(disks) {
            Some(i) => {
                proof {
                    lemma_first_mount_from_bounds(self.root_view(), disks@, 0);
                }
                let disk = &disks[i];
                let max_bytes = disk.total_space;
                let free_bytes = disk.available_space;
                let used_bytes = max_bytes - free_bytes;
                Ok(Some(DataUsage { used_bytes, max_bytes, free_bytes }))
            },
            None => Err(UsageError::Unsupported),
        }
    }
}

/// Law: the used and free space a backend reports add up to its capacity,
/// and the disk reported is one whose mount point holds the root.
pub proof fn law_usage_adds_up(root: Seq<char>, disks: Seq<DiskSpace>)
    requires
        usage_defined(root, disks),
        first_mount(root, disks) is Some,
    ensures
        spec_usage(root, disks) matches Ok(Some(u)) && u.used_bytes + u.free_bytes == u.max_bytes,
        path_starts_with(root, disks[first_mount(root, disks)->0].mount_point@),
{
    lemma_first_mount_from_bounds(root, disks, 0);
}

/// Law: the paths a backend hands out for its items all lie under its root.
pub proof fn law_realpath_under_root(v: LocalVfs, item: Seq<char>)
    ensures
        path_starts_with(spec_join_force(v.root_view(), item), v.root_view()),
{
    crate::path::law_join_force_stays_under_base(v.root_view(), item);
}

proof fn lemma_first_mount_from_least(root: Seq<char>, disks: Seq<DiskSpace>, i: int)
    requires
        0 <= i,
    ensures
        match first_mount_from(root, disks, i) {
            Some(k) => forall|j: int| i <= j < k ==> !path_starts_with(root, #[trigger] disks[j].mount_point@),
            None => forall|j: int| i <= j < disks.len() ==> !path_starts_with(root, #[trigger] disks[j].mount_point@),
        },
    decreases disks.len() - i,
{
    if i < disks.len() && !path_starts_with(root, disks[i].mount_point@) {
        lemma_first_mount_from_least(root, disks, i + 1);
    }
}

/// Law: the disk chosen for a root is the first one, in list order, whose
/// mount point holds the root, and there is one exactly when some disk of the
/// list holds the root.
pub proof fn law_first_mount_is_least_holder(root: Seq<char>, disks: Seq<DiskSpace>)
    ensures
        (first_mount(root, disks) is Some) <==> (exists|i: int| 0 <= i < disks.len() && path_starts_with(root, #[trigger] disks[i].mount_point@)),
        first_mount(root, disks) matches Some(k) ==> {
            &&& 0 <= k < disks.len()
            &&& path_starts_with(root, disks[k].mount_point@)
            &&& forall|j: int| 0 <= j < k ==> !path_starts_with(root, #[trigger] disks[j].mount_point@)
        },
{
    lemma_first_mount_from_bounds(root, disks, 0);
    lemma_first_mount_from_least(root, disks, 0);
    if let Some(k) = first_mount(root, disks) {
        assert(path_starts_with(root, disks[k].mount_point@));
    }
}

/// Law: usage is reported (never `Unsupported`) whenever some disk of the
/// list holds the root, and is `Unsupported` otherwise.
pub proof fn law_usage_reported_iff_held(root: Seq<char>, disks: Seq<DiskSpace>)
    ensures
        (spec_usage(root, disks) is Ok) <==> (exists|i: int| 0 <= i < disks.len() && path_starts_with(root, #[trigger] disks[i].mount_point@)),
{
    law_first_mount_is_least_holder(root, disks);
}

} // verus!
