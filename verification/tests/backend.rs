use arbhx_local::meta::FileStat;
use arbhx_local::query::{size_step, within_size_limit, Filtering, LocalQuery};
use arbhx_local::vfs::{DataUsage, DiskSpace, LocalVfs, UsageError};
use std::time::{Duration, SystemTime};

fn stat(is_dir: bool, len: u64) -> FileStat {
    FileStat {
        is_dir,
        len,
        modified: Some(SystemTime::UNIX_EPOCH + Duration::from_secs(10)),
        accessed: Some(SystemTime::UNIX_EPOCH + Duration::from_secs(20)),
        created: None,
    }
}

fn disk(mount: &str, total: u64, available: u64) -> DiskSpace {
    DiskSpace { mount_point: mount.to_string(), total_space: total, available_space: available }
}

#[test]
fn new_backend_keeps_root_and_has_random_uuid() {
    let v = LocalVfs::new("/data/store");
    assert_eq!(v.root(), "/data/store");
    let id = v.id();
    assert_eq!((id >> 76) & 0xf, 4);
    assert_eq!((id >> 62) & 0x3, 2);
    assert_eq!(v.id(), id);
    let w = LocalVfs::new("/data/store");
    assert_ne!(w.id(), id);
}

#[test]
fn realpath_joins_under_root() {
    let v = LocalVfs::new("/data/store");
    assert_eq!(v.realpath("/docs/a.txt"), "/data/store/docs/a.txt");
    assert_eq!(v.realpath("docs/a.txt"), "/data/store/docs/a.txt");
    assert_eq!(v.realpath("/"), "/data/store");
}

#[test]
fn raw_metadata_of_missing_path_is_none() {
    let v = LocalVfs::new("/data");
    assert!(v.raw_metadata("/data/none", None).is_none());
}

#[test]
fn raw_metadata_reports_fixed_path_without_atime() {
    let v = LocalVfs::new("/data");
    let e = v.raw_metadata("/data/dir/", Some(stat(true, 4096))).unwrap();
    assert_eq!(e.path, "/data/dir");
    assert!(e.is_dir);
    assert_eq!(e.size, 4096);
    assert_eq!(e.mtime, Some(SystemTime::UNIX_EPOCH + Duration::from_secs(10)));
    assert_eq!(e.atime, None);
    assert_eq!(e.ctime, None);
}

#[test]
fn list_builds_query_under_root() {
    let v = LocalVfs::new("/data");
    let q = v.list("/photos", false, true);
    assert_eq!(q.abs, "/data");
    assert_eq!(q.path, "/data/photos");
    assert!(!q.recursive);
    assert!(q.root);
}

#[test]
fn usage_uses_first_disk_holding_root() {
    let v = LocalVfs::new("/data/x");
    let disks = vec![disk("/boot", 10, 5), disk("/", 100, 40), disk("/data", 50, 10)];
    assert_eq!(v.first_mount_index(&disks), Some(1));
    assert_eq!(
        v.get_usage(&disks),
        Ok(Some(DataUsage { used_bytes: 60, max_bytes: 100, free_bytes: 40 }))
    );
}

#[test]
fn usage_matches_mount_points_by_component() {
    let v = LocalVfs::new("/datax");
    let disks = vec![disk("/data", 50, 10)];
    assert_eq!(v.first_mount_index(&disks), None);
    assert_eq!(v.get_usage(&disks), Err(UsageError::Unsupported));
}

#[test]
fn usage_without_disks_is_unsupported() {
    let v = LocalVfs::new("/data");
    assert_eq!(v.get_usage(&Vec::new()), Err(UsageError::Unsupported));
}

#[test]
fn sort_entry_skips_unreadable_entries() {
    let q = LocalQuery::new("/data", "/data/p", true, true);
    assert_eq!(q.sort_entry("/data/p/a", None, true), Filtering::Ignore);
}

#[test]
fn sort_entry_root_only_when_included() {
    let with = LocalQuery::new("/data", "/data/p", true, true);
    let without = LocalQuery::new("/data", "/data/p", true, false);
    assert_eq!(with.sort_entry("/data/p", Some(true), true), Filtering::Continue);
    assert_eq!(without.sort_entry("/data/p", Some(true), true), Filtering::Ignore);
    assert_eq!(without.sort_entry("/data/p/", Some(true), true), Filtering::Ignore);
}

#[test]
fn sort_entry_non_recursive_stops_at_children() {
    let q = LocalQuery::new("/data", "/data/p", false, false);
    assert_eq!(q.sort_entry("/data/p/a", Some(false), true), Filtering::Continue);
    assert_eq!(q.sort_entry("/data/p/a/b", Some(false), true), Filtering::Ignore);
    assert_eq!(q.sort_entry("/data/p/a/b", Some(true), true), Filtering::IgnoreDir);
    let r = LocalQuery::new("/data", "/data/p", true, false);
    assert_eq!(r.sort_entry("/data/p/a/b", Some(true), true), Filtering::Continue);
}

#[test]
fn sort_entry_follows_filter() {
    let q = LocalQuery::new("/data", "/data/p", true, false);
    assert_eq!(q.sort_entry("/data/p/a", Some(false), false), Filtering::Ignore);
    assert_eq!(q.sort_entry("/data/p/a", Some(false), true), Filtering::Continue);
}

#[test]
fn filter_record_keeps_walked_path() {
    let s = stat(false, 7);
    let e = LocalQuery::filter_record("/data/p/a/", &s);
    assert_eq!(e.path, "/data/p/a/");
    assert_eq!(e.atime, s.accessed);
    assert_eq!(e.size, 7);
}

#[test]
fn map_entry_fixes_path_and_keeps_times() {
    let q = LocalQuery::new("D:\\data", "D:\\data\\p", true, false);
    let s = stat(false, 7);
    let e = q.map_entry("D:\\data\\p\\a.txt", &s);
    assert_eq!(e.path, "/p/a.txt");
    assert_eq!(e.atime, s.accessed);
    assert_eq!(e.mtime, s.modified);
    assert!(!e.is_dir);
}

#[test]
fn size_counts_only_files() {
    let mut total = 0u64;
    for item in [Some((false, 10u64)), Some((true, 4096)), None, Some((false, 5))] {
        total = size_step(total, item);
    }
    assert_eq!(total, 15);
}

#[test]
fn size_limit_excludes_only_larger_files() {
    let v = LocalVfs::new("/data");
    let file = v.raw_metadata("/data/f", Some(stat(false, 100))).unwrap();
    let dir = v.raw_metadata("/data/d", Some(stat(true, 5000))).unwrap();
    assert!(within_size_limit(Some(100), &file));
    assert!(!within_size_limit(Some(99), &file));
    assert!(within_size_limit(None, &file));
    assert!(within_size_limit(Some(10), &dir));
}

#[test]
fn filter_consulted_only_when_it_decides() {
    let q = LocalQuery::new("/data", "/data/p", false, false);
    assert!(q.filter_decides("/data/p/a", Some(false)));
    assert!(!q.filter_decides("/data/p", Some(true)));
    assert!(!q.filter_decides("/data/p/a/b", Some(true)));
    assert!(!q.filter_decides("/data/p/a", None));
}
