use arbhx_local::path::{components_of, fix_path, join_force, path_starts_with_exec};

fn chars(s: &str) -> Vec<char> {
    s.chars().collect()
}

fn comps(s: &str) -> Vec<String> {
    components_of(&chars(s)).into_iter().map(|c| c.into_iter().collect()).collect()
}

#[test]
fn join_force_drops_item_root() {
    assert_eq!(join_force("/srv/root", "/a/b"), "/srv/root/a/b");
    assert_eq!(join_force("/srv/root", "a/b"), "/srv/root/a/b");
}

#[test]
fn join_force_normalises_separators() {
    assert_eq!(join_force("/srv/root/", "a//b/"), "/srv/root/a/b");
    assert_eq!(join_force("/srv/root", "/./a/./b"), "/srv/root/a/b");
}

#[test]
fn join_force_keeps_leading_cur_dir_and_parent_dirs() {
    assert_eq!(join_force("/srv/root", "./a"), "/srv/root/./a");
    assert_eq!(join_force("/srv/root", "a/../b"), "/srv/root/a/../b");
}

#[test]
fn join_force_edge_cases() {
    assert_eq!(join_force("/r", "/"), "/r");
    assert_eq!(join_force("/r", ""), "/r");
    assert_eq!(join_force("", "/x/y"), "x/y");
    assert_eq!(join_force("", ""), "");
}

#[test]
fn components_follow_unix_rules() {
    assert_eq!(comps("/a//b/./c/"), vec!["/", "a", "b", "c"]);
    assert_eq!(comps("./a/."), vec![".", "a"]);
    assert_eq!(comps("."), vec!["."]);
    assert_eq!(comps(""), Vec::<String>::new());
    assert_eq!(comps("//"), vec!["/"]);
    assert_eq!(comps("a/../b"), vec!["a", "..", "b"]);
}

#[test]
fn starts_with_is_component_wise() {
    assert!(path_starts_with_exec(&chars("/data/x"), &chars("/data")));
    assert!(path_starts_with_exec(&chars("/data/x"), &chars("/data/")));
    assert!(path_starts_with_exec(&chars("/data/x"), &chars("/")));
    assert!(!path_starts_with_exec(&chars("/datax"), &chars("/data")));
    assert!(!path_starts_with_exec(&chars("data/x"), &chars("/data")));
}

#[test]
fn fix_path_unix_paths() {
    assert_eq!(fix_path("/tmp/root/a/", "/tmp/root"), "/tmp/root/a");
    assert_eq!(fix_path("/tmp/root/a", "/tmp/root"), "/tmp/root/a");
    assert_eq!(fix_path("rel/x", "/tmp/root"), "/rel/x");
    assert_eq!(fix_path("/", "/tmp/root"), "/");
    assert_eq!(fix_path("", "/tmp/root"), "/");
    assert_eq!(fix_path("x//", "/r"), "/x/");
}

#[test]
fn fix_path_backslashes_and_drive_letters() {
    assert_eq!(fix_path("a\\b", "/r"), "/a/b");
    assert_eq!(fix_path("D:\\tmp\\root\\x", "D:\\tmp\\root"), "/x");
    assert_eq!(fix_path("D:\\tmp\\root", "D:\\tmp\\root"), "/");
    assert_eq!(fix_path("D:\\other\\x", "D:\\tmp\\root"), "/other/x");
    assert_eq!(fix_path("D:\\x\\", "/tmp"), "/x");
    assert_eq!(fix_path("x", "C:"), "/x");
}

#[test]
fn join_force_matches_joining_the_item_components() {
    // the components of the forced join equal those of `base` joined with the
    // item's non-root part
    assert_eq!(comps(&join_force("/srv", "/a/./b")), comps("/srv/a/b"));
    assert_eq!(comps(&join_force("", "./a/b")), vec![".", "a", "b"]);
    assert_eq!(comps(&join_force("/srv", "./a")), vec!["/", "srv", "a"]);
    assert_eq!(comps(&join_force("/srv", "/")), comps("/srv/"));
}

#[test]
fn join_force_is_associative_by_components() {
    let cases = [("/b", "p/q", "./r"), ("", "p", "./r"), ("/b/", "/", "s"), ("", "", "./x")];
    for (b, p, q) in cases {
        let left = join_force(&join_force(b, p), q);
        let right = join_force(b, &join_force(p, q));
        assert_eq!(comps(&left), comps(&right));
    }
    // the excluded case: empty base, a middle path with no components, an
    // item starting with `.`
    let left = join_force(&join_force("", "/"), "./a");
    let right = join_force("", &join_force("/", "./a"));
    assert_eq!(comps(&left), vec![".", "a"]);
    assert_eq!(comps(&right), vec!["a"]);
}

#[test]
fn reported_path_of_join_under_drive_root() {
    let root = "C:\\data\\store";
    assert_eq!(fix_path(&join_force(root, "docs/a.txt"), root), "/docs/a.txt");
    assert_eq!(fix_path(&join_force(root, ""), root), "/");
    assert_eq!(fix_path(&join_force(root, "/x//y/"), root), "/x/y");
}
