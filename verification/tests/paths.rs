use branchfs::error::{BranchError, Errno};
use branchfs::paths::{branch_path, child_path, join_path, trim_start_slashes};
use branchfs::table::StrMap;
use branchfs::text::{chars_find, chars_start_with, chars_to_string, str_chars};

#[test]
fn join_adds_one_separator() {
    assert_eq!(join_path("/base", "a.txt"), "/base/a.txt");
    assert_eq!(join_path("/base", "/a.txt"), "/base/a.txt");
    assert_eq!(join_path("/base", "///x/y"), "/base/x/y");
}

#[test]
fn join_keeps_a_separator_that_is_there() {
    assert_eq!(join_path("/base/", "a"), "/base/a");
    assert_eq!(join_path("/", "a"), "/a");
}

#[test]
fn join_with_empty_parts() {
    assert_eq!(join_path("", "x"), "x");
    assert_eq!(join_path("/b", ""), "/b/");
    assert_eq!(join_path("/b", "/"), "/b/");
    assert_eq!(join_path("", ""), "");
}

#[test]
fn trim_removes_leading_slashes_only() {
    assert_eq!(trim_start_slashes("///a/b/"), "a/b/");
    assert_eq!(trim_start_slashes("a/b"), "a/b");
    assert_eq!(trim_start_slashes("////"), "");
    assert_eq!(trim_start_slashes(""), "");
}

#[test]
fn child_of_root_and_of_directory() {
    assert_eq!(child_path("/", "a.txt"), "/a.txt");
    assert_eq!(child_path("/dir", "a.txt"), "/dir/a.txt");
    assert_eq!(child_path("/dir/sub", "x"), "/dir/sub/x");
}

#[test]
fn branch_view_paths() {
    assert_eq!(branch_path("b1", "/a.txt"), "/@b1/a.txt");
    assert_eq!(branch_path("b1", ""), "/@b1");
    assert_eq!(branch_path("b1", "/@b2"), "/@b1/@b2");
}

#[test]
fn text_round_trip() {
    let v = str_chars("héllo");
    assert_eq!(v, vec!['h', 'é', 'l', 'l', 'o']);
    assert_eq!(chars_to_string(&v, 0, v.len()), "héllo");
    assert_eq!(chars_to_string(&v, 1, 3), "él");
    assert_eq!(chars_to_string(&v, 2, 2), "");
}

#[test]
fn text_concat() {
    assert_eq!(branchfs::text::concat("ab", "cd"), "abcd");
    assert_eq!(branchfs::text::concat("", "cd"), "cd");
    assert_eq!(branchfs::text::concat3("a", "/", "b"), "a/b");
}

#[test]
fn text_prefixes() {
    assert!(chars_start_with(&str_chars("/@b1/x"), &str_chars("/@b1")));
    assert!(chars_start_with(&str_chars("abc"), &str_chars("")));
    assert!(chars_start_with(&str_chars("abc"), &str_chars("abc")));
    assert!(!chars_start_with(&str_chars("ab"), &str_chars("abc")));
    assert!(!chars_start_with(&str_chars("abd"), &str_chars("abc")));
    assert!(chars_start_with(&str_chars("xyz"), &str_chars("xy")));
    assert!(!chars_start_with(&str_chars("xyz"), &str_chars("yz")));
}

#[test]
fn text_find() {
    let v = str_chars("ab/cd/e");
    assert_eq!(chars_find(&v, 0, '/'), 2);
    assert_eq!(chars_find(&v, 2, '/'), 2);
    assert_eq!(chars_find(&v, 3, '/'), 5);
    assert_eq!(chars_find(&v, 6, '/'), 7);
    assert_eq!(chars_find(&v, 7, '/'), 7);
}

#[test]
fn error_messages() {
    assert_eq!(BranchError::NotFound("b".into()).message(), "branch not found: b");
    assert_eq!(
        BranchError::MountNotFound("/mnt".into()).message(),
        "mountpoint not tracked: /mnt (already unmounted or daemon restarted)"
    );
    assert_eq!(BranchError::AlreadyExists("b".into()).message(), "branch already exists: b");
    assert_eq!(BranchError::Invalid("b".into()).message(), "branch is invalid: b");
    assert_eq!(BranchError::ParentNotFound("p".into()).message(), "parent branch not found: p");
    assert_eq!(BranchError::CannotOperateOnMain.message(), "cannot operate on main branch");
    assert_eq!(BranchError::Io("disk full".into()).message(), "io error: disk full");
    assert_eq!(BranchError::Json("eof".into()).message(), "json error: eof");
    assert_eq!(BranchError::Nix("EPERM".into()).message(), "nix error: EPERM");
}

#[test]
fn error_codes() {
    assert_eq!(BranchError::NotFound("b".into()).errno(), Errno::NoEnt);
    assert_eq!(BranchError::ParentNotFound("b".into()).errno(), Errno::NoEnt);
    assert_eq!(BranchError::MountNotFound("m".into()).errno(), Errno::NoEnt);
    assert_eq!(BranchError::AlreadyExists("b".into()).errno(), Errno::Io);
    assert_eq!(BranchError::Invalid("b".into()).errno(), Errno::Io);
    assert_eq!(BranchError::CannotOperateOnMain.errno(), Errno::Io);
    assert_eq!(BranchError::Io("x".into()).errno(), Errno::Io);
    assert_eq!(BranchError::Json("x".into()).errno(), Errno::Io);
    assert_eq!(BranchError::Nix("x".into()).errno(), Errno::Io);
}

#[test]
fn table_insert_get_remove() {
    let mut m: StrMap<u32> = StrMap::new();
    assert_eq!(m.len(), 0);
    m.insert("a".to_string(), 1);
    m.insert("b".to_string(), 2);
    m.insert("a".to_string(), 3);
    assert_eq!(m.len(), 2);
    assert_eq!(m.get("a"), Some(&3));
    assert_eq!(m.get("b"), Some(&2));
    assert_eq!(m.get("c"), None);
    assert!(m.contains_key("b"));
    assert_eq!(m.find("b"), Some(1));
    assert_eq!(m.key_list(), vec!["a".to_string(), "b".to_string()]);
    assert_eq!(m.remove("a"), Some(3));
    assert_eq!(m.remove("a"), None);
    assert_eq!(m.len(), 1);
    assert_eq!(m.key(0), "b");
    assert_eq!(*m.val(0), 2);
    m.set_val(0, 9);
    assert_eq!(m.get("b"), Some(&9));
    *m.val_mut(0) = 10;
    assert_eq!(m.get("b"), Some(&10));
    assert_eq!(m.remove_at(0), 10);
    m.insert("z".to_string(), 0);
    m.clear();
    assert_eq!(m.len(), 0);
    assert!(!m.contains_key("z"));
}
