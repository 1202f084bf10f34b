use branchfs::branch::{branch_dir_path, is_valid_name, split_log, Branch};
use branchfs::disk::{FileKind, Snapshot};

#[test]
fn valid_branch_names() {
    assert!(is_valid_name("main"));
    assert!(is_valid_name("feature-a"));
    assert!(is_valid_name("a@b"));
    assert!(is_valid_name("..."));
    assert!(is_valid_name(&"x".repeat(255)));
}

#[test]
fn invalid_branch_names() {
    assert!(!is_valid_name(""));
    assert!(!is_valid_name("."));
    assert!(!is_valid_name(".."));
    assert!(!is_valid_name("a/b"));
    assert!(!is_valid_name("/"));
    assert!(!is_valid_name("a\0b"));
    assert!(!is_valid_name("@a"));
    assert!(!is_valid_name(&"x".repeat(256)));
}

#[test]
fn name_length_counts_bytes() {
    // 128 characters of two bytes each are 256 bytes.
    assert!(!is_valid_name(&"é".repeat(128)));
    assert!(is_valid_name(&"é".repeat(127)));
}

#[test]
fn log_lines_are_split_at_line_feeds() {
    assert_eq!(split_log(""), Vec::<String>::new());
    assert_eq!(split_log("/a"), vec!["/a"]);
    assert_eq!(split_log("/a\n"), vec!["/a"]);
    assert_eq!(split_log("/a\n/b"), vec!["/a", "/b"]);
    assert_eq!(split_log("/a\n\n/b\n"), vec!["/a", "", "/b"]);
    assert_eq!(split_log("\n"), vec![""]);
}

#[test]
fn log_lines_lose_a_carriage_return_before_the_line_feed() {
    assert_eq!(split_log("/a\r\n/b\r\n"), vec!["/a", "/b"]);
    assert_eq!(split_log("/a\r"), vec!["/a\r"]);
    assert_eq!(split_log("\r\n"), vec![""]);
}

#[test]
fn new_branch_has_its_places() {
    let b = Branch::new("b1", Some("main"), "/store");
    assert_eq!(b.name(), "b1");
    assert_eq!(b.parent(), Some("main"));
    assert_eq!(b.files_dir(), "/store/branches/b1/files");
    assert_eq!(b.tombstones_file(), "/store/branches/b1/tombstones");
    assert_eq!(b.name, "b1");
    assert_eq!(b.parent, Some("main".to_string()));
    assert!(b.get_tombstones().is_empty());
    assert_eq!(branch_dir_path("/store", "b1"), "/store/branches/b1");
}

#[test]
fn main_has_no_parent() {
    let b = Branch::new("main", None, "/store/");
    assert_eq!(b.parent(), None);
    assert_eq!(b.files_dir(), "/store/branches/main/files");
}

#[test]
fn loading_reads_the_log() {
    let b = Branch::load("b1", Some("main"), "/s", "/a.txt\n\n/dir/b\n/a.txt\n");
    assert!(b.is_deleted("/a.txt"));
    assert!(b.is_deleted("/dir/b"));
    assert!(!b.is_deleted(""));
    assert!(!b.is_deleted("/c"));
    let mut t = b.get_tombstones();
    t.sort();
    assert_eq!(t, vec!["/a.txt", "/dir/b"]);
}

#[test]
fn tombstones_are_added_once() {
    let mut b = Branch::new("b1", Some("main"), "/s");
    assert!(!b.is_deleted("/a"));
    assert_eq!(b.log_entry("/a"), Some("/a\n".to_string()));
    b.add_tombstone("/a");
    assert!(b.is_deleted("/a"));
    assert_eq!(b.log_entry("/a"), None);
    b.add_tombstone("/a");
    assert_eq!(b.get_tombstones(), vec!["/a"]);
    b.add_tombstone("/b");
    assert_eq!(b.get_tombstones().len(), 2);
}

#[test]
fn tombstones_can_be_taken_back() {
    let mut b = Branch::new("b1", Some("main"), "/s");
    b.add_tombstone("/a");
    b.add_tombstone("/b");
    b.remove_tombstone("/a");
    b.remove_tombstone("/zzz");
    assert!(!b.is_deleted("/a"));
    assert!(b.is_deleted("/b"));
    assert_eq!(b.log_entry("/a"), Some("/a\n".to_string()));
}

#[test]
fn delta_paths_lie_below_the_files_directory() {
    let b = Branch::new("b1", Some("main"), "/s");
    assert_eq!(b.delta_path("/a.txt"), "/s/branches/b1/files/a.txt");
    assert_eq!(b.delta_path("a.txt"), "/s/branches/b1/files/a.txt");
    assert_eq!(b.delta_path("/d/e/f"), "/s/branches/b1/files/d/e/f");
    assert_eq!(b.delta_path("/"), "/s/branches/b1/files/");
}

#[test]
fn deltas_are_found_in_the_snapshot() {
    let b = Branch::new("b1", Some("main"), "/s");
    let mut disk = Snapshot::new();
    assert!(!b.has_delta("/a.txt", &disk));
    disk.record("/s/branches/b1/files/a.txt", FileKind::RegularFile);
    assert!(b.has_delta("/a.txt", &disk));
    assert!(!b.has_delta("/b.txt", &disk));
    disk.forget("/s/branches/b1/files/a.txt");
    assert!(!b.has_delta("/a.txt", &disk));
}

#[test]
fn snapshot_kinds() {
    let mut disk = Snapshot::new();
    disk.record("/d", FileKind::Directory);
    disk.record("/f", FileKind::RegularFile);
    disk.record("/l", FileKind::Symlink);
    assert!(disk.contains("/d") && disk.contains("/f") && disk.contains("/l"));
    assert!(!disk.contains("/x"));
    assert_eq!(disk.kind("/d"), Some(FileKind::Directory));
    assert_eq!(disk.kind("/l"), Some(FileKind::Symlink));
    assert_eq!(disk.kind("/x"), None);
    assert!(disk.is_dir("/d") && !disk.is_dir("/f") && !disk.is_dir("/x"));
    assert!(disk.is_file("/f") && !disk.is_file("/d") && !disk.is_file("/l"));
    disk.record("/d", FileKind::RegularFile);
    assert!(disk.is_file("/d"));
}
