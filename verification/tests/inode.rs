use branchfs::inode::{InodeManager, DENSE_END, ROOT_INO};

#[test]
fn new_table_holds_the_root() {
    let m = InodeManager::new();
    assert_eq!(ROOT_INO, 1);
    assert_eq!(m.get_ino("/"), Some(ROOT_INO));
    assert_eq!(m.get_path(ROOT_INO), Some("/".to_string()));
    let info = m.get_info(ROOT_INO).unwrap();
    assert_eq!(info.ino, 1);
    assert_eq!(info.path, "/");
    assert!(info.is_dir);
    assert_eq!(m.all_inos(), vec![1]);
    assert!(m.has_room());
}

#[test]
fn default_table_is_a_new_table() {
    let m = InodeManager::default();
    assert_eq!(m.get_ino("/"), Some(1));
    assert_eq!(m.all_inos(), vec![1]);
}

#[test]
fn numbers_are_dense_from_two() {
    let mut m = InodeManager::new();
    assert_eq!(m.get_or_create("/a", false), 2);
    assert_eq!(m.get_or_create("/b", true), 3);
    assert_eq!(m.get_or_create("/c", false), 4);
    assert_eq!(m.get_path(3), Some("/b".to_string()));
    assert_eq!(m.get_ino("/c"), Some(4));
    assert!(m.get_info(3).unwrap().is_dir);
    assert!(!m.get_info(2).unwrap().is_dir);
}

#[test]
fn a_known_path_keeps_its_number() {
    let mut m = InodeManager::new();
    assert_eq!(m.get_or_create("/a", false), 2);
    assert_eq!(m.get_or_create("/a", true), 2);
    assert!(!m.get_info(2).unwrap().is_dir);
    assert_eq!(m.get_or_create("/", false), 1);
    assert_eq!(m.get_or_create("/b", false), 3);
}

#[test]
fn unknown_numbers_and_paths() {
    let m = InodeManager::new();
    assert_eq!(m.get_path(2), None);
    assert_eq!(m.get_ino("/nope"), None);
    assert!(m.get_info(77).is_none());
}

#[test]
fn removed_numbers_are_not_reused() {
    let mut m = InodeManager::new();
    assert_eq!(m.get_or_create("/a", false), 2);
    m.remove("/a");
    assert_eq!(m.get_ino("/a"), None);
    assert_eq!(m.get_path(2), None);
    assert_eq!(m.get_or_create("/a", false), 3);
    m.remove("/missing");
    assert_eq!(m.get_or_create("/b", false), 4);
}

#[test]
fn clear_keeps_the_root_and_the_counter() {
    let mut m = InodeManager::new();
    m.get_or_create("/a", false);
    m.get_or_create("/b", false);
    m.clear();
    assert_eq!(m.all_inos(), vec![1]);
    assert_eq!(m.get_ino("/"), Some(1));
    assert_eq!(m.get_ino("/a"), None);
    assert_eq!(m.get_or_create("/a", false), 4);
}

#[test]
fn clear_puts_a_removed_root_back() {
    let mut m = InodeManager::new();
    m.remove("/");
    assert_eq!(m.get_ino("/"), None);
    m.clear();
    assert_eq!(m.get_ino("/"), Some(1));
}

#[test]
fn clear_prefix_drops_matching_paths() {
    let mut m = InodeManager::new();
    m.get_or_create("/@b1", true);
    m.get_or_create("/@b1/x", false);
    m.get_or_create("/@b2/x", false);
    m.get_or_create("/plain", false);
    m.clear_prefix("/@b1");
    assert_eq!(m.get_ino("/@b1"), None);
    assert_eq!(m.get_ino("/@b1/x"), None);
    assert_eq!(m.get_ino("/@b2/x"), Some(4));
    assert_eq!(m.get_ino("/plain"), Some(5));
    assert_eq!(m.get_ino("/"), Some(1));
    assert_eq!(m.get_or_create("/@b1", true), 6);
}

#[test]
fn clear_prefix_of_everything() {
    let mut m = InodeManager::new();
    m.get_or_create("/a", false);
    m.clear_prefix("");
    assert!(m.all_inos().is_empty());
    m.clear_prefix("/");
    assert_eq!(m.get_or_create("/", true), 3);
}

#[test]
fn all_numbers_are_listed_once() {
    let mut m = InodeManager::new();
    m.get_or_create("/a", false);
    m.get_or_create("/b", false);
    m.remove("/a");
    let mut all = m.all_inos();
    all.sort();
    assert_eq!(all, vec![1, 3]);
}

#[test]
fn no_number_repeats_over_many_changes() {
    let mut m = InodeManager::new();
    let mut handed_out: Vec<u64> = vec![1];
    for round in 0..20u32 {
        for k in 0..5u32 {
            let path = format!("/r{}/f{}", round, k);
            let ino = m.get_or_create(&path, false);
            assert!(!handed_out.contains(&ino));
            handed_out.push(ino);
        }
        if round % 3 == 0 {
            m.clear();
        } else if round % 3 == 1 {
            m.clear_prefix("/r");
        } else {
            m.remove(&format!("/r{}/f0", round));
        }
    }
    assert!(handed_out.iter().all(|i| *i < DENSE_END));
}
