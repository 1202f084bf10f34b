use branchfs::daemon::{
    get_parent_branch, get_socket_path, hex16, mount_hash, parent_in_list, Daemon, DaemonAction,
    Data, Request, Response,
};
use branchfs::error::BranchError;
use branchfs::manager::BranchManager;

fn s(x: &str) -> String {
    x.to_string()
}

fn entry(name: &str, parent: Option<&str>) -> Data {
    Data::Record(vec![
        (s("name"), Data::Text(s(name))),
        (s("parent"), parent.map(|p| Data::Text(s(p))).unwrap_or(Data::Null)),
    ])
}

fn text(t: &str) -> Response {
    Response::success_with_data(Data::Text(s(t)))
}

fn listing(items: Vec<Data>) -> Response {
    Response::success_with_data(Data::List(items))
}

#[test]
fn responses() {
    let ok = Response::success();
    assert!(ok.ok && ok.error.is_none() && ok.data.is_none());
    let with = Response::success_with_data(Data::Text(s("b1")));
    assert!(with.ok && with.error.is_none());
    assert_eq!(with.data, Some(Data::Text(s("b1"))));
    let bad = Response::error("no such mount");
    assert!(!bad.ok && bad.data.is_none());
    assert_eq!(bad.error, Some(s("no such mount")));
}

#[test]
fn responses_from_results() {
    let ok = Response::from_result(&Ok(()));
    assert!(ok.ok && ok.error.is_none() && ok.data.is_none());
    let bad = Response::from_result(&Err(BranchError::AlreadyExists(s("b1"))));
    assert!(!bad.ok);
    assert_eq!(bad.error, Some(s("branch already exists: b1")));
    let main = Response::from_result(&Err(BranchError::CannotOperateOnMain));
    assert_eq!(main.error, Some(s("cannot operate on main branch")));
}

#[test]
fn sixteen_hex_digits() {
    assert_eq!(hex16(0), "0000000000000000");
    assert_eq!(hex16(1), "0000000000000001");
    assert_eq!(hex16(255), "00000000000000ff");
    assert_eq!(hex16(0x0123_4567_89ab_cdef), "0123456789abcdef");
    assert_eq!(hex16(0xfedc_ba98_7654_3210), "fedcba9876543210");
    assert_eq!(hex16(u64::MAX), "ffffffffffffffff");
    assert_eq!(hex16(1 << 60), "1000000000000000");
}

#[test]
fn mount_hashes_are_sixteen_hex_digits() {
    for path in ["/mnt/a", "/mnt/b", "", "/"] {
        let h = mount_hash(path);
        assert_eq!(h.len(), 16);
        assert!(h.chars().all(|c| c.is_ascii_digit() || ('a'..='f').contains(&c)));
        assert_ne!(h, path);
        assert_eq!(h, mount_hash(path));
    }
    assert_ne!(mount_hash("/mnt/a"), mount_hash("/mnt/b"));
}

#[test]
fn socket_path_lies_in_the_storage() {
    assert_eq!(get_socket_path("/var/lib/branchfs"), "/var/lib/branchfs/daemon.sock");
    assert_eq!(get_socket_path("/s/"), "/s/daemon.sock");
}

#[test]
fn parent_is_found_in_the_list() {
    let list = vec![
        (Some(s("main")), None),
        (Some(s("b1")), Some(s("main"))),
        (Some(s("b2")), Some(s("b1"))),
        (None, Some(s("zzz"))),
        (Some(s("b2")), Some(s("other"))),
    ];
    assert_eq!(parent_in_list("b2", &list), "b1");
    assert_eq!(parent_in_list("b1", &list), "main");
    assert_eq!(parent_in_list("main", &list), "main");
    assert_eq!(parent_in_list("nope", &list), "main");
    assert_eq!(parent_in_list("b1", &vec![]), "main");
    assert_eq!(parent_in_list("x", &vec![(Some(s("x")), None)]), "main");
    assert_eq!(parent_in_list("main", &vec![(Some(s("main")), Some(s("odd")))]), "main");
}

#[test]
fn parent_branch_from_the_daemons_answers() {
    let list = listing(vec![entry("main", None), entry("b1", Some("main")), entry("b2", Some("b1"))]);
    assert_eq!(get_parent_branch(Some(&text("b2")), Some(&list)), "b1");
    assert_eq!(get_parent_branch(Some(&text("b1")), Some(&list)), "main");
    assert_eq!(get_parent_branch(Some(&text("main")), Some(&list)), "main");
    assert_eq!(get_parent_branch(Some(&text("nope")), Some(&list)), "main");
}

#[test]
fn parent_branch_without_answers_is_main() {
    let list = listing(vec![entry("b2", Some("b1"))]);
    assert_eq!(get_parent_branch(None, Some(&list)), "main");
    assert_eq!(get_parent_branch(Some(&text("b2")), None), "main");
    assert_eq!(get_parent_branch(Some(&Response::error("x")), Some(&list)), "main");
    assert_eq!(get_parent_branch(Some(&text("b2")), Some(&Response::error("x"))), "main");
    assert_eq!(get_parent_branch(Some(&Response::success()), Some(&list)), "main");
    assert_eq!(get_parent_branch(Some(&text("b2")), Some(&Response::success())), "main");
    let nothing = Response::success_with_data(Data::Null);
    assert_eq!(get_parent_branch(Some(&nothing), Some(&list)), "main");
    let record = Response::success_with_data(entry("b2", Some("b1")));
    assert_eq!(get_parent_branch(Some(&record), Some(&list)), "main");
    assert_eq!(get_parent_branch(Some(&text("b2")), Some(&text("no list"))), "main");
    assert_eq!(get_parent_branch(Some(&text("b2")), Some(&record)), "main");
    let odd = listing(vec![Data::Null, Data::Text(s("b2")), entry("b2", None)]);
    assert_eq!(get_parent_branch(Some(&text("b2")), Some(&odd)), "main");
}

#[test]
fn parent_branch_reads_the_first_record_that_names_the_branch() {
    let list = listing(vec![
        Data::Record(vec![(s("parent"), Data::Text(s("pa")))]),
        Data::Record(vec![(s("name"), Data::List(vec![])), (s("parent"), Data::Text(s("pb")))]),
        Data::Record(vec![(s("parent"), Data::Text(s("pc"))), (s("name"), Data::Text(s("b")))]),
        entry("b", Some("pd")),
    ]);
    assert_eq!(get_parent_branch(Some(&text("b")), Some(&list)), "pc");
    let twice = listing(vec![Data::Record(vec![
        (s("name"), Data::Text(s("b"))),
        (s("name"), Data::Text(s("c"))),
        (s("parent"), Data::Null),
        (s("parent"), Data::Text(s("late"))),
    ])]);
    assert_eq!(get_parent_branch(Some(&text("b")), Some(&twice)), "main");
    assert_eq!(get_parent_branch(Some(&text("c")), Some(&twice)), "main");
}

#[test]
fn texts_and_members_of_data() {
    assert_eq!(Data::Text(s("x")).as_text(), Some(s("x")));
    assert_eq!(Data::Null.as_text(), None);
    assert_eq!(Data::List(vec![Data::Text(s("x"))]).as_text(), None);
    let e = entry("b1", Some("main"));
    assert_eq!(e.member_text("name"), Some(s("b1")));
    assert_eq!(e.member_text("parent"), Some(s("main")));
    assert_eq!(e.member_text("other"), None);
    assert_eq!(e.as_text(), None);
    assert_eq!(entry("main", None).member_text("parent"), None);
    assert_eq!(Data::Text(s("name")).member_text("name"), None);
    assert_eq!(Data::List(vec![entry("a", None)]).member_text("name"), None);
}

#[test]
fn list_response_is_an_array_of_names_and_parents() {
    let r = Daemon::list_response(&vec![(s("main"), None), (s("b1"), Some(s("main")))]);
    assert!(r.ok && r.error.is_none());
    assert_eq!(r.data, Some(Data::List(vec![entry("main", None), entry("b1", Some("main"))])));
    let none = Daemon::list_response(&vec![]);
    assert_eq!(none.data, Some(Data::List(vec![])));
}

#[test]
fn list_response_is_read_back_by_parent_branch() {
    let list = Daemon::list_response(&vec![
        (s("main"), None),
        (s("b1"), Some(s("main"))),
        (s("b2"), Some(s("b1"))),
    ]);
    assert_eq!(get_parent_branch(Some(&text("b1")), Some(&list)), "main");
    assert_eq!(get_parent_branch(Some(&text("b2")), Some(&list)), "b1");
}

#[test]
fn a_new_daemon_has_no_mounts() {
    let d = Daemon::new(s("/base"), s("/store"), s("/base"));
    assert_eq!(d.mount_count(), 0);
    assert_eq!(d.socket_path(), "/store/daemon.sock");
    assert_eq!(d.base_path(), "/base");
    assert!(!d.is_shutdown());
    assert_eq!(d.current_branch("/mnt"), None);
    let storage = d.mount_storage("/mnt/a");
    assert!(storage.starts_with("/store/mounts/"));
    assert_eq!(storage.len(), "/store/mounts/".len() + 16);
}

#[test]
fn mounts_are_recorded_and_forgotten() {
    let mut d = Daemon::new(s("/base"), s("/store"), s("/base"));
    d.spawn_mount("main", "/mnt/a", s("/store/mounts/aa"));
    d.spawn_mount("b1", "/mnt/b", s("/store/mounts/bb"));
    assert_eq!(d.mount_count(), 2);
    assert_eq!(d.current_branch("/mnt/b"), Some(s("b1")));
    let gone = d.unmount("/mnt/a").unwrap();
    assert_eq!(gone.current_branch(), "main");
    assert_eq!(gone.mount_storage(), "/store/mounts/aa");
    assert_eq!(d.mount_count(), 1);
    assert!(!d.is_shutdown());
    assert_eq!(d.unmount("/mnt/a"), Err(BranchError::MountNotFound(s("/mnt/a"))));
    assert!(!d.is_shutdown());
    d.unmount("/mnt/b").unwrap();
    assert_eq!(d.mount_count(), 0);
    assert!(d.is_shutdown());
}

#[test]
fn a_switch_is_recorded() {
    let mut d = Daemon::new(s("/base"), s("/store"), s("/base"));
    d.spawn_mount("main", "/mnt/a", s("/store/mounts/aa"));
    assert_eq!(d.notify_switch("/mnt/a", "b1"), Some(s("main")));
    assert_eq!(d.current_branch("/mnt/a"), Some(s("b1")));
    assert_eq!(d.notify_switch("/mnt/zzz", "b1"), None);
    assert_eq!(d.mount_count(), 1);
    assert_eq!(d.unmount("/mnt/a").unwrap().mount_storage(), "/store/mounts/aa");
}

#[test]
fn requests_for_known_mounts() {
    let mut d = Daemon::new(s("/base"), s("/store"), s("/base"));
    let r = d.handle_request(&Request::Mount { branch: s("main"), mountpoint: s("/mnt/a") });
    match r {
        DaemonAction::Mount { branch, mountpoint, storage } => {
            assert_eq!(branch, "main");
            assert_eq!(mountpoint, "/mnt/a");
            assert!(storage.starts_with("/store/mounts/"));
            d.spawn_mount(&branch, &mountpoint, storage);
        }
        other => panic!("{:?}", other),
    }
    assert_eq!(d.mount_count(), 1);
    let r = d.handle_request(&Request::Create {
        name: s("b1"),
        parent: s("main"),
        mountpoint: s("/mnt/a"),
    });
    assert!(matches!(r, DaemonAction::Create { name, parent, mountpoint }
        if name == "b1" && parent == "main" && mountpoint == "/mnt/a"));
    let r = d.handle_request(&Request::NotifySwitch { mountpoint: s("/mnt/a"), branch: s("b1") });
    assert!(matches!(r, DaemonAction::Switched { mountpoint, before, branch }
        if mountpoint == "/mnt/a" && before == "main" && branch == "b1"));
    assert_eq!(d.current_branch("/mnt/a"), Some(s("b1")));
    let r = d.handle_request(&Request::List { mountpoint: s("/mnt/a") });
    assert!(matches!(r, DaemonAction::List { mountpoint } if mountpoint == "/mnt/a"));
    let r = d.handle_request(&Request::Shutdown);
    assert!(matches!(r, DaemonAction::Shutdown));
    assert!(!d.is_shutdown());
    let r = d.handle_request(&Request::Unmount { mountpoint: s("/mnt/a") });
    assert!(matches!(r, DaemonAction::Unmount { mountpoint, branch, storage, last }
        if mountpoint == "/mnt/a" && branch == "b1" && storage.starts_with("/store/mounts/") && last));
    assert!(d.is_shutdown());
    assert_eq!(d.mount_count(), 0);
}

#[test]
fn requests_for_unknown_mounts_are_answered_at_once() {
    let mut d = Daemon::new(s("/base"), s("/store"), s("/base"));
    let text = "mountpoint not tracked: /mnt/x (already unmounted or daemon restarted)";
    let requests = vec![
        Request::Unmount { mountpoint: s("/mnt/x") },
        Request::Create { name: s("b"), parent: s("main"), mountpoint: s("/mnt/x") },
        Request::NotifySwitch { mountpoint: s("/mnt/x"), branch: s("b") },
        Request::List { mountpoint: s("/mnt/x") },
    ];
    for request in &requests {
        match d.handle_request(request) {
            DaemonAction::Reply(r) => {
                assert!(!r.ok);
                assert_eq!(r.error.as_deref(), Some(text));
                assert!(r.data.is_none());
            }
            other => panic!("{:?}", other),
        }
    }
    assert!(!d.is_shutdown());
}

#[test]
fn unmount_of_one_of_two_is_not_the_last() {
    let mut d = Daemon::new(s("/base"), s("/store"), s("/base"));
    d.spawn_mount("main", "/mnt/a", s("/sa"));
    d.spawn_mount("main", "/mnt/b", s("/sb"));
    let r = d.handle_request(&Request::Unmount { mountpoint: s("/mnt/b") });
    assert!(matches!(r, DaemonAction::Unmount { storage, last, .. } if storage == "/sb" && !last));
    assert!(!d.is_shutdown());
}

#[test]
fn branches_of_a_mount() {
    let mut d = Daemon::new(s("/base"), s("/store"), s("/base"));
    d.spawn_mount("main", "/mnt/a", s("/sa"));
    let mut m = BranchManager::new(s("/sa"), s("/base"), s("/mnt/a"));
    assert_eq!(d.create_branch(&mut m, "b1", "main", "/mnt/a"), Ok(()));
    assert_eq!(
        d.create_branch(&mut m, "b1", "main", "/mnt/a"),
        Err(BranchError::AlreadyExists(s("b1")))
    );
    assert_eq!(
        d.create_branch(&mut m, "b2", "main", "/mnt/zzz"),
        Err(BranchError::MountNotFound(s("/mnt/zzz")))
    );
    assert!(!m.is_branch_valid("b2"));
    assert_eq!(
        d.list_branches(&m, "/mnt/a"),
        Ok(vec![(s("main"), None), (s("b1"), Some(s("main")))])
    );
    assert_eq!(d.list_branches(&m, "/mnt/zzz"), Err(BranchError::MountNotFound(s("/mnt/zzz"))));
}
