use branchfs::classify::{classify_path, PathContext, CTL_FILE};

fn dir(b: &str) -> PathContext {
    PathContext::BranchDir(b.to_string())
}

fn path(b: &str, rel: &str) -> PathContext {
    PathContext::BranchPath(b.to_string(), rel.to_string())
}

#[test]
fn the_root_and_its_control_file() {
    assert_eq!(CTL_FILE, ".branchfs_ctl");
    assert_eq!(classify_path("/"), PathContext::Root);
    assert_eq!(classify_path("/.branchfs_ctl"), PathContext::RootCtl);
}

#[test]
fn branch_directories() {
    assert_eq!(classify_path("/@feature-a"), dir("feature-a"));
    assert_eq!(classify_path("/@b"), dir("b"));
    assert_eq!(classify_path("/@"), dir(""));
}

#[test]
fn branch_control_files() {
    assert_eq!(classify_path("/@b1/.branchfs_ctl"), PathContext::BranchCtl("b1".to_string()));
    assert_eq!(classify_path("/@b1/.branchfs_ctl2"), path("b1", "/.branchfs_ctl2"));
    assert_eq!(classify_path("/@b1/d/.branchfs_ctl"), path("b1", "/d/.branchfs_ctl"));
}

#[test]
fn paths_inside_a_branch() {
    assert_eq!(classify_path("/@b1/src/main.rs"), path("b1", "/src/main.rs"));
    assert_eq!(classify_path("/@b1/a.txt"), path("b1", "/a.txt"));
    assert_eq!(classify_path("/@b1/"), path("b1", "/"));
    assert_eq!(classify_path("/@b1/x/@y"), path("b1", "/x/@y"));
}

#[test]
fn nested_branch_directories_name_the_inner_branch() {
    assert_eq!(classify_path("/@a/@b"), dir("b"));
    assert_eq!(classify_path("/@a/@b/x.txt"), classify_path("/@b/x.txt"));
    assert_eq!(classify_path("/@a/@b/x.txt"), path("b", "/x.txt"));
    assert_eq!(classify_path("/@a/@b/@c/.branchfs_ctl"), PathContext::BranchCtl("c".to_string()));
    assert_eq!(classify_path("/@a/@b/@c/d/e"), path("c", "/d/e"));
}

#[test]
fn everything_else_is_seen_through_the_current_branch() {
    assert_eq!(classify_path("/a.txt"), PathContext::RootPath("/a.txt".to_string()));
    assert_eq!(classify_path("/dir/@b"), PathContext::RootPath("/dir/@b".to_string()));
    assert_eq!(classify_path("/dir/.branchfs_ctl"), PathContext::RootPath("/dir/.branchfs_ctl".to_string()));
    assert_eq!(classify_path(""), PathContext::RootPath("".to_string()));
    assert_eq!(classify_path("@b"), PathContext::RootPath("@b".to_string()));
    assert_eq!(classify_path("//"), PathContext::RootPath("//".to_string()));
}
