use std::collections::{BTreeMap, BTreeSet};

use branchfs::ctl::{BRANCHFS_IOC_ABORT, BRANCHFS_IOC_COMMIT};
use branchfs::disk::{FileKind, Snapshot};
use branchfs::error::{BranchError, Errno};
use branchfs::fs::{
    block_count, ctl_file_attr, entries_from, make_attr, read_range, synthetic_dir_attr, Attr,
    BranchFs, CtlAction, DirEntry, Entry, FileAttributes, ReadSource, WritePlan, BLOCK_SIZE,
};
use branchfs::inode::ROOT_INO;
use branchfs::manager::BranchManager;
use branchfs::model::{BRANCH_CTL_START, CTL_INO};
use branchfs::paths::join_path;

/// A storage that lives in memory: files with their bytes, and directories.
struct World {
    files: BTreeMap<String, Vec<u8>>,
    dirs: BTreeSet<String>,
}

fn norm(path: &str) -> String {
    let t = path.trim_end_matches('/');
    if t.is_empty() {
        "/".to_string()
    } else {
        t.to_string()
    }
}

fn parent_dir(path: &str) -> Option<String> {
    let p = norm(path);
    if p == "/" {
        return None;
    }
    match p.rfind('/') {
        Some(0) => Some("/".to_string()),
        Some(i) => Some(p[..i].to_string()),
        None => None,
    }
}

impl World {
    fn new() -> World {
        let mut w = World { files: BTreeMap::new(), dirs: BTreeSet::new() };
        w.mkdirs("/base");
        w
    }

    fn mkdirs(&mut self, path: &str) {
        let mut cur = Some(norm(path));
        while let Some(p) = cur {
            self.dirs.insert(p.clone());
            cur = parent_dir(&p);
        }
    }

    fn put(&mut self, path: &str, bytes: &[u8]) {
        if let Some(p) = parent_dir(path) {
            self.mkdirs(&p);
        }
        self.files.insert(norm(path), bytes.to_vec());
    }

    fn get(&self, path: &str) -> Option<Vec<u8>> {
        self.files.get(&norm(path)).cloned()
    }

    fn kind(&self, path: &str) -> Option<FileKind> {
        let p = norm(path);
        if self.files.contains_key(&p) {
            Some(FileKind::RegularFile)
        } else if self.dirs.contains(&p) {
            Some(FileKind::Directory)
        } else {
            None
        }
    }

    fn snapshot(&self, paths: &[String]) -> Snapshot {
        let mut s = Snapshot::new();
        for p in paths {
            if let Some(k) = self.kind(p) {
                s.record(p, k);
            }
        }
        s
    }

    fn remove_all(&mut self, path: &str) {
        let p = norm(path);
        let below = format!("{}/", p);
        self.files.retain(|k, _| *k != p && !k.starts_with(&below));
        self.dirs.retain(|k| *k != p && !k.starts_with(&below));
    }

    fn copy(&mut self, src: &str, dst: &str) {
        let bytes = self.get(src).unwrap();
        self.put(dst, &bytes);
    }

    fn write_at(&mut self, path: &str, offset: u64, data: &[u8]) {
        let mut bytes = self.get(path).unwrap_or_default();
        let end = offset as usize + data.len();
        if bytes.len() < end {
            bytes.resize(end, 0);
        }
        bytes[offset as usize..end].copy_from_slice(data);
        self.put(path, &bytes);
    }

    /// The names and kinds in a directory.
    fn list(&self, dir: &str) -> Vec<(String, bool)> {
        let below = if norm(dir) == "/" { "/".to_string() } else { format!("{}/", norm(dir)) };
        let mut out = Vec::new();
        for d in &self.dirs {
            if let Some(rest) = d.strip_prefix(&below) {
                if !rest.is_empty() && !rest.contains('/') {
                    out.push((rest.to_string(), true));
                }
            }
        }
        for f in self.files.keys() {
            if let Some(rest) = f.strip_prefix(&below) {
                if !rest.contains('/') {
                    out.push((rest.to_string(), false));
                }
            }
        }
        out
    }

    /// The files below a directory, each with its path below the directory.
    fn walk(&self, dir: &str) -> Vec<(String, String)> {
        let d = norm(dir);
        let below = format!("{}/", d);
        self.files
            .keys()
            .filter(|f| f.starts_with(&below))
            .map(|f| (f[d.len()..].to_string(), f.clone()))
            .collect()
    }
}

/// One mount: a view and the file it has open for reading.
struct Mount {
    fs: BranchFs,
    open_for_read: Option<String>,
}

fn mount(m: &BranchManager, branch: &str) -> Mount {
    Mount { fs: BranchFs::new(m, branch.to_string()), open_for_read: None }
}

fn manager() -> BranchManager {
    BranchManager::new("/s".to_string(), "/base".to_string(), "/mnt".to_string())
}

fn lookup(w: &World, m: &BranchManager, mt: &mut Mount, parent: u64, name: &str) -> Result<Entry, Errno> {
    let disk = w.snapshot(&mt.fs.probes_for_child(m, parent, name));
    mt.fs.lookup(m, &disk, parent, name)
}

fn ino_of(w: &World, m: &BranchManager, mt: &mut Mount, parent: u64, name: &str) -> u64 {
    lookup(w, m, mt, parent, name).unwrap().ino
}

/// Walks `path` from the root, one lookup for each name.
fn walk_to(w: &World, m: &BranchManager, mt: &mut Mount, path: &str) -> Result<u64, Errno> {
    let mut ino = ROOT_INO;
    for name in path.split('/').filter(|n| !n.is_empty()) {
        ino = lookup(w, m, mt, ino, name)?.ino;
    }
    Ok(ino)
}

fn getattr(w: &World, m: &BranchManager, mt: &Mount, ino: u64) -> Result<Entry, Errno> {
    let disk = w.snapshot(&mt.fs.probes(m, ino));
    mt.fs.getattr(m, &disk, ino)
}

fn read(w: &World, m: &BranchManager, mt: &mut Mount, ino: u64, offset: i64, size: u32) -> Result<Vec<u8>, Errno> {
    let disk = w.snapshot(&mt.fs.probes(m, ino));
    let plan = mt.fs.read(m, &disk, ino)?;
    if let ReadSource::Open(p) = &plan.source {
        mt.open_for_read = Some(p.clone());
    }
    let path = mt.open_for_read.clone().unwrap();
    let bytes = match w.get(&path) {
        Some(b) => b,
        None => {
            mt.fs.forget_read(ino);
            return Err(Errno::Io);
        }
    };
    mt.fs.recheck(m, plan.recheck)?;
    let (from, to) = read_range(bytes.len(), offset, size);
    Ok(bytes[from..to].to_vec())
}

fn read_path(w: &World, m: &BranchManager, mt: &mut Mount, path: &str) -> Result<Vec<u8>, Errno> {
    let ino = walk_to(w, m, mt, path)?;
    read(w, m, mt, ino, 0, 1 << 20)
}

fn commit(w: &mut World, m: &mut BranchManager, branch: &str) -> Result<usize, BranchError> {
    let chain = m.operable_chain(branch)?;
    let listings: Vec<Vec<(String, String)>> = chain
        .iter()
        .map(|b| w.walk(&m.delta_path(b, "/").unwrap()))
        .collect();
    let (deletions, files) = m.collect_changes(&chain, &listings);
    let base = m.base_path().to_string();
    for d in &deletions {
        w.remove_all(&join_path(&base, d));
    }
    for (rel, src) in &files {
        w.copy(src, &join_path(&base, rel));
    }
    w.remove_all("/s/branches");
    m.commit(branch)?;
    Ok(m.invalidate_all_mounts().len())
}

fn abort(w: &mut World, m: &mut BranchManager, branch: &str) -> Result<usize, BranchError> {
    let chain = m.operable_chain(branch)?;
    for b in &chain {
        w.remove_all(&format!("/s/branches/{}", b));
    }
    m.abort(branch)?;
    Ok(m.invalidate_branches(&chain).len())
}

fn carry_out(w: &mut World, m: &mut BranchManager, mt: &mut Mount, action: CtlAction) -> Result<(), Errno> {
    match action {
        CtlAction::Switched => Ok(()),
        CtlAction::Commit { branch, parent } => match commit(w, m, &branch) {
            Ok(_) => {
                mt.fs.switch_to_branch(m, &parent);
                Ok(())
            }
            Err(e) => Err(e.errno()),
        },
        CtlAction::Abort { branch, parent } => match abort(w, m, &branch) {
            Ok(_) => {
                mt.fs.switch_to_branch(m, &parent);
                Ok(())
            }
            Err(e) => Err(e.errno()),
        },
    }
}

fn write(w: &mut World, m: &mut BranchManager, mt: &mut Mount, ino: u64, offset: i64, data: &[u8]) -> Result<u32, Errno> {
    let disk = w.snapshot(&mt.fs.probes(m, ino));
    match mt.fs.write(m, &disk, ino, offset, data)? {
        WritePlan::Control(action) => {
            carry_out(w, m, mt, action)?;
            Ok(data.len() as u32)
        }
        WritePlan::Data { copy_from, delta, offset, recheck, .. } => {
            if let Some(src) = copy_from {
                w.copy(&src, &delta);
            }
            w.write_at(&delta, offset, data);
            mt.fs.recheck(m, recheck)?;
            Ok(data.len() as u32)
        }
    }
}

fn ioctl(w: &mut World, m: &mut BranchManager, mt: &mut Mount, cmd: u32) -> Result<(), Errno> {
    let action = mt.fs.ioctl(m, cmd)?;
    carry_out(w, m, mt, action)
}

fn create(w: &mut World, m: &BranchManager, mt: &mut Mount, parent: u64, name: &str, dir: bool) -> Result<Entry, Errno> {
    let plan = if dir {
        mt.fs.mkdir(m, parent, name, 0o777, 0o022)?
    } else {
        mt.fs.create(m, parent, name, 0o666, 0o022)?
    };
    if dir {
        w.mkdirs(&plan.delta);
    } else {
        w.put(&plan.delta, b"");
    }
    match mt.fs.created(m, &plan) {
        Ok(e) => Ok(e),
        Err(e) => {
            if e == Errno::Stale {
                w.remove_all(&plan.delta);
            }
            Err(e)
        }
    }
}

fn unlink(w: &mut World, m: &mut BranchManager, mt: &mut Mount, parent: u64, name: &str) -> Result<(), Errno> {
    let plan = mt.fs.unlink(m, parent, name)?;
    if let Some(line) = &plan.log_line {
        let mut log = w.get(&plan.log_file).unwrap_or_default();
        log.extend_from_slice(line.as_bytes());
        w.put(&plan.log_file, &log);
    }
    w.remove_all(&plan.delta);
    mt.fs.unlinked(m, &plan)
}

fn readdir(w: &World, m: &BranchManager, mt: &mut Mount, ino: u64) -> Result<Vec<DirEntry>, Errno> {
    let disk = w.snapshot(&mt.fs.probes(m, ino));
    let plan = mt.fs.readdir_plan(m, &disk, ino)?;
    let upper = match &plan.delta_dir {
        Some(d) => w.list(d),
        None => Vec::new(),
    };
    let lower = w.list(&plan.base_dir);
    mt.fs.readdir(m, &plan, &upper, &lower)
}

fn names(entries: &[DirEntry]) -> Vec<String> {
    entries.iter().map(|e| e.name.clone()).collect()
}

// Mounts at work, from the first read to a commit.

#[test]
fn create_and_read_base() {
    let mut w = World::new();
    w.put("/base/a.txt", b"hello");
    let m = manager();
    let mut mt = mount(&m, "main");
    assert_eq!(read_path(&w, &m, &mut mt, "/a.txt"), Ok(b"hello".to_vec()));
}

#[test]
fn branch_write_does_not_affect_base() {
    let mut w = World::new();
    w.put("/base/a.txt", b"hello");
    let mut m = manager();
    let mut mt = mount(&m, "main");
    m.create_branch("b1", "main").unwrap();
    assert_eq!(write(&mut w, &mut m, &mut mt, CTL_INO, 0, b"switch:b1"), Ok(9));
    assert_eq!(mt.fs.get_branch_name(), "b1");
    let ino = walk_to(&w, &m, &mut mt, "/a.txt").unwrap();
    assert_eq!(write(&mut w, &mut m, &mut mt, ino, 0, b"world"), Ok(5));
    assert_eq!(read_path(&w, &m, &mut mt, "/@b1/a.txt"), Ok(b"world".to_vec()));
    assert_eq!(read_path(&w, &m, &mut mt, "/a.txt"), Ok(b"world".to_vec()));
    assert_eq!(w.get("/base/a.txt"), Some(b"hello".to_vec()));
    assert_eq!(abort(&mut w, &mut m, "b1"), Ok(0));
    mt.fs.switch_to_branch(&m, "main");
    assert_eq!(read_path(&w, &m, &mut mt, "/a.txt"), Ok(b"hello".to_vec()));
    assert_eq!(w.get("/base/a.txt"), Some(b"hello".to_vec()));
}

#[test]
fn tombstone_hides_base_file() {
    let mut w = World::new();
    w.put("/base/a.txt", b"hello");
    let mut m = manager();
    m.create_branch("b1", "main").unwrap();
    let mut on_b1 = mount(&m, "b1");
    let mut on_main = mount(&m, "main");
    assert_eq!(unlink(&mut w, &mut m, &mut on_b1, ROOT_INO, "a.txt"), Ok(()));
    assert_eq!(lookup(&w, &m, &mut on_b1, ROOT_INO, "a.txt"), Err(Errno::NoEnt));
    let e = lookup(&w, &m, &mut on_main, ROOT_INO, "a.txt").unwrap();
    assert_eq!(e.attr, Attr::Storage("/base/a.txt".to_string()));
    assert_eq!(w.get("/s/branches/b1/tombstones"), Some(b"/a.txt\n".to_vec()));
    assert_eq!(commit(&mut w, &mut m, "b1"), Ok(0));
    assert_eq!(w.get("/base/a.txt"), None);
    assert_eq!(w.kind("/base/a.txt"), None);
}

#[test]
fn nested_branch_resolution() {
    let mut w = World::new();
    let mut m = manager();
    m.create_branch("b1", "main").unwrap();
    m.create_branch("b2", "b1").unwrap();
    w.put("/s/branches/b1/files/a.txt", b"X");
    let mut mt = mount(&m, "main");
    assert_eq!(read_path(&w, &m, &mut mt, "/@b2/a.txt"), Ok(b"X".to_vec()));
    m.add_tombstone("b2", "/a.txt").unwrap();
    assert_eq!(read_path(&w, &m, &mut mt, "/@b2/a.txt"), Err(Errno::NoEnt));
    assert_eq!(read_path(&w, &m, &mut mt, "/@b1/a.txt"), Ok(b"X".to_vec()));
}

#[test]
fn reads_of_a_hidden_file_through_a_known_inode_fail() {
    let mut w = World::new();
    let mut m = manager();
    m.create_branch("b1", "main").unwrap();
    m.create_branch("b2", "b1").unwrap();
    w.put("/s/branches/b1/files/a.txt", b"X");
    let mut mt = mount(&m, "main");
    let ino = walk_to(&w, &m, &mut mt, "/@b2/a.txt").unwrap();
    let dir = walk_to(&w, &m, &mut mt, "/@b2").unwrap();
    unlink(&mut w, &mut m, &mut mt, dir, "a.txt").unwrap();
    assert_eq!(getattr(&w, &m, &mt, ino), Err(Errno::NoEnt));
    assert_eq!(lookup(&w, &m, &mut mt, dir, "a.txt"), Err(Errno::NoEnt));
}

#[test]
fn commit_chain_merges_in_order() {
    let mut w = World::new();
    let mut m = manager();
    m.create_branch("b1", "main").unwrap();
    m.create_branch("b2", "b1").unwrap();
    w.put("/s/branches/b1/files/x", b"1");
    w.put("/s/branches/b2/files/x", b"2");
    w.put("/s/branches/b1/files/only/in/b1", b"deep");
    assert_eq!(commit(&mut w, &mut m, "b2"), Ok(0));
    assert_eq!(w.get("/base/x"), Some(b"2".to_vec()));
    assert_eq!(w.get("/base/only/in/b1"), Some(b"deep".to_vec()));
    assert_eq!(m.list_branches(), vec![("main".to_string(), None)]);
    assert_eq!(m.get_epoch(), 1);
}

#[test]
fn stale_view() {
    let mut w = World::new();
    w.put("/base/a.txt", b"hello");
    let mut m = manager();
    m.create_branch("b", "main").unwrap();
    let mut m1 = mount(&m, "b");
    let mut m2 = mount(&m, "b");
    let ino2 = walk_to(&w, &m, &mut m2, "/a.txt").unwrap();
    assert_eq!(write(&mut w, &mut m, &mut m1, CTL_INO, 0, b"commit"), Ok(6));
    assert_eq!(m1.fs.get_branch_name(), "main");
    assert!(!m1.fs.is_stale(&m));
    assert!(m2.fs.is_stale(&m));
    assert_eq!(lookup(&w, &m, &mut m2, ROOT_INO, "a.txt"), Err(Errno::Stale));
    assert_eq!(read(&w, &m, &mut m2, ino2, 0, 10), Err(Errno::Stale));
    assert_eq!(getattr(&w, &m, &m2, ino2), Err(Errno::Stale));
    assert_eq!(write(&mut w, &mut m, &mut m2, ino2, 0, b"x"), Err(Errno::Stale));
    assert_eq!(readdir(&w, &m, &mut m2, ROOT_INO).err(), Some(Errno::Stale));
    assert_eq!(create(&mut w, &m, &mut m2, ROOT_INO, "n", false), Err(Errno::Stale));
    assert_eq!(unlink(&mut w, &mut m, &mut m2, ROOT_INO, "a.txt"), Err(Errno::Stale));
    assert_eq!(write(&mut w, &mut m, &mut m2, CTL_INO, 0, b"switch:main"), Ok(11));
    assert!(!m2.fs.is_stale(&m));
    assert_eq!(read_path(&w, &m, &mut m2, "/a.txt"), Ok(b"hello".to_vec()));
}

// What holds of every mount, tried on one.

#[test]
fn writing_the_same_bytes_twice_gives_the_same_content() {
    let mut w = World::new();
    w.put("/base/a.txt", b"hello world");
    let mut m = manager();
    m.create_branch("b1", "main").unwrap();
    let mut mt = mount(&m, "b1");
    let ino = walk_to(&w, &m, &mut mt, "/a.txt").unwrap();
    assert_eq!(write(&mut w, &mut m, &mut mt, ino, 6, b"there"), Ok(5));
    let once = w.get("/s/branches/b1/files/a.txt");
    assert_eq!(once, Some(b"hello there".to_vec()));
    assert_eq!(write(&mut w, &mut m, &mut mt, ino, 6, b"there"), Ok(5));
    assert_eq!(w.get("/s/branches/b1/files/a.txt"), once);
    assert_eq!(w.get("/base/a.txt"), Some(b"hello world".to_vec()));
}

#[test]
fn switching_twice_is_switching_once() {
    let mut w = World::new();
    w.put("/base/a.txt", b"hello");
    let mut m = manager();
    m.create_branch("b1", "main").unwrap();
    let mut mt = mount(&m, "main");
    assert_eq!(walk_to(&w, &m, &mut mt, "/a.txt"), Ok(2));
    mt.fs.switch_to_branch(&m, "b1");
    let branch = mt.fs.get_branch_name();
    let epoch = mt.fs.current_epoch();
    let inos = mt.fs.inodes().all_inos();
    mt.fs.switch_to_branch(&m, "b1");
    assert_eq!(mt.fs.get_branch_name(), branch);
    assert_eq!(mt.fs.current_epoch(), epoch);
    assert_eq!(mt.fs.inodes().all_inos(), inos);
    assert_eq!(inos, vec![1]);
    assert_eq!(walk_to(&w, &m, &mut mt, "/a.txt"), Ok(3));
}

#[test]
fn abort_keeps_epoch_base_and_siblings() {
    let mut w = World::new();
    w.put("/base/a.txt", b"hello");
    let mut m = manager();
    m.create_branch("b1", "main").unwrap();
    m.create_branch("b2", "b1").unwrap();
    m.create_branch("side", "main").unwrap();
    w.put("/s/branches/b2/files/a.txt", b"changed");
    w.put("/s/branches/side/files/s.txt", b"side");
    m.register_notifier("b1", "/mnt/x");
    m.register_notifier("side", "/mnt/y");
    assert_eq!(abort(&mut w, &mut m, "b2"), Ok(1));
    assert_eq!(m.get_epoch(), 0);
    assert_eq!(w.get("/base/a.txt"), Some(b"hello".to_vec()));
    assert_eq!(w.get("/s/branches/b2/files/a.txt"), None);
    assert_eq!(w.get("/s/branches/side/files/s.txt"), Some(b"side".to_vec()));
    assert_eq!(
        m.list_branches(),
        vec![("main".to_string(), None), ("side".to_string(), Some("main".to_string()))]
    );
    let mut on_side = mount(&m, "side");
    assert!(!on_side.fs.is_stale(&m));
    assert_eq!(read_path(&w, &m, &mut on_side, "/s.txt"), Ok(b"side".to_vec()));
}

#[test]
fn commit_writes_what_the_branch_saw() {
    let mut w = World::new();
    w.put("/base/keep", b"k");
    w.put("/base/gone", b"g");
    w.put("/base/dir/inner", b"i");
    w.put("/base/again", b"old");
    let mut m = manager();
    m.create_branch("b1", "main").unwrap();
    m.create_branch("b2", "b1").unwrap();
    let mut mt = mount(&m, "b2");
    // b1 deletes `again`, b2 makes it anew; b2 deletes `gone` and the directory.
    m.add_tombstone("b1", "/again").unwrap();
    assert_eq!(unlink(&mut w, &mut m, &mut mt, ROOT_INO, "gone"), Ok(()));
    assert_eq!(unlink(&mut w, &mut m, &mut mt, ROOT_INO, "dir"), Ok(()));
    let e = create(&mut w, &m, &mut mt, ROOT_INO, "again", false).unwrap();
    assert_eq!(write(&mut w, &mut m, &mut mt, e.ino, 0, b"new"), Ok(3));
    assert_eq!(read_path(&w, &m, &mut mt, "/again"), Ok(b"new".to_vec()));
    assert_eq!(commit(&mut w, &mut m, "b2"), Ok(0));
    assert_eq!(w.get("/base/keep"), Some(b"k".to_vec()));
    assert_eq!(w.get("/base/gone"), None);
    assert_eq!(w.get("/base/dir/inner"), None);
    assert_eq!(w.kind("/base/dir"), None);
    assert_eq!(w.get("/base/again"), Some(b"new".to_vec()));
}

// The requests, one by one.

#[test]
fn lookup_of_synthetic_entries() {
    let w = World::new();
    let mut m = manager();
    m.create_branch("b1", "main").unwrap();
    m.create_branch("b2", "b1").unwrap();
    let mut mt = mount(&m, "main");
    assert_eq!(
        lookup(&w, &m, &mut mt, ROOT_INO, ".branchfs_ctl"),
        Ok(Entry { ino: CTL_INO, attr: Attr::Ctl })
    );
    assert_eq!(lookup(&w, &m, &mut mt, ROOT_INO, "@b1"), Ok(Entry { ino: 2, attr: Attr::Dir }));
    assert_eq!(lookup(&w, &m, &mut mt, ROOT_INO, "@b1"), Ok(Entry { ino: 2, attr: Attr::Dir }));
    assert_eq!(lookup(&w, &m, &mut mt, ROOT_INO, "@nope"), Err(Errno::NoEnt));
    assert_eq!(lookup(&w, &m, &mut mt, ROOT_INO, "@main"), Err(Errno::NoEnt));
    assert_eq!(
        lookup(&w, &m, &mut mt, 2, ".branchfs_ctl"),
        Ok(Entry { ino: BRANCH_CTL_START, attr: Attr::Ctl })
    );
    assert_eq!(lookup(&w, &m, &mut mt, 2, "@b2"), Ok(Entry { ino: 3, attr: Attr::Dir }));
    assert_eq!(lookup(&w, &m, &mut mt, 2, "@main"), Err(Errno::NoEnt));
    assert_eq!(
        lookup(&w, &m, &mut mt, 3, ".branchfs_ctl"),
        Ok(Entry { ino: BRANCH_CTL_START - 1, attr: Attr::Ctl })
    );
    assert_eq!(mt.fs.branch_for_ctl_ino(BRANCH_CTL_START), Some("b1".to_string()));
    assert_eq!(mt.fs.branch_for_ctl_ino(BRANCH_CTL_START - 1), Some("b2".to_string()));
    assert_eq!(mt.fs.branch_for_ctl_ino(BRANCH_CTL_START - 2), None);
    assert_eq!(mt.fs.inodes().get_path(3), Some("/@b1/@b2".to_string()));
    assert_eq!(lookup(&w, &m, &mut mt, 99, "x"), Err(Errno::NoEnt));
    assert_eq!(lookup(&w, &m, &mut mt, CTL_INO, "x"), Err(Errno::NoEnt));
}

#[test]
fn reserved_numbers() {
    assert_eq!(CTL_INO, u64::MAX - 1);
    assert_eq!(BRANCH_CTL_START, 18_446_744_073_708_551_616);
    assert_eq!(ROOT_INO, 1);
}

#[test]
fn lookup_of_files_and_directories() {
    let mut w = World::new();
    w.put("/base/dir/f.txt", b"f");
    w.put("/s/branches/b1/files/dir/g.txt", b"g");
    let mut m = manager();
    m.create_branch("b1", "main").unwrap();
    let mut mt = mount(&m, "main");
    let d = lookup(&w, &m, &mut mt, ROOT_INO, "dir").unwrap();
    assert_eq!(d, Entry { ino: 2, attr: Attr::Storage("/base/dir".to_string()) });
    assert!(mt.fs.inodes().get_info(2).unwrap().is_dir);
    let f = lookup(&w, &m, &mut mt, 2, "f.txt").unwrap();
    assert_eq!(f, Entry { ino: 3, attr: Attr::Storage("/base/dir/f.txt".to_string()) });
    assert_eq!(lookup(&w, &m, &mut mt, 2, "g.txt"), Err(Errno::NoEnt));
    let g = walk_to(&w, &m, &mut mt, "/@b1/dir/g.txt").unwrap();
    assert_eq!(mt.fs.inodes().get_path(g), Some("/@b1/dir/g.txt".to_string()));
    assert_eq!(
        getattr(&w, &m, &mt, g),
        Ok(Entry { ino: g, attr: Attr::Storage("/s/branches/b1/files/dir/g.txt".to_string()) })
    );
}

#[test]
fn getattr_of_reserved_inodes() {
    let w = World::new();
    let mut m = manager();
    m.create_branch("b1", "main").unwrap();
    let mut mt = mount(&m, "main");
    assert_eq!(getattr(&w, &m, &mt, CTL_INO), Ok(Entry { ino: CTL_INO, attr: Attr::Ctl }));
    let root = getattr(&w, &m, &mt, ROOT_INO).unwrap();
    assert_eq!(root, Entry { ino: 1, attr: Attr::Storage("/base/".to_string()) });
    let dir = ino_of(&w, &m, &mut mt, ROOT_INO, "@b1");
    let ctl = ino_of(&w, &m, &mut mt, dir, ".branchfs_ctl");
    assert_eq!(getattr(&w, &m, &mt, dir), Ok(Entry { ino: dir, attr: Attr::Dir }));
    assert_eq!(getattr(&w, &m, &mt, ctl), Ok(Entry { ino: ctl, attr: Attr::Ctl }));
    m.abort_single("b1");
    assert_eq!(getattr(&w, &m, &mt, dir), Err(Errno::NoEnt));
    assert_eq!(getattr(&w, &m, &mt, ctl), Err(Errno::NoEnt));
    assert_eq!(getattr(&w, &m, &mt, 4242), Err(Errno::NoEnt));
}

#[test]
fn the_root_has_attributes_even_when_nothing_is_there() {
    let mut w = World::new();
    w.remove_all("/base");
    let m = manager();
    let mt = mount(&m, "gone");
    assert_eq!(getattr(&w, &m, &mt, ROOT_INO), Ok(Entry { ino: 1, attr: Attr::Dir }));
}

#[test]
fn open_registers_the_inode_with_its_branch() {
    let mut w = World::new();
    w.put("/base/a.txt", b"hello");
    let mut m = manager();
    m.create_branch("b1", "main").unwrap();
    m.register_notifier("b1", "/mnt");
    m.register_notifier("main", "/mnt2");
    let mut mt = mount(&m, "main");
    let plain = walk_to(&w, &m, &mut mt, "/a.txt").unwrap();
    let seen = walk_to(&w, &m, &mut mt, "/@b1/a.txt").unwrap();
    let dir = walk_to(&w, &m, &mut mt, "/@b1").unwrap();
    let disk = w.snapshot(&mt.fs.probes(&m, plain));
    assert_eq!(mt.fs.open(&mut m, &disk, plain), Ok(()));
    let disk = w.snapshot(&mt.fs.probes(&m, seen));
    assert_eq!(mt.fs.open(&mut m, &disk, seen), Ok(()));
    assert_eq!(mt.fs.open(&mut m, &Snapshot::new(), dir), Ok(()));
    assert_eq!(mt.fs.open(&mut m, &Snapshot::new(), CTL_INO), Ok(()));
    assert_eq!(mt.fs.open(&mut m, &Snapshot::new(), 777), Err(Errno::NoEnt));
    assert_eq!(mt.fs.open(&mut m, &Snapshot::new(), plain), Err(Errno::NoEnt));
    let all = m.invalidate_all_mounts();
    assert_eq!(all[0].inodes, vec![1, seen]);
    assert_eq!(all[1].inodes, vec![1, plain]);
}

#[test]
fn read_returns_a_window() {
    let mut w = World::new();
    w.put("/base/a.txt", b"hello world");
    let m = manager();
    let mut mt = mount(&m, "main");
    let ino = walk_to(&w, &m, &mut mt, "/a.txt").unwrap();
    assert_eq!(read(&w, &m, &mut mt, ino, 0, 5), Ok(b"hello".to_vec()));
    assert_eq!(read(&w, &m, &mut mt, ino, 6, 100), Ok(b"world".to_vec()));
    assert_eq!(read(&w, &m, &mut mt, ino, 11, 5), Ok(vec![]));
    assert_eq!(read(&w, &m, &mut mt, ino, 500, 5), Ok(vec![]));
    assert_eq!(read(&w, &m, &mut mt, ino, -1, 5), Ok(vec![]));
    assert_eq!(read(&w, &m, &mut mt, ino, 3, 0), Ok(vec![]));
}

#[test]
fn read_windows() {
    assert_eq!(read_range(11, 0, 5), (0, 5));
    assert_eq!(read_range(11, 6, 100), (6, 11));
    assert_eq!(read_range(11, 10, 1), (10, 11));
    assert_eq!(read_range(11, 11, 1), (0, 0));
    assert_eq!(read_range(11, -3, 1), (0, 0));
    assert_eq!(read_range(0, 0, 9), (0, 0));
    assert_eq!(read_range(11, 4, u32::MAX), (4, 11));
    assert_eq!(read_range(11, i64::MAX, u32::MAX), (0, 0));
    assert_eq!(entries_from(5, 0), 0);
    assert_eq!(entries_from(5, 3), 3);
    assert_eq!(entries_from(5, 5), 5);
    assert_eq!(entries_from(5, 9), 5);
    assert_eq!(entries_from(5, -1), 5);
}

#[test]
fn read_keeps_one_descriptor() {
    let mut w = World::new();
    w.put("/base/a.txt", b"aaa");
    w.put("/base/b.txt", b"bbb");
    let m = manager();
    let mut mt = mount(&m, "main");
    let a = walk_to(&w, &m, &mut mt, "/a.txt").unwrap();
    let b = walk_to(&w, &m, &mut mt, "/b.txt").unwrap();
    let disk = w.snapshot(&mt.fs.probes(&m, a));
    let first = mt.fs.read(&m, &disk, a).unwrap();
    assert_eq!(first.source, ReadSource::Open("/base/a.txt".to_string()));
    assert!(first.recheck);
    assert_eq!(mt.fs.read(&m, &disk, a).unwrap().source, ReadSource::Cached);
    // The kept descriptor is used without a look at the storage.
    assert_eq!(mt.fs.read(&m, &Snapshot::new(), a).unwrap().source, ReadSource::Cached);
    let disk_b = w.snapshot(&mt.fs.probes(&m, b));
    assert_eq!(mt.fs.read(&m, &disk_b, b).unwrap().source, ReadSource::Open("/base/b.txt".to_string()));
    assert_eq!(mt.fs.read(&m, &disk, a).unwrap().source, ReadSource::Open("/base/a.txt".to_string()));
    mt.fs.forget_read(b);
    assert_eq!(mt.fs.read(&m, &disk, a).unwrap().source, ReadSource::Cached);
    mt.fs.forget_read(a);
    assert_eq!(mt.fs.read(&m, &disk, a).unwrap().source, ReadSource::Open("/base/a.txt".to_string()));
}

#[test]
fn a_write_drops_the_read_descriptor() {
    let mut w = World::new();
    w.put("/base/a.txt", b"hello");
    let mut m = manager();
    m.create_branch("b1", "main").unwrap();
    let mut mt = mount(&m, "b1");
    let ino = walk_to(&w, &m, &mut mt, "/a.txt").unwrap();
    assert_eq!(read(&w, &m, &mut mt, ino, 0, 9), Ok(b"hello".to_vec()));
    assert_eq!(mt.open_for_read, Some("/base/a.txt".to_string()));
    assert_eq!(write(&mut w, &mut m, &mut mt, ino, 0, b"J"), Ok(1));
    assert_eq!(read(&w, &m, &mut mt, ino, 0, 9), Ok(b"Jello".to_vec()));
    assert_eq!(mt.open_for_read, Some("/s/branches/b1/files/a.txt".to_string()));
    let disk = w.snapshot(&mt.fs.probes(&m, ino));
    assert_eq!(mt.fs.read(&m, &disk, ino).unwrap().source, ReadSource::Cached);
}

#[test]
fn read_of_synthetic_entries_is_refused() {
    let w = World::new();
    let mut m = manager();
    m.create_branch("b1", "main").unwrap();
    let mut mt = mount(&m, "main");
    let dir = ino_of(&w, &m, &mut mt, ROOT_INO, "@b1");
    let ctl = ino_of(&w, &m, &mut mt, dir, ".branchfs_ctl");
    assert_eq!(read(&w, &m, &mut mt, dir, 0, 1), Err(Errno::IsDir));
    assert_eq!(read(&w, &m, &mut mt, ctl, 0, 1), Err(Errno::IsDir));
    assert_eq!(read(&w, &m, &mut mt, CTL_INO, 0, 1), Err(Errno::IsDir));
    assert_eq!(read(&w, &m, &mut mt, 999, 0, 1), Err(Errno::NoEnt));
}

#[test]
fn write_plans() {
    let mut w = World::new();
    w.put("/base/a.txt", b"hello");
    w.put("/base/dir/x", b"");
    let mut m = manager();
    m.create_branch("b1", "main").unwrap();
    let mut mt = mount(&m, "b1");
    let ino = walk_to(&w, &m, &mut mt, "/a.txt").unwrap();
    let dir = walk_to(&w, &m, &mut mt, "/dir").unwrap();
    let disk = w.snapshot(&mt.fs.probes(&m, ino));
    assert_eq!(
        mt.fs.write(&m, &disk, ino, 3, b"x"),
        Ok(WritePlan::Data {
            copy_from: Some("/base/a.txt".to_string()),
            delta: "/s/branches/b1/files/a.txt".to_string(),
            offset: 3,
            reuse: false,
            recheck: true,
        })
    );
    assert_eq!(mt.fs.write(&m, &disk, ino, -1, b"x"), Err(Errno::Io));
    // A directory is not copied.
    let disk = w.snapshot(&mt.fs.probes(&m, dir));
    assert_eq!(
        mt.fs.write(&m, &disk, dir, 0, b"x"),
        Ok(WritePlan::Data {
            copy_from: None,
            delta: "/s/branches/b1/files/dir".to_string(),
            offset: 0,
            reuse: false,
            recheck: true,
        })
    );
    // A delta that exists is not made again.
    w.put("/s/branches/b1/files/a.txt", b"mine");
    let disk = w.snapshot(&mt.fs.probes(&m, ino));
    assert_eq!(
        mt.fs.write(&m, &disk, ino, 0, b"x"),
        Ok(WritePlan::Data {
            copy_from: None,
            delta: "/s/branches/b1/files/a.txt".to_string(),
            offset: 0,
            reuse: false,
            recheck: true,
        })
    );
    // The descriptor of the last write is kept for the next.
    assert_eq!(
        mt.fs.write(&m, &disk, ino, 7, b"x"),
        Ok(WritePlan::Data {
            copy_from: None,
            delta: "/s/branches/b1/files/a.txt".to_string(),
            offset: 7,
            reuse: true,
            recheck: true,
        })
    );
    mt.fs.forget_write(ino);
    assert!(matches!(
        mt.fs.write(&m, &disk, ino, 7, b"x"),
        Ok(WritePlan::Data { reuse: false, .. })
    ));
    assert_eq!(mt.fs.write(&m, &disk, 4321, 0, b"x"), Err(Errno::NoEnt));
}

#[test]
fn writes_through_a_branch_directory() {
    let mut w = World::new();
    w.put("/base/a.txt", b"hello");
    let mut m = manager();
    m.create_branch("b1", "main").unwrap();
    let mut mt = mount(&m, "main");
    let ino = walk_to(&w, &m, &mut mt, "/@b1/a.txt").unwrap();
    let dir = walk_to(&w, &m, &mut mt, "/@b1").unwrap();
    assert_eq!(write(&mut w, &mut m, &mut mt, ino, 5, b"!"), Ok(1));
    assert_eq!(w.get("/s/branches/b1/files/a.txt"), Some(b"hello!".to_vec()));
    assert_eq!(read_path(&w, &m, &mut mt, "/a.txt"), Ok(b"hello".to_vec()));
    assert_eq!(write(&mut w, &mut m, &mut mt, dir, 0, b"x"), Err(Errno::Perm));
    m.abort_single("b1");
    assert_eq!(write(&mut w, &mut m, &mut mt, ino, 0, b"x"), Err(Errno::NoEnt));
}

#[test]
fn commands_through_the_root_control_file() {
    let mut w = World::new();
    let mut m = manager();
    m.create_branch("b1", "main").unwrap();
    let mut mt = mount(&m, "main");
    assert_eq!(write(&mut w, &mut m, &mut mt, CTL_INO, 0, b"bogus"), Err(Errno::Inval));
    assert_eq!(write(&mut w, &mut m, &mut mt, CTL_INO, 0, b"switch:"), Err(Errno::Inval));
    assert_eq!(write(&mut w, &mut m, &mut mt, CTL_INO, 0, b"switch:nope"), Err(Errno::NoEnt));
    assert_eq!(mt.fs.get_branch_name(), "main");
    // main cannot be committed or aborted.
    assert_eq!(write(&mut w, &mut m, &mut mt, CTL_INO, 0, b"commit"), Err(Errno::Io));
    assert_eq!(write(&mut w, &mut m, &mut mt, CTL_INO, 0, b"abort"), Err(Errno::Io));
    assert_eq!(write(&mut w, &mut m, &mut mt, CTL_INO, 0, b" SWITCH: b1\n"), Ok(12));
    assert_eq!(mt.fs.get_branch_name(), "b1");
    assert_eq!(write(&mut w, &mut m, &mut mt, CTL_INO, 0, b"Abort"), Ok(5));
    assert_eq!(mt.fs.get_branch_name(), "main");
    assert_eq!(m.get_epoch(), 0);
    assert!(!m.is_branch_valid("b1"));
}

#[test]
fn root_control_actions() {
    let mut m = manager();
    m.create_branch("b1", "main").unwrap();
    m.create_branch("b2", "b1").unwrap();
    let mut fs = BranchFs::new(&m, "b2".to_string());
    assert_eq!(
        fs.handle_root_ctl_write(&m, b"commit"),
        Ok(CtlAction::Commit { branch: "b2".to_string(), parent: "b1".to_string() })
    );
    assert_eq!(
        fs.handle_root_ctl_write(&m, b"abort"),
        Ok(CtlAction::Abort { branch: "b2".to_string(), parent: "b1".to_string() })
    );
    assert_eq!(fs.handle_root_ctl_write(&m, b"switch:main"), Ok(CtlAction::Switched));
    assert_eq!(
        fs.handle_root_ctl_write(&m, b"commit"),
        Ok(CtlAction::Commit { branch: "main".to_string(), parent: "main".to_string() })
    );
    assert_eq!(fs.handle_root_ctl_write(&m, b"x"), Err(Errno::Inval));
}

#[test]
fn commands_through_a_branch_control_file() {
    let mut w = World::new();
    w.put("/s/branches/b1/files/n", b"new");
    let mut m = manager();
    m.create_branch("b1", "main").unwrap();
    let mut mt = mount(&m, "main");
    let dir = ino_of(&w, &m, &mut mt, ROOT_INO, "@b1");
    let ctl = ino_of(&w, &m, &mut mt, dir, ".branchfs_ctl");
    assert_eq!(write(&mut w, &mut m, &mut mt, ctl, 0, b"switch:b1"), Err(Errno::Inval));
    assert_eq!(write(&mut w, &mut m, &mut mt, ctl, 0, b"nonsense"), Err(Errno::Inval));
    assert_eq!(
        mt.fs.handle_branch_ctl_write(&m, "b1", b"abort"),
        Ok(CtlAction::Abort { branch: "b1".to_string(), parent: "main".to_string() })
    );
    assert_eq!(write(&mut w, &mut m, &mut mt, ctl, 0, b"commit"), Ok(6));
    assert_eq!(w.get("/base/n"), Some(b"new".to_vec()));
    assert_eq!(m.get_epoch(), 1);
    assert_eq!(mt.fs.get_branch_name(), "main");
    assert!(!mt.fs.is_stale(&m));
    assert_eq!(mt.fs.inodes().all_inos(), vec![1]);
}

#[test]
fn ioctl_commits_and_aborts_the_current_branch() {
    let mut w = World::new();
    w.put("/s/branches/b1/files/n", b"new");
    let mut m = manager();
    m.create_branch("b1", "main").unwrap();
    let mut mt = mount(&m, "b1");
    assert_eq!(ioctl(&mut w, &mut m, &mut mt, 0x1234), Err(Errno::NoTty));
    assert_eq!(
        mt.fs.ioctl(&m, BRANCHFS_IOC_ABORT),
        Ok(CtlAction::Abort { branch: "b1".to_string(), parent: "main".to_string() })
    );
    assert_eq!(ioctl(&mut w, &mut m, &mut mt, BRANCHFS_IOC_COMMIT), Ok(()));
    assert_eq!(mt.fs.get_branch_name(), "main");
    assert_eq!(m.get_epoch(), 1);
    assert_eq!(w.get("/base/n"), Some(b"new".to_vec()));
    assert_eq!(ioctl(&mut w, &mut m, &mut mt, BRANCHFS_IOC_COMMIT), Err(Errno::Io));
    m.create_branch("b9", "main").unwrap();
    mt.fs.switch_to_branch(&m, "b9");
    assert_eq!(ioctl(&mut w, &mut m, &mut mt, BRANCHFS_IOC_ABORT), Ok(()));
    assert_eq!(m.get_epoch(), 1);
    assert!(!m.is_branch_valid("b9"));
    mt.fs.switch_to_branch(&m, "nope");
    assert_eq!(ioctl(&mut w, &mut m, &mut mt, BRANCHFS_IOC_ABORT), Err(Errno::NoEnt));
}

#[test]
fn create_makes_a_delta() {
    let mut w = World::new();
    w.put("/base/dir/x", b"");
    let mut m = manager();
    m.create_branch("b1", "main").unwrap();
    let mut mt = mount(&m, "b1");
    let plan = mt.fs.create(&m, ROOT_INO, "n.txt", 0o666, 0o022).unwrap();
    assert_eq!(plan.delta, "/s/branches/b1/files/n.txt");
    assert_eq!(plan.inode_path, "/n.txt");
    assert_eq!(plan.mode, 0o644);
    assert!(!plan.is_dir);
    assert!(plan.recheck);
    let e = create(&mut w, &m, &mut mt, ROOT_INO, "n.txt", false).unwrap();
    assert_eq!(e, Entry { ino: 2, attr: Attr::Storage("/s/branches/b1/files/n.txt".to_string()) });
    assert_eq!(w.get("/s/branches/b1/files/n.txt"), Some(vec![]));
    assert_eq!(lookup(&w, &m, &mut mt, ROOT_INO, "n.txt"), Ok(e));
    let dir = walk_to(&w, &m, &mut mt, "/dir").unwrap();
    let inner = create(&mut w, &m, &mut mt, dir, "y", false).unwrap();
    assert_eq!(inner.attr, Attr::Storage("/s/branches/b1/files/dir/y".to_string()));
    assert_eq!(mt.fs.inodes().get_path(inner.ino), Some("/dir/y".to_string()));
    assert_eq!(mt.fs.create(&m, 999, "x", 0, 0), Err(Errno::NoEnt));
}

#[test]
fn mkdir_makes_a_directory_in_the_delta() {
    let mut w = World::new();
    let mut m = manager();
    m.create_branch("b1", "main").unwrap();
    let mut mt = mount(&m, "main");
    let at = ino_of(&w, &m, &mut mt, ROOT_INO, "@b1");
    let plan = mt.fs.mkdir(&m, at, "d", 0o777, 0o027).unwrap();
    assert_eq!(plan.delta, "/s/branches/b1/files/d");
    assert_eq!(plan.inode_path, "/@b1/d");
    assert_eq!(plan.mode, 0o750);
    assert!(plan.is_dir);
    assert!(!plan.recheck);
    let d = create(&mut w, &m, &mut mt, at, "d", true).unwrap();
    assert!(mt.fs.inodes().get_info(d.ino).unwrap().is_dir);
    assert_eq!(w.kind("/s/branches/b1/files/d"), Some(FileKind::Directory));
    let f = create(&mut w, &m, &mut mt, d.ino, "f", false).unwrap();
    assert_eq!(f.attr, Attr::Storage("/s/branches/b1/files/d/f".to_string()));
    assert_eq!(mt.fs.inodes().get_path(f.ino), Some("/@b1/d/f".to_string()));
    let ctl = ino_of(&w, &m, &mut mt, at, ".branchfs_ctl");
    assert_eq!(mt.fs.mkdir(&m, ctl, "x", 0, 0), Err(Errno::NoEnt));
    m.abort_single("b1");
    assert_eq!(mt.fs.mkdir(&m, at, "e", 0, 0), Err(Errno::NoEnt));
    assert_eq!(mt.fs.create(&m, d.ino, "e", 0, 0), Err(Errno::NoEnt));
}

#[test]
fn a_create_that_went_stale_is_undone() {
    let mut w = World::new();
    let mut m = manager();
    m.create_branch("b1", "main").unwrap();
    let mut mt = mount(&m, "b1");
    let plan = mt.fs.create(&m, ROOT_INO, "n", 0o600, 0).unwrap();
    w.put(&plan.delta, b"");
    m.abort_single("b1");
    assert_eq!(mt.fs.created(&m, &plan), Err(Errno::Stale));
    assert_eq!(mt.fs.inodes().get_ino("/n"), None);
}

#[test]
fn unlink_plans() {
    let mut w = World::new();
    w.put("/base/a.txt", b"hello");
    let mut m = manager();
    m.create_branch("b1", "main").unwrap();
    let mut mt = mount(&m, "b1");
    let plan = mt.fs.unlink(&m, ROOT_INO, "a.txt").unwrap();
    assert_eq!(plan.branch, "b1");
    assert_eq!(plan.rel, "/a.txt");
    assert_eq!(plan.log_line, Some("/a.txt\n".to_string()));
    assert_eq!(plan.log_file, "/s/branches/b1/tombstones");
    assert_eq!(plan.delta, "/s/branches/b1/files/a.txt");
    assert_eq!(plan.inode_path, "/a.txt");
    assert!(plan.recheck);
    assert_eq!(mt.fs.rmdir(&m, ROOT_INO, "a.txt"), Ok(plan.clone()));
    let ino = walk_to(&w, &m, &mut mt, "/a.txt").unwrap();
    assert_eq!(mt.fs.unlinked(&mut m, &plan), Ok(()));
    assert_eq!(mt.fs.inodes().get_path(ino), None);
    // The second unlink needs no line in the log.
    let again = mt.fs.unlink(&m, ROOT_INO, "a.txt").unwrap();
    assert_eq!(again.log_line, None);
    assert_eq!(unlink(&mut w, &mut m, &mut mt, ROOT_INO, "a.txt"), Ok(()));
    assert_eq!(m.with_branch("b1", |b| Ok(b.get_tombstones())), Ok(vec!["/a.txt".to_string()]));
}

#[test]
fn unlink_removes_the_delta() {
    let mut w = World::new();
    w.put("/base/a.txt", b"hello");
    let mut m = manager();
    m.create_branch("b1", "main").unwrap();
    let mut mt = mount(&m, "main");
    let dir = walk_to(&w, &m, &mut mt, "/@b1").unwrap();
    let ino = walk_to(&w, &m, &mut mt, "/@b1/a.txt").unwrap();
    write(&mut w, &mut m, &mut mt, ino, 0, b"J").unwrap();
    assert!(w.get("/s/branches/b1/files/a.txt").is_some());
    assert_eq!(unlink(&mut w, &mut m, &mut mt, dir, "a.txt"), Ok(()));
    assert_eq!(w.get("/s/branches/b1/files/a.txt"), None);
    assert_eq!(read_path(&w, &m, &mut mt, "/@b1/a.txt"), Err(Errno::NoEnt));
    assert_eq!(read_path(&w, &m, &mut mt, "/a.txt"), Ok(b"hello".to_vec()));
}

#[test]
fn synthetic_entries_cannot_be_unlinked() {
    let w = World::new();
    let mut m = manager();
    m.create_branch("b1", "main").unwrap();
    m.create_branch("b2", "b1").unwrap();
    let mut mt = mount(&m, "main");
    let dir = ino_of(&w, &m, &mut mt, ROOT_INO, "@b1");
    let ctl = ino_of(&w, &m, &mut mt, dir, ".branchfs_ctl");
    assert_eq!(mt.fs.unlink(&m, dir, "@b2").err(), Some(Errno::Perm));
    assert_eq!(mt.fs.unlink(&m, dir, ".branchfs_ctl").err(), Some(Errno::Perm));
    assert_eq!(mt.fs.unlink(&m, ROOT_INO, "@b1").err(), Some(Errno::Perm));
    assert_eq!(mt.fs.unlink(&m, ROOT_INO, ".branchfs_ctl").err(), Some(Errno::Perm));
    assert_eq!(mt.fs.rmdir(&m, dir, "@b2").err(), Some(Errno::Perm));
    assert_eq!(mt.fs.unlink(&m, ctl, "x").err(), Some(Errno::NoEnt));
    assert_eq!(mt.fs.unlink(&m, 999, "x").err(), Some(Errno::NoEnt));
    m.abort("b1").unwrap();
    assert_eq!(mt.fs.unlink(&m, dir, "x").err(), Some(Errno::NoEnt));
    assert_eq!(mt.fs.unlink(&m, dir, "@b2").err(), Some(Errno::Perm));
}

#[test]
fn an_unlink_whose_branch_went_away() {
    let mut m = manager();
    m.create_branch("b1", "main").unwrap();
    let through_root = BranchFs::new(&m, "b1".to_string());
    let plan = through_root.unlink(&m, ROOT_INO, "a").unwrap();
    let mut fs = BranchFs::new(&m, "main".to_string());
    let at = fs.lookup(&m, &Snapshot::new(), ROOT_INO, "@b1").unwrap().ino;
    let seen = fs.unlink(&m, at, "a").unwrap();
    m.abort_single("b1");
    let mut stale = through_root;
    assert_eq!(stale.unlinked(&mut m, &plan), Err(Errno::Stale));
    assert_eq!(fs.unlinked(&mut m, &seen), Err(Errno::NoEnt));
}

#[test]
fn setattr_changes_the_delta() {
    let mut w = World::new();
    w.put("/base/a.txt", b"hello");
    let mut m = manager();
    m.create_branch("b1", "main").unwrap();
    let mut mt = mount(&m, "b1");
    let ino = walk_to(&w, &m, &mut mt, "/a.txt").unwrap();
    let disk = w.snapshot(&mt.fs.probes(&m, ino));
    let plan = mt.fs.setattr(&m, &disk, ino, true, Some(2)).unwrap();
    assert_eq!(plan.copy_from, Some("/base/a.txt".to_string()));
    assert_eq!(plan.delta, Some("/s/branches/b1/files/a.txt".to_string()));
    assert_eq!(plan.size, Some(2));
    assert_eq!(plan.entry, Entry { ino, attr: Attr::Storage("/s/branches/b1/files/a.txt".to_string()) });
    let look = mt.fs.setattr(&m, &disk, ino, false, None).unwrap();
    assert_eq!(look.copy_from, None);
    assert_eq!(look.delta, None);
    assert_eq!(look.entry, Entry { ino, attr: Attr::Storage("/base/a.txt".to_string()) });
    let chmod = mt.fs.setattr(&m, &disk, ino, true, None).unwrap();
    assert_eq!(chmod.copy_from, Some("/base/a.txt".to_string()));
    assert_eq!(chmod.size, None);
    m.add_tombstone("b1", "/a.txt").unwrap();
    assert_eq!(mt.fs.setattr(&m, &disk, ino, true, Some(0)), Err(Errno::NoEnt));
}

#[test]
fn setattr_with_a_size_drops_both_descriptors() {
    let mut w = World::new();
    w.put("/base/a.txt", b"hello");
    let mut m = manager();
    m.create_branch("b1", "main").unwrap();
    let mut mt = mount(&m, "b1");
    let ino = walk_to(&w, &m, &mut mt, "/a.txt").unwrap();
    assert_eq!(read(&w, &m, &mut mt, ino, 0, 9), Ok(b"hello".to_vec()));
    let disk = w.snapshot(&mt.fs.probes(&m, ino));
    assert_eq!(mt.fs.read(&m, &disk, ino).unwrap().source, ReadSource::Cached);
    mt.fs.setattr(&m, &disk, ino, true, None).unwrap();
    assert_eq!(mt.fs.read(&m, &disk, ino).unwrap().source, ReadSource::Cached);
    mt.fs.setattr(&m, &disk, ino, true, Some(1)).unwrap();
    assert_eq!(mt.fs.read(&m, &disk, ino).unwrap().source, ReadSource::Open("/base/a.txt".to_string()));
}

#[test]
fn setattr_of_synthetic_entries() {
    let w = World::new();
    let mut m = manager();
    m.create_branch("b1", "main").unwrap();
    let mut mt = mount(&m, "main");
    let dir = ino_of(&w, &m, &mut mt, ROOT_INO, "@b1");
    let ctl = ino_of(&w, &m, &mut mt, dir, ".branchfs_ctl");
    let none = Snapshot::new();
    let root_ctl = mt.fs.setattr(&m, &none, CTL_INO, true, Some(0)).unwrap();
    assert_eq!(root_ctl.entry, Entry { ino: CTL_INO, attr: Attr::Ctl });
    assert_eq!(root_ctl.delta, None);
    assert_eq!(mt.fs.setattr(&m, &none, ctl, true, None).unwrap().entry, Entry { ino: ctl, attr: Attr::Ctl });
    assert_eq!(mt.fs.setattr(&m, &none, dir, true, None), Err(Errno::Perm));
    assert_eq!(mt.fs.setattr(&m, &none, 999, true, None), Err(Errno::NoEnt));
    m.abort_single("b1");
    assert_eq!(mt.fs.setattr(&m, &none, ctl, true, None), Err(Errno::NoEnt));
}

#[test]
fn readdir_of_the_mount_root() {
    let mut w = World::new();
    w.put("/base/a.txt", b"a");
    w.put("/base/dir/x", b"x");
    let mut m = manager();
    m.create_branch("b1", "main").unwrap();
    m.create_branch("b2", "b1").unwrap();
    let mut mt = mount(&m, "main");
    let entries = readdir(&w, &m, &mut mt, ROOT_INO).unwrap();
    assert_eq!(names(&entries), vec![".", "..", "dir", "a.txt", ".branchfs_ctl", "@b1", "@b2"]);
    assert_eq!(entries[0].ino, 1);
    assert_eq!(entries[1].ino, 1);
    assert!(entries[0].is_dir && entries[1].is_dir && entries[2].is_dir);
    assert!(!entries[3].is_dir && !entries[4].is_dir);
    assert_eq!(entries[4].ino, CTL_INO);
    assert!(entries[5].is_dir && entries[6].is_dir);
    assert_eq!(mt.fs.inodes().get_path(entries[2].ino), Some("/dir".to_string()));
    assert_eq!(mt.fs.inodes().get_path(entries[3].ino), Some("/a.txt".to_string()));
    assert_eq!(mt.fs.inodes().get_path(entries[5].ino), Some("/@b1".to_string()));
    assert_eq!(mt.fs.inodes().get_path(entries[6].ino), Some("/@b2".to_string()));
    // A second listing hands out the same numbers.
    assert_eq!(readdir(&w, &m, &mut mt, ROOT_INO).unwrap(), entries);
    assert_eq!(lookup(&w, &m, &mut mt, ROOT_INO, "a.txt").unwrap().ino, entries[3].ino);
}

#[test]
fn readdir_of_a_branch_root() {
    let mut w = World::new();
    w.put("/base/a.txt", b"a");
    w.put("/base/both", b"base");
    w.mkdirs("/s/branches/b1/files/both");
    w.put("/s/branches/b1/files/new.txt", b"n");
    let mut m = manager();
    m.create_branch("b1", "main").unwrap();
    m.create_branch("b2", "b1").unwrap();
    m.create_branch("other", "main").unwrap();
    let mut mt = mount(&m, "main");
    let at = ino_of(&w, &m, &mut mt, ROOT_INO, "@b1");
    let entries = readdir(&w, &m, &mut mt, at).unwrap();
    assert_eq!(names(&entries), vec![".", "..", "both", "new.txt", "a.txt", ".branchfs_ctl", "@b2"]);
    assert_eq!(entries[0].ino, at);
    // The branch's directory hides the base's file of the same name.
    assert!(entries[2].is_dir);
    assert_eq!(mt.fs.inodes().get_path(entries[2].ino), Some("/@b1/both".to_string()));
    assert_eq!(mt.fs.inodes().get_path(entries[4].ino), Some("/@b1/a.txt".to_string()));
    assert_eq!(entries[5].ino, BRANCH_CTL_START);
    assert_eq!(mt.fs.inodes().get_path(entries[6].ino), Some("/@b1/@b2".to_string()));
    assert_eq!(lookup(&w, &m, &mut mt, at, "@b2").unwrap().ino, entries[6].ino);
}

#[test]
fn readdir_of_directories_below() {
    let mut w = World::new();
    w.put("/base/dir/x", b"x");
    w.put("/s/branches/b1/files/dir/y", b"y");
    let mut m = manager();
    m.create_branch("b1", "main").unwrap();
    let mut mt = mount(&m, "b1");
    let dir = walk_to(&w, &m, &mut mt, "/dir").unwrap();
    let entries = readdir(&w, &m, &mut mt, dir).unwrap();
    assert_eq!(names(&entries), vec![".", "..", "y", "x"]);
    assert_eq!(mt.fs.inodes().get_path(entries[2].ino), Some("/dir/y".to_string()));
    let seen = walk_to(&w, &m, &mut mt, "/@b1/dir").unwrap();
    let entries = readdir(&w, &m, &mut mt, seen).unwrap();
    assert_eq!(names(&entries), vec![".", "..", "y", "x"]);
    assert_eq!(mt.fs.inodes().get_path(entries[3].ino), Some("/@b1/dir/x".to_string()));
    let mut on_main = mount(&m, "main");
    let dir = walk_to(&w, &m, &mut on_main, "/dir").unwrap();
    assert_eq!(names(&readdir(&w, &m, &mut on_main, dir).unwrap()), vec![".", "..", "x"]);
}

#[test]
fn readdir_of_a_file_is_refused() {
    let mut w = World::new();
    w.put("/base/a.txt", b"a");
    let mut m = manager();
    m.create_branch("b1", "main").unwrap();
    let mut mt = mount(&m, "main");
    let plain = walk_to(&w, &m, &mut mt, "/a.txt").unwrap();
    let seen = walk_to(&w, &m, &mut mt, "/@b1/a.txt").unwrap();
    let ctl = ino_of(&w, &m, &mut mt, ROOT_INO, "@b1");
    let ctl = ino_of(&w, &m, &mut mt, ctl, ".branchfs_ctl");
    assert_eq!(readdir(&w, &m, &mut mt, plain).err(), Some(Errno::NotDir));
    assert_eq!(readdir(&w, &m, &mut mt, seen).err(), Some(Errno::NotDir));
    assert_eq!(readdir(&w, &m, &mut mt, ctl).err(), Some(Errno::NoEnt));
}

#[test]
fn readdir_of_what_is_no_directory() {
    let w = World::new();
    let mut m = manager();
    m.create_branch("b1", "main").unwrap();
    let mut mt = mount(&m, "main");
    let at = ino_of(&w, &m, &mut mt, ROOT_INO, "@b1");
    let none = Snapshot::new();
    assert_eq!(mt.fs.readdir_plan(&m, &none, 999).err(), Some(Errno::NoEnt));
    m.abort_single("b1");
    assert_eq!(mt.fs.readdir_plan(&m, &none, at).err(), Some(Errno::NoEnt));
}

#[test]
fn listing_plans() {
    let mut w = World::new();
    w.put("/base/dir/x", b"x");
    w.put("/s/branches/b1/files/dir/y", b"y");
    let mut m = manager();
    m.create_branch("b1", "main").unwrap();
    let mut mt = mount(&m, "b1");
    let dir = walk_to(&w, &m, &mut mt, "/dir").unwrap();
    let disk = w.snapshot(&mt.fs.probes(&m, dir));
    let plan = mt.fs.readdir_plan(&m, &disk, dir).unwrap();
    assert_eq!(plan.ino, dir);
    assert_eq!(plan.branch, "b1");
    assert_eq!(plan.rel, "/dir");
    assert_eq!(plan.prefix, "");
    assert_eq!(plan.base_dir, "/base/dir");
    assert_eq!(plan.delta_dir, Some("/s/branches/b1/files/dir".to_string()));
    assert!(!plan.branch_root && !plan.mount_root && plan.recheck);
    let root = mt.fs.readdir_plan(&m, &w.snapshot(&mt.fs.probes(&m, ROOT_INO)), ROOT_INO).unwrap();
    assert_eq!(root.rel, "/");
    assert_eq!(root.base_dir, "/base/");
    assert_eq!(root.delta_dir, Some("/s/branches/b1/files/".to_string()));
    assert!(root.mount_root && !root.branch_root);
    let (entries, full) = mt.fs.collect_readdir_entries(
        &plan,
        &vec![("y".to_string(), false)],
        &vec![("x".to_string(), false), ("y".to_string(), true)],
    );
    assert!(!full);
    assert_eq!(names(&entries), vec![".", "..", "y", "x"]);
    assert!(!entries[2].is_dir);
    let (seen, _) = mt.fs.collect_branch_readdir_entries(&plan, &vec![("y".to_string(), false)], &vec![]);
    assert_eq!(mt.fs.inodes().get_path(seen[2].ino), Some("/@b1/dir/y".to_string()));
}

#[test]
fn places_of_inodes() {
    let mut w = World::new();
    w.put("/base/dir/x", b"x");
    let mut m = manager();
    m.create_branch("b1", "main").unwrap();
    let mut mt = mount(&m, "b1");
    let x = walk_to(&w, &m, &mut mt, "/dir/x").unwrap();
    let seen = walk_to(&w, &m, &mut mt, "/@b1/dir").unwrap();
    let at = walk_to(&w, &m, &mut mt, "/@b1").unwrap();
    assert_eq!(mt.fs.locate(ROOT_INO), Some(("b1".to_string(), "/".to_string())));
    assert_eq!(mt.fs.locate(x), Some(("b1".to_string(), "/dir/x".to_string())));
    assert_eq!(mt.fs.locate(seen), Some(("b1".to_string(), "/dir".to_string())));
    assert_eq!(mt.fs.locate(at), Some(("b1".to_string(), "/".to_string())));
    assert_eq!(mt.fs.locate(CTL_INO), None);
    assert_eq!(mt.fs.locate(999), None);
    assert_eq!(mt.fs.locate_child(seen, "x"), Some(("b1".to_string(), "/dir/x".to_string())));
    assert_eq!(mt.fs.locate_child(ROOT_INO, "n"), Some(("b1".to_string(), "/n".to_string())));
    assert_eq!(mt.fs.locate_child(CTL_INO, "n"), None);
    assert_eq!(
        mt.fs.probes_for_child(&m, ROOT_INO, "n"),
        vec!["/s/branches/b1/files/n", "/s/branches/main/files/n", "/base/n"]
    );
    assert!(mt.fs.probes(&m, CTL_INO).is_empty());
    assert_eq!(mt.fs.get_delta_path(&m, "/q"), Ok("/s/branches/b1/files/q".to_string()));
    assert_eq!(
        mt.fs.get_delta_path_for_branch(&m, "nope", "/q"),
        Err(BranchError::NotFound("nope".to_string()))
    );
    let disk = w.snapshot(&mt.fs.probes(&m, x));
    assert_eq!(mt.fs.resolve(&m, &disk, "/dir/x"), Some("/base/dir/x".to_string()));
    assert_eq!(mt.fs.resolve_for_branch(&m, &disk, "nope", "/dir/x"), None);
    assert_eq!(
        mt.fs.ensure_cow(&m, &disk, "/dir/x"),
        Ok((Some("/base/dir/x".to_string()), "/s/branches/b1/files/dir/x".to_string()))
    );
    assert!(mt.fs.ensure_cow_for_branch(&m, &disk, "nope", "/dir/x").is_err());
    assert!(mt.fs.has_ctl_room());
    assert_eq!(mt.fs.get_or_create_branch_ctl_ino("zz"), BRANCH_CTL_START);
    assert_eq!(mt.fs.get_or_create_branch_ctl_ino("zz"), BRANCH_CTL_START);
    assert!(mt.fs.classify_ino(ROOT_INO).is_some());
    assert!(mt.fs.classify_ino(31337).is_none());
}

#[test]
fn block_counts() {
    assert_eq!(BLOCK_SIZE, 512);
    assert_eq!(block_count(0), 0);
    assert_eq!(block_count(1), 1);
    assert_eq!(block_count(511), 1);
    assert_eq!(block_count(512), 1);
    assert_eq!(block_count(513), 2);
    assert_eq!(block_count(1024), 2);
    assert_eq!(block_count(u64::MAX), (u64::MAX / 512) + 1);
}

#[test]
fn synthetic_attributes() {
    assert_eq!(
        synthetic_dir_attr(7, 1000, 100),
        FileAttributes {
            ino: 7,
            size: 0,
            blocks: 0,
            kind: FileKind::Directory,
            perm: 0o755,
            nlink: 2,
            uid: 1000,
            gid: 100,
            rdev: 0,
            blksize: 512,
            flags: 0,
        }
    );
    assert_eq!(
        ctl_file_attr(CTL_INO, 0, 0),
        FileAttributes {
            ino: CTL_INO,
            size: 0,
            blocks: 0,
            kind: FileKind::RegularFile,
            perm: 0o600,
            nlink: 1,
            uid: 0,
            gid: 0,
            rdev: 0,
            blksize: 512,
            flags: 0,
        }
    );
}

#[test]
fn attributes_of_stored_files() {
    let a = make_attr(9, 1025, FileKind::RegularFile, 0o100644, 1, 5, 6);
    assert_eq!(
        a,
        FileAttributes {
            ino: 9,
            size: 1025,
            blocks: 3,
            kind: FileKind::RegularFile,
            perm: 0o100644u32 as u16,
            nlink: 1,
            uid: 5,
            gid: 6,
            rdev: 0,
            blksize: 512,
            flags: 0,
        }
    );
    assert_eq!(a.perm, 0o100644);
    let d = make_attr(3, 0, FileKind::Directory, 0o40755, 4, 0, 0);
    assert_eq!((d.blocks, d.perm, d.nlink), (0, 0o40755, 4));
    let wide = make_attr(3, 0, FileKind::Symlink, 0x1_01ff, (1 << 32) + 7, 0, 0);
    assert_eq!((wide.perm, wide.nlink), (0o777, 7));
}

#[test]
fn parents_exist_after_create_and_commit() {
    let mut m = manager();
    m.create_branch("a", "main").unwrap();
    m.create_branch("b", "a").unwrap();
    m.create_branch("c", "b").unwrap();
    for (name, parent) in m.list_branches() {
        match parent {
            Some(p) => assert!(m.is_branch_valid(&p)),
            None => assert_eq!(name, "main"),
        }
    }
    m.commit("c").unwrap();
    assert_eq!(m.list_branches(), vec![("main".to_string(), None)]);
}
