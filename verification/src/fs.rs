//! The view of one mount and the filesystem requests made through it.
//!
//! Each request is a function from the view, the branch manager and a
//! snapshot of the storage to an answer: an entry, an error code, or a plan
//! of what to do on the storage. Requests that have to look at staleness a
//! second time, after the storage was touched, come in two parts.

use vstd::prelude::*;
use crate::classify::{classify_path, PathContext};
use crate::ctl::{parse_command, utf8_lossy, CtlCommand, BRANCHFS_IOC_ABORT, BRANCHFS_IOC_COMMIT};
use crate::disk::{FileKind, Snapshot};
use crate::error::{BranchError, Errno};
use crate::inode::{InodeManager, InodeOp, DENSE_END, ROOT_INO};
use crate::manager::BranchManager;
use crate::model::{
    read_window, ActionView, AttrView, CreateView, Ctx, DirEntryView, EntryView, FsState, ListView,
    Listed, ReadView, SetattrView, SourceView, UnlinkView, WriteView, BRANCH_CTL_START, CTL_INO,
};
use crate::paths::{branch_path, child_path, join_path};
use crate::table::StrMap;
use crate::text::{chars_to_string, concat, str_chars, views};
use crate::tree::probes;

verus! {

/// Size of the blocks in which file sizes are reported.
pub const BLOCK_SIZE: u32 = 512;

/// Where the attributes of an entry come from.
#[derive(Debug, Clone, PartialEq, Eq)]
pub enum Attr {
    /// A synthetic directory: mode `0755`, two links, no size.
    Dir,
    /// A synthetic control file: mode `0600`, one link, no size.
    Ctl,
    /// The file at this storage path.
    Storage(String),
}

/// An entry handed to the kernel.
#[derive(Debug, Clone, PartialEq, Eq)]
pub struct Entry {
    pub ino: u64,
    pub attr: Attr,
}

/// A command for the caller to carry out on the manager.
#[derive(Debug, Clone, PartialEq, Eq)]
pub enum CtlAction {
    /// The view has switched; nothing is left to do.
    Switched,
    /// Commit `branch`, then switch the view to `parent`.
    Commit { branch: String, parent: String },
    /// Abort `branch`, then switch the view to `parent`.
    Abort { branch: String, parent: String },
}

/// How to get at the bytes of a file that is read.
#[derive(Debug, Clone, PartialEq, Eq)]
pub enum ReadSource {
    /// The descriptor kept from the last read.
    Cached,
    /// The file at this storage path, whose descriptor is kept from now on.
    Open(String),
}

/// What a read does.
#[derive(Debug, Clone, PartialEq, Eq)]
pub struct ReadPlan {
    pub source: ReadSource,
    /// Whether staleness has to be looked at again after the bytes are read.
    pub recheck: bool,
}

/// What a write does.
#[derive(Debug, Clone, PartialEq, Eq)]
pub enum WritePlan {
    /// The bytes were a command.
    Control(CtlAction),
    /// Write the bytes to `delta` at `offset`, after `copy_from`, if there is
    /// one, has been copied there. `reuse` says that the descriptor kept from
    /// the last write is for this file.
    Data { copy_from: Option<String>, delta: String, offset: u64, reuse: bool, recheck: bool },
}

/// What creating a file or a directory does.
#[derive(Debug, Clone, PartialEq, Eq)]
pub struct CreatePlan {
    pub delta: String,
    pub inode_path: String,
    pub mode: u32,
    pub is_dir: bool,
    pub recheck: bool,
}

/// What removing a name does.
#[derive(Debug, Clone, PartialEq, Eq)]
pub struct UnlinkPlan {
    pub branch: String,
    pub rel: String,
    /// The line to append to `log_file` first, if the path is no tombstone yet.
    pub log_line: Option<String>,
    pub log_file: String,
    /// The delta to remove, if it exists.
    pub delta: String,
    pub inode_path: String,
    pub recheck: bool,
}

/// What changing attributes does.
#[derive(Debug, Clone, PartialEq, Eq)]
pub struct SetattrPlan {
    /// The file to copy to `delta` first.
    pub copy_from: Option<String>,
    /// The delta to change; `None` when nothing is to be changed.
    pub delta: Option<String>,
    /// The new size, if the size changes.
    pub size: Option<u64>,
    /// The entry to answer with.
    pub entry: Entry,
}

/// Which directories to list for a readdir.
#[derive(Debug, Clone, PartialEq, Eq)]
pub struct ListPlan {
    pub ino: u64,
    pub branch: String,
    pub rel: String,
    pub prefix: String,
    pub base_dir: String,
    pub delta_dir: Option<String>,
    pub branch_root: bool,
    pub mount_root: bool,
    pub recheck: bool,
}

/// One entry of a directory.
#[derive(Debug, Clone, PartialEq, Eq)]
pub struct DirEntry {
    pub ino: u64,
    pub is_dir: bool,
    pub name: String,
}

/// The attributes of a file, but for its times.
#[derive(Debug, Clone, Copy, PartialEq, Eq)]
pub struct FileAttributes {
    pub ino: u64,
    /// Size in bytes.
    pub size: u64,
    /// Size in blocks of `BLOCK_SIZE` bytes.
    pub blocks: u64,
    pub kind: FileKind,
    /// Permission bits.
    pub perm: u16,
    /// Number of hard links.
    pub nlink: u32,
    pub uid: u32,
    pub gid: u32,
    pub rdev: u32,
    pub blksize: u32,
    pub flags: u32,
}

/// The number of blocks of `BLOCK_SIZE` bytes that `size` bytes take.
pub open spec fn blocks_of(size: u64) -> u64 {
    if size % 512 == 0 {
        size / 512
    } else {
        (size / 512 + 1) as u64
    }
}

/// The number of blocks that `size` bytes take: the least number of blocks
/// that hold them.
pub fn block_count(size: u64) -> (r: u64)
    ensures
        r == blocks_of(size),
        r * 512 >= size,
        r > 0 ==> (r - 1) * 512 < size,
{
    if size % 512 == 0 {
        size / 512
    } else {
        size / 512 + 1
    }
}

/// The attributes of a synthetic directory: mode `0755`, two links, no size.
pub fn synthetic_dir_attr(ino: u64, uid: u32, gid: u32) -> (r: FileAttributes)
    ensures
        r == (FileAttributes {
            ino,
            size: 0,
            blocks: 0,
            kind: FileKind::Directory,
            perm: 0o755,
            nlink: 2,
            uid,
            gid,
            rdev: 0,
            blksize: BLOCK_SIZE,
            flags: 0,
        }),
{
    FileAttributes {
        ino,
        size: 0,
        blocks: 0,
        kind: FileKind::Directory,
        perm: 0o755,
        nlink: 2,
        uid,
        gid,
        rdev: 0,
        blksize: BLOCK_SIZE,
        flags: 0,
    }
}

/// The attributes of a control file: mode `0600`, one link, no size.
pub fn ctl_file_attr(ino: u64, uid: u32, gid: u32) -> (r: FileAttributes)
    ensures
        r == (FileAttributes {
            ino,
            size: 0,
            blocks: 0,
            kind: FileKind::RegularFile,
            perm: 0o600,
            nlink: 1,
            uid,
            gid,
            rdev: 0,
            blksize: BLOCK_SIZE,
            flags: 0,
        }),
{
    FileAttributes {
        ino,
        size: 0,
        blocks: 0,
        kind: FileKind::RegularFile,
        perm: 0o600,
        nlink: 1,
        uid,
        gid,
        rdev: 0,
        blksize: BLOCK_SIZE,
        flags: 0,
    }
}

/// The attributes of the file that the storage holds for inode `ino`, from
/// what the storage says of it: its size, kind, mode, link count and owner.
/// The permission bits are the low sixteen bits of the mode.
pub fn make_attr(ino: u64, size: u64, kind: FileKind, mode: u32, nlink: u64, uid: u32, gid: u32) -> (r:
    FileAttributes)
    ensures
        r == (FileAttributes {
            ino,
            size,
            blocks: blocks_of(size),
            kind,
            perm: (mode % 0x1_0000) as u16,
            nlink: (nlink % 0x1_0000_0000) as u32,
            uid,
            gid,
            rdev: 0,
            blksize: BLOCK_SIZE,
            flags: 0,
        }),
{
    FileAttributes {
        ino,
        size,
        blocks: block_count(size),
        kind,
        perm: (mode % 0x1_0000) as u16,
        nlink: (nlink % 0x1_0000_0000) as u32,
        uid,
        gid,
        rdev: 0,
        blksize: BLOCK_SIZE,
        flags: 0,
    }
}

/// The characters of an optional string.
pub open spec fn opt_view(o: Option<String>) -> Option<Seq<char>> {
    match o {
        Some(s) => Some(s@),
        None => None,
    }
}

impl View for Attr {
    type V = AttrView;

    open spec fn view(&self) -> AttrView {
        match self {
            Attr::Dir => AttrView::Dir,
            Attr::Ctl => AttrView::Ctl,
            Attr::Storage(p) => AttrView::Storage(p@),
        }
    }
}

impl View for Entry {
    type V = EntryView;

    open spec fn view(&self) -> EntryView {
        EntryView { ino: self.ino, attr: self.attr@ }
    }
}

impl View for CtlAction {
    type V = ActionView;

    open spec fn view(&self) -> ActionView {
        match self {
            CtlAction::Switched => ActionView::Switched,
            CtlAction::Commit { branch, parent } => ActionView::Commit {
                branch: branch@,
                parent: parent@,
            },
            CtlAction::Abort { branch, parent } => ActionView::Abort {
                branch: branch@,
                parent: parent@,
            },
        }
    }
}

impl View for ReadPlan {
    type V = ReadView;

    open spec fn view(&self) -> ReadView {
        ReadView {
            source: match self.source {
                ReadSource::Cached => SourceView::Cached,
                ReadSource::Open(p) => SourceView::Open(p@),
            },
            recheck: self.recheck,
        }
    }
}

impl View for WritePlan {
    type V = WriteView;

    open spec fn view(&self) -> WriteView {
        match self {
            WritePlan::Control(a) => WriteView::Control(a@),
            WritePlan::Data { copy_from, delta, offset, reuse, recheck } => WriteView::Data {
                copy_from: opt_view(*copy_from),
                delta: delta@,
                offset: *offset,
                reuse: *reuse,
                recheck: *recheck,
            },
        }
    }
}

impl View for CreatePlan {
    type V = CreateView;

    open spec fn view(&self) -> CreateView {
        CreateView {
            delta: self.delta@,
            inode_path: self.inode_path@,
            mode: self.mode,
            is_dir: self.is_dir,
            recheck: self.recheck,
        }
    }
}

impl View for UnlinkPlan {
    type V = UnlinkView;

    open spec fn view(&self) -> UnlinkView {
        UnlinkView {
            branch: self.branch@,
            rel: self.rel@,
            log_line: opt_view(self.log_line),
            log_file: self.log_file@,
            delta: self.delta@,
            inode_path: self.inode_path@,
            recheck: self.recheck,
        }
    }
}

impl View for SetattrPlan {
    type V = SetattrView;

    open spec fn view(&self) -> SetattrView {
        SetattrView {
            copy_from: opt_view(self.copy_from),
            delta: opt_view(self.delta),
            size: self.size,
            entry: self.entry@,
        }
    }
}

impl View for ListPlan {
    type V = ListView;

    open spec fn view(&self) -> ListView {
        ListView {
            ino: self.ino,
            branch: self.branch@,
            rel: self.rel@,
            prefix: self.prefix@,
            base_dir: self.base_dir@,
            delta_dir: opt_view(self.delta_dir),
            branch_root: self.branch_root,
            mount_root: self.mount_root,
            recheck: self.recheck,
        }
    }
}

impl View for DirEntry {
    type V = DirEntryView;

    open spec fn view(&self) -> DirEntryView {
        DirEntryView { ino: self.ino, is_dir: self.is_dir, name: self.name@ }
    }
}

/// The names and kinds found in a directory, over character sequences.
pub open spec fn items_view(items: Seq<(String, bool)>) -> Seq<(Seq<char>, bool)> {
    items.map_values(|e: (String, bool)| (e.0@, e.1))
}

/// Directory entries, over character sequences.
pub open spec fn entries_view(entries: Seq<DirEntry>) -> Seq<DirEntryView> {
    entries.map_values(|e: DirEntry| e@)
}

/// What a readdir answers, over character sequences.
pub open spec fn listing_answer(r: Result<Vec<DirEntry>, Errno>) -> Result<
    Seq<DirEntryView>,
    Errno,
> {
    match r {
        Ok(v) => Ok(entries_view(v@)),
        Err(e) => Err(e),
    }
}

/// `l` with the entries `done` put before its own.
pub open spec fn after(done: Seq<DirEntryView>, l: Listed) -> Listed {
    Listed { entries: done + l.entries, ..l }
}

/// Where in a list of `len` entries a readdir at `offset` begins.
pub fn entries_from(len: usize, offset: i64) -> (r: usize)
    ensures
        r == if 0 <= offset < len {
            offset as usize
        } else {
            len
        },
{
    if offset < 0 {
        return len;
    }
    if offset as u64 >= len as u64 {
        return len;
    }
    offset as usize
}

/// What `r` says, over character sequences.
pub open spec fn answer<T: View>(r: Result<T, Errno>) -> Result<T::V, Errno> {
    match r {
        Ok(t) => Ok(t@),
        Err(e) => Err(e),
    }
}

/// What a request sees of the manager and of the storage.
pub open spec fn ctx(mgr: &BranchManager, disk: &Snapshot) -> Ctx {
    Ctx {
        tree: mgr.tree(),
        epoch: mgr.epoch(),
        base: mgr.base(),
        disk: disk@,
        fuel: mgr.branch_count(),
        order: mgr.order(),
    }
}

/// What a request sees that does not look at the storage.
pub open spec fn bare(mgr: &BranchManager) -> Ctx {
    Ctx {
        tree: mgr.tree(),
        epoch: mgr.epoch(),
        base: mgr.base(),
        disk: Map::empty(),
        fuel: mgr.branch_count(),
        order: mgr.order(),
    }
}

/// The part of a file of `len` bytes that a read of `size` bytes at `offset`
/// returns.
pub fn read_range(len: usize, offset: i64, size: u32) -> (r: (usize, usize))
    ensures
        (r.0 as nat, r.1 as nat) == read_window(len as nat, offset, size),
        r.0 <= r.1 <= len,
{
    if offset < 0 {
        return (0, 0);
    }
    let start: u64 = offset as u64;
    if start >= len as u64 {
        return (0, 0);
    }
    let end: u64 = start + size as u64;
    if end < len as u64 {
        (start as usize, end as usize)
    } else {
        (start as usize, len)
    }
}

/// The view of one mount: the branch it shows, the epoch it saw, its inode
/// table, the numbers of the control files, and the descriptors it keeps.
pub struct BranchFs {
    inodes: InodeManager,
    branch_name: String,
    current_epoch: u64,
    branch_ctl_inodes: StrMap<u64>,
    next_ctl_ino: u64,
    read_cache: Option<(u64, u64)>,
    write_cache: Option<(u64, u64)>,
}

impl View for BranchFs {
    type V = FsState;

    closed spec fn view(&self) -> FsState {
        FsState {
            branch: self.branch_name@,
            epoch: self.current_epoch,
            inodes: self.inodes@,
            ctl: self.branch_ctl_inodes@,
            next_ctl: self.next_ctl_ino,
            read_cache: self.read_cache,
            write_cache: self.write_cache,
        }
    }
}

/// The inode numbers of the three kinds never meet: regular files and
/// directories are numbered below `DENSE_END`, the control files of branches
/// from there up to `BRANCH_CTL_START`, and the root's control file above.
pub proof fn law_reserved_numbers_apart(s: FsState, path: Seq<char>, branch: Seq<char>)
    requires
        s.wf(),
        s.inodes.entries.contains_key(path),
        s.ctl.contains_key(branch),
    ensures
        s.inodes.entries[path].ino < DENSE_END,
        DENSE_END < s.ctl[branch] <= BRANCH_CTL_START,
        BRANCH_CTL_START < CTL_INO,
        s.inodes.entries[path].ino != CTL_INO,
        s.ctl[branch] != ROOT_INO,
{
}

/// The number given to a control file is new: no control file and no path
/// of the inode table has it, and later control files get lower numbers.
pub proof fn law_control_numbers_are_new(s: FsState, branch: Seq<char>)
    requires
        s.wf(),
        !s.ctl.contains_key(branch),
        s.has_ctl_room(),
    ensures
        !s.has_ctl(s.ctl_ino_for(branch)),
        !s.inodes.has_ino(s.ctl_ino_for(branch)),
        s.ctl_ino_for(branch) != ROOT_INO,
        s.ctl_ino_for(branch) != CTL_INO,
        s.with_ctl(branch).wf(),
        s.with_ctl(branch).next_ctl < s.ctl_ino_for(branch),
{
    let after = s.with_ctl(branch);
    assert forall|a: Seq<char>, b: Seq<char>|
        #![trigger after.ctl[a], after.ctl[b]]
        after.ctl.contains_key(a) && after.ctl.contains_key(b) && after.ctl[a]
            == after.ctl[b] implies a == b by {
        if a != branch {
            assert(s.ctl.contains_key(a));
        }
        if b != branch {
            assert(s.ctl.contains_key(b));
        }
    }
    assert forall|b: Seq<char>| #[trigger] after.ctl.contains_key(b) implies after.next_ctl
        < after.ctl[b] <= BRANCH_CTL_START by {
        if b != branch {
            assert(s.ctl.contains_key(b));
        }
    }
}

/// Switching twice to the same branch is switching once: the second switch
/// finds the inode table cleared already and changes nothing.
pub proof fn law_switch_twice(s: FsState, epoch: u64, branch: Seq<char>)
    ensures
        s.switched(epoch, branch).switched(epoch, branch) == s.switched(epoch, branch),
{
    assert(s.inodes.clear().clear() == s.inodes.clear());
}

/// A switch makes the view fresh: right after a switch to a branch of the
/// manager the view is not stale.
pub proof fn law_switch_refreshes(s: FsState, c: Ctx, branch: Seq<char>)
    requires
        c.valid(branch),
    ensures
        !s.switched(c.epoch, branch).stale(c),
{
}

/// A commit makes every view stale that does not switch: when the manager's
/// epoch has moved on, the view is stale whatever its branch.
pub proof fn law_commit_stales(s: FsState, c: Ctx)
    requires
        c.epoch != s.epoch,
    ensures
        s.stale(c),
{
}

impl BranchFs {
    /// The view is well formed.
    pub closed spec fn wf(&self) -> bool {
        &&& self.inodes.wf()
        &&& self.branch_ctl_inodes.wf()
        &&& self@.wf()
    }

    /// A well-formed view stands for a well-formed state: the laws of
    /// `FsState` hold of what the view holds.
    pub proof fn lemma_state_wf(&self)
        requires
            self.wf(),
        ensures
            self@.wf(),
    {
    }

    /// A view of `branch_name` for a fresh mount.
    pub fn new(manager: &BranchManager, branch_name: String) -> (fs: Self)
        ensures
            fs.wf(),
            fs@ == FsState::initial(branch_name@, manager.epoch()),
    {
        BranchFs {
            inodes: InodeManager::new(),
            branch_name,
            current_epoch: manager.get_epoch(),
            branch_ctl_inodes: StrMap::new(),
            next_ctl_ino: BRANCH_CTL_START,
            read_cache: None,
            write_cache: None,
        }
    }

    /// The branch that the root of the mount shows.
    pub fn get_branch_name(&self) -> (r: String)
        ensures
            r@ == self@.branch,
    {
        self.branch_name.clone()
    }

    /// Whether the view is stale.
    pub fn is_stale(&self, manager: &BranchManager) -> (r: bool)
        requires
            manager.wf(),
        ensures
            r == self@.stale(bare(manager)),
    {
        manager.get_epoch() != self.current_epoch || !manager.is_branch_valid(
            self.branch_name.as_str(),
        )
    }

    /// Switches the view to `new_branch`: the manager's epoch is taken anew
    /// and the inode table is cleared.
    pub fn switch_to_branch(&mut self, manager: &BranchManager, new_branch: &str)
        requires
            old(self).wf(),
        ensures
            final(self).wf(),
            final(self)@ == old(self)@.switched(manager.epoch(), new_branch@),
    {
        proof {
            self.inodes@.lemma_apply(InodeOp::Clear);
        }
        self.branch_name = new_branch.to_owned();
        self.current_epoch = manager.get_epoch();
        self.inodes.clear();
    }

    /// The storage path of `path` seen from the current branch.
    pub fn resolve(&self, manager: &BranchManager, disk: &Snapshot, path: &str) -> (r: Option<
        String,
    >)
        requires
            manager.wf(),
            disk.wf(),
        ensures
            opt_view(r) == ctx(manager, disk).resolved(self@.branch, path@),
    {
        self.resolve_for_branch(manager, disk, self.branch_name.as_str(), path)
    }

    /// The storage path of `path` seen from `branch`.
    pub fn resolve_for_branch(
        &self,
        manager: &BranchManager,
        disk: &Snapshot,
        branch: &str,
        path: &str,
    ) -> (r: Option<String>)
        requires
            manager.wf(),
            disk.wf(),
        ensures
            opt_view(r) == ctx(manager, disk).resolved(branch@, path@),
    {
        match manager.resolve_path(branch, path, disk) {
            Ok(found) => found,
            Err(_) => None,
        }
    }

    /// The storage path of the current branch's delta for `rel_path`.
    pub fn get_delta_path(&self, manager: &BranchManager, rel_path: &str) -> (r: Result<
        String,
        BranchError,
    >)
        requires
            manager.wf(),
        ensures
            r is Ok <==> bare(manager).valid(self@.branch),
            r matches Ok(p) ==> p@ == bare(manager).delta(self@.branch, rel_path@),
    {
        manager.delta_path(self.branch_name.as_str(), rel_path)
    }

    /// The storage path of the delta of `branch` for `rel_path`.
    pub fn get_delta_path_for_branch(
        &self,
        manager: &BranchManager,
        branch: &str,
        rel_path: &str,
    ) -> (r: Result<String, BranchError>)
        requires
            manager.wf(),
        ensures
            r is Ok <==> bare(manager).valid(branch@),
            r matches Ok(p) ==> p@ == bare(manager).delta(branch@, rel_path@),
    {
        manager.delta_path(branch, rel_path)
    }

    /// What has to be copied before the current branch's delta for
    /// `rel_path` is written, and the delta.
    pub fn ensure_cow(&self, manager: &BranchManager, disk: &Snapshot, rel_path: &str) -> (r: Result<
        (Option<String>, String),
        BranchError,
    >)
        requires
            manager.wf(),
            disk.wf(),
        ensures
            r is Ok <==> ctx(manager, disk).valid(self@.branch),
            r matches Ok(p) ==> opt_view(p.0) == ctx(manager, disk).copy_source(
                self@.branch,
                rel_path@,
            ) && p.1@ == ctx(manager, disk).delta(self@.branch, rel_path@),
    {
        self.ensure_cow_for_branch(manager, disk, self.branch_name.as_str(), rel_path)
    }

    /// What has to be copied before the delta of `branch` for `rel_path` is
    /// written, and the delta.
    pub fn ensure_cow_for_branch(
        &self,
        manager: &BranchManager,
        disk: &Snapshot,
        branch: &str,
        rel_path: &str,
    ) -> (r: Result<(Option<String>, String), BranchError>)
        requires
            manager.wf(),
            disk.wf(),
        ensures
            r is Ok <==> ctx(manager, disk).valid(branch@),
            r matches Ok(p) ==> opt_view(p.0) == ctx(manager, disk).copy_source(branch@, rel_path@)
                && p.1@ == ctx(manager, disk).delta(branch@, rel_path@),
    {
        let delta = match manager.delta_path(branch, rel_path) {
            Ok(d) => d,
            Err(e) => {
                return Err(e);
            },
        };
        if disk.contains(delta.as_str()) {
            return Ok((None, delta));
        }
        match self.resolve_for_branch(manager, disk, branch, rel_path) {
            Some(src) => {
                if disk.is_file(src.as_str()) {
                    Ok((Some(src), delta))
                } else {
                    Ok((None, delta))
                }
            },
            None => Ok((None, delta)),
        }
    }

    /// Position of the control file numbered `ino`.
    fn find_ctl(&self, ino: u64) -> (r: Option<usize>)
        requires
            self.wf(),
        ensures
            match r {
                Some(i) => i < self.branch_ctl_inodes.size() && self@.has_ctl(ino)
                    && self.branch_ctl_inodes.key_at(i as int) == self@.branch_of_ctl(ino),
                None => !self@.has_ctl(ino),
            },
    {
        let mut i: usize = 0;
        proof {
            self.branch_ctl_inodes.lemma_entries();
        }
        while i < self.branch_ctl_inodes.len()
            invariant
                self.wf(),
                i <= self.branch_ctl_inodes.size(),
                forall|j: int| 0 <= j < i ==> self.branch_ctl_inodes.val_at(j) != ino,
            decreases self.branch_ctl_inodes.size() - i,
        {
            if *self.branch_ctl_inodes.val(i) == ino {
                proof {
                    self.branch_ctl_inodes.lemma_entries();
                    let k = self.branch_ctl_inodes.key_at(i as int);
                    assert(self@.ctl.contains_key(k) && self@.ctl[k] == ino);
                    let b = self@.branch_of_ctl(ino);
                    assert(self@.ctl.contains_key(b) && self@.ctl[b] == ino);
                    assert(self@.ctl[b] == self@.ctl[k]);
                }
                return Some(i);
            }
            i += 1;
        }
        proof {
            self.branch_ctl_inodes.lemma_entries();
            if self@.has_ctl(ino) {
                let b = self@.branch_of_ctl(ino);
                assert(self@.ctl.contains_key(b) && self@.ctl[b] == ino);
                let j = self.branch_ctl_inodes.slot(b);
                assert(self.branch_ctl_inodes.val_at(j) == ino);
            }
        }
        None
    }

    /// The branch whose control file is numbered `ino`.
    pub fn branch_for_ctl_ino(&self, ino: u64) -> (r: Option<String>)
        requires
            self.wf(),
        ensures
            match r {
                Some(b) => self@.has_ctl(ino) && b@ == self@.branch_of_ctl(ino),
                None => !self@.has_ctl(ino),
            },
    {
        match self.find_ctl(ino) {
            Some(i) => Some(self.branch_ctl_inodes.key(i).clone()),
            None => None,
        }
    }

    /// Whether a number is left for another control file.
    pub fn has_ctl_room(&self) -> (r: bool)
        ensures
            r == self@.has_ctl_room(),
    {
        self.next_ctl_ino > DENSE_END
    }

    /// The inode number of the control file of `branch`; a branch that has
    /// none yet gets the next number, counting downwards.
    pub fn get_or_create_branch_ctl_ino(&mut self, branch: &str) -> (ino: u64)
        requires
            old(self).wf(),
            old(self)@.ctl.contains_key(branch@) || old(self)@.has_ctl_room(),
        ensures
            final(self).wf(),
            ino == old(self)@.ctl_ino_for(branch@),
            final(self)@ == old(self)@.with_ctl(branch@),
    {
        match self.branch_ctl_inodes.get(branch) {
            Some(ino) => {
                return *ino;
            },
            None => {},
        }
        let ino = self.next_ctl_ino;
        proof {
            law_control_numbers_are_new(self@, branch@);
        }
        self.branch_ctl_inodes.insert(branch.to_owned(), ino);
        self.next_ctl_ino = ino - 1;
        ino
    }

    /// What the inode `ino` names.
    pub fn classify_ino(&self, ino: u64) -> (r: Option<PathContext>)
        requires
            self.wf(),
        ensures
            match r {
                Some(k) => self@.place(ino) == Some(k@),
                None => self@.place(ino) is None,
            },
    {
        if ino == ROOT_INO {
            return Some(PathContext::Root);
        }
        if ino == CTL_INO {
            return Some(PathContext::RootCtl);
        }
        match self.branch_for_ctl_ino(ino) {
            Some(b) => {
                return Some(PathContext::BranchCtl(b));
            },
            None => {},
        }
        match self.inodes.get_path(ino) {
            Some(p) => Some(classify_path(p.as_str())),
            None => None,
        }
    }

    /// An entry for `path`, which gets an inode number if it has none.
    fn enter(&mut self, path: &str, is_dir: bool, attr: Attr) -> (r: Result<Entry, Errno>)
        requires
            old(self).wf(),
        ensures
            final(self).wf(),
            (final(self)@, answer(r)) == old(self)@.enter(path@, is_dir, attr@),
    {
        if self.inodes.get_ino(path).is_none() && !self.inodes.has_room() {
            return Err(Errno::Io);
        }
        proof {
            self.inodes@.lemma_apply(InodeOp::Create(path@, is_dir));
        }
        let ino = self.inodes.get_or_create(path, is_dir);
        assert(self@.ctl == old(self)@.ctl);
        Ok(Entry { ino, attr })
    }

    /// An entry for what `rel` resolves to in `branch`.
    fn enter_resolved(
        &mut self,
        manager: &BranchManager,
        disk: &Snapshot,
        branch: &str,
        rel: &str,
        inode_path: &str,
    ) -> (r: Result<Entry, Errno>)
        requires
            old(self).wf(),
            manager.wf(),
            disk.wf(),
        ensures
            final(self).wf(),
            (final(self)@, answer(r)) == old(self)@.enter_resolved(
                ctx(manager, disk),
                branch@,
                rel@,
                inode_path@,
            ),
    {
        match self.resolve_for_branch(manager, disk, branch, rel) {
            None => Err(Errno::NoEnt),
            Some(p) => {
                let is_dir = disk.is_dir(p.as_str());
                self.enter(inode_path, is_dir, Attr::Storage(p))
            },
        }
    }

    /// Whether `branch` is a branch whose parent is `parent`.
    fn is_child_of(manager: &BranchManager, branch: &str, parent: &str) -> (r: bool)
        requires
            manager.wf(),
        ensures
            r == (manager.tree().contains_key(branch@) && manager.tree()[branch@].parent == Some(
                parent@,
            )),
    {
        match manager.parent_of(branch) {
            Some(p) => *p.as_str() == *parent,
            None => false,
        }
    }

    /// The name of a branch's `@` entry without the `@`; `None` for any other
    /// name.
    fn branch_entry(name: &str) -> (r: Option<String>)
        ensures
            match r {
                Some(b) => name@.len() > 0 && name@[0] == '@' && b@ == name@.skip(1),
                None => !(name@.len() > 0 && name@[0] == '@'),
            },
    {
        let v = str_chars(name);
        if v.len() > 0 && v[0] == '@' {
            let b = chars_to_string(&v, 1, v.len());
            assert(v@.subrange(1, v.len() as int) =~= name@.skip(1));
            Some(b)
        } else {
            None
        }
    }

    /// `lookup` of `name` in a directory of branch `b`.
    fn lookup_in_branch(
        &mut self,
        manager: &BranchManager,
        disk: &Snapshot,
        b: &str,
        parent_rel: &str,
        name: &str,
    ) -> (r: Result<Entry, Errno>)
        requires
            old(self).wf(),
            manager.wf(),
            disk.wf(),
        ensures
            final(self).wf(),
            (final(self)@, answer(r)) == old(self)@.lookup_in_branch(
                ctx(manager, disk),
                b@,
                parent_rel@,
                name@,
            ),
    {
        proof {
            reveal_strlit("/");
            reveal_strlit("/@");
            assert("/"@ =~= seq!['/']);
            assert("/@"@ =~= seq!['/', '@']);
        }
        let at_top = *parent_rel == *"/";
        if at_top && *name == *".branchfs_ctl" {
            if self.branch_ctl_inodes.get(b).is_none() && !self.has_ctl_room() {
                return Err(Errno::Io);
            }
            let ino = self.get_or_create_branch_ctl_ino(b);
            return Ok(Entry { ino, attr: Attr::Ctl });
        }
        match Self::branch_entry(name) {
            Some(child) => {
                if Self::is_child_of(manager, child.as_str(), b) && at_top {
                    let below = concat("/@", child.as_str());
                    let path = branch_path(b, below.as_str());
                    return self.enter(path.as_str(), true, Attr::Dir);
                } else {
                    return Err(Errno::NoEnt);
                }
            },
            None => {},
        }
        if !manager.is_branch_valid(b) {
            return Err(Errno::NoEnt);
        }
        let rel = child_path(parent_rel, name);
        let inode_path = branch_path(b, rel.as_str());
        self.enter_resolved(manager, disk, b, rel.as_str(), inode_path.as_str())
    }

    /// `lookup` of `name` in a directory seen through the current branch.
    fn lookup_in_root(
        &mut self,
        manager: &BranchManager,
        disk: &Snapshot,
        parent_path: &str,
        name: &str,
    ) -> (r: Result<Entry, Errno>)
        requires
            old(self).wf(),
            manager.wf(),
            disk.wf(),
        ensures
            final(self).wf(),
            (final(self)@, answer(r)) == old(self)@.lookup_in_root(
                ctx(manager, disk),
                parent_path@,
                name@,
            ),
    {
        if self.is_stale(manager) {
            return Err(Errno::Stale);
        }
        let path = child_path(parent_path, name);
        let branch = self.branch_name.clone();
        self.enter_resolved(manager, disk, branch.as_str(), path.as_str(), path.as_str())
    }

    /// Finds `name` in the directory `parent`. The entry gets an inode number
    /// if it has none yet.
    pub fn lookup(&mut self, manager: &BranchManager, disk: &Snapshot, parent: u64, name: &str) -> (r:
        Result<Entry, Errno>)
        requires
            old(self).wf(),
            manager.wf(),
            disk.wf(),
        ensures
            final(self).wf(),
            (final(self)@, answer(r)) == old(self)@.lookup(ctx(manager, disk), parent, name@),
    {
        proof {
            reveal_strlit("/");
            assert("/"@ =~= seq!['/']);
        }
        match self.classify_ino(parent) {
            None => Err(Errno::NoEnt),
            Some(PathContext::Root) => {
                if *name == *".branchfs_ctl" {
                    return Ok(Entry { ino: CTL_INO, attr: Attr::Ctl });
                }
                match Self::branch_entry(name) {
                    Some(b) => {
                        if manager.is_branch_valid(b.as_str()) && *b.as_str() != *"main" {
                            let path = branch_path(b.as_str(), "");
                            proof {
                                reveal_strlit("");
                                assert(""@ =~= Seq::<char>::empty());
                            }
                            return self.enter(path.as_str(), true, Attr::Dir);
                        } else {
                            return Err(Errno::NoEnt);
                        }
                    },
                    None => {},
                }
                self.lookup_in_root(manager, disk, "/", name)
            },
            Some(PathContext::RootPath(p)) => self.lookup_in_root(manager, disk, p.as_str(), name),
            Some(PathContext::BranchDir(b)) => self.lookup_in_branch(
                manager,
                disk,
                b.as_str(),
                "/",
                name,
            ),
            Some(PathContext::BranchPath(b, rel)) => self.lookup_in_branch(
                manager,
                disk,
                b.as_str(),
                rel.as_str(),
                name,
            ),
            Some(PathContext::RootCtl) => Err(Errno::NoEnt),
            Some(PathContext::BranchCtl(_)) => Err(Errno::NoEnt),
        }
    }

    /// The attributes of a path seen through the current branch.
    fn getattr_in_root(&self, manager: &BranchManager, disk: &Snapshot, ino: u64, rel: &str) -> (r:
        Result<Entry, Errno>)
        requires
            self.wf(),
            manager.wf(),
            disk.wf(),
        ensures
            answer(r) == self@.getattr_in_root(ctx(manager, disk), ino, rel@),
    {
        if ino != ROOT_INO && self.is_stale(manager) {
            return Err(Errno::Stale);
        }
        match self.resolve(manager, disk, rel) {
            Some(p) => Ok(Entry { ino, attr: Attr::Storage(p) }),
            None => {
                if ino == ROOT_INO {
                    Ok(Entry { ino: ROOT_INO, attr: Attr::Dir })
                } else {
                    Err(Errno::NoEnt)
                }
            },
        }
    }

    /// The attributes of `ino`.
    pub fn getattr(&self, manager: &BranchManager, disk: &Snapshot, ino: u64) -> (r: Result<
        Entry,
        Errno,
    >)
        requires
            self.wf(),
            manager.wf(),
            disk.wf(),
        ensures
            answer(r) == self@.getattr(ctx(manager, disk), ino),
    {
        proof {
            reveal_strlit("/");
            assert("/"@ =~= seq!['/']);
        }
        if ino == CTL_INO {
            return Ok(Entry { ino: CTL_INO, attr: Attr::Ctl });
        }
        match self.branch_for_ctl_ino(ino) {
            Some(b) => {
                if manager.is_branch_valid(b.as_str()) {
                    return Ok(Entry { ino, attr: Attr::Ctl });
                } else {
                    return Err(Errno::NoEnt);
                }
            },
            None => {},
        }
        let path = match self.inodes.get_path(ino) {
            Some(p) => p,
            None => {
                if ino == ROOT_INO {
                    return Ok(Entry { ino: ROOT_INO, attr: Attr::Dir });
                }
                return Err(Errno::NoEnt);
            },
        };
        match classify_path(path.as_str()) {
            PathContext::BranchDir(b) => {
                if manager.is_branch_valid(b.as_str()) {
                    Ok(Entry { ino, attr: Attr::Dir })
                } else {
                    Err(Errno::NoEnt)
                }
            },
            PathContext::BranchCtl(b) => {
                if manager.is_branch_valid(b.as_str()) {
                    Ok(Entry { ino, attr: Attr::Ctl })
                } else {
                    Err(Errno::NoEnt)
                }
            },
            PathContext::BranchPath(b, rel) => {
                if !manager.is_branch_valid(b.as_str()) {
                    return Err(Errno::NoEnt);
                }
                match self.resolve_for_branch(manager, disk, b.as_str(), rel.as_str()) {
                    Some(p) => Ok(Entry { ino, attr: Attr::Storage(p) }),
                    None => Err(Errno::NoEnt),
                }
            },
            PathContext::RootCtl => Ok(Entry { ino: CTL_INO, attr: Attr::Ctl }),
            PathContext::Root => self.getattr_in_root(manager, disk, ino, "/"),
            PathContext::RootPath(rp) => self.getattr_in_root(manager, disk, ino, rp.as_str()),
        }
    }

    /// Opens `ino`. An inode that names a file of a branch is noted with the
    /// manager as opened through that branch.
    pub fn open(&self, manager: &mut BranchManager, disk: &Snapshot, ino: u64) -> (r: Result<
        (),
        Errno,
    >)
        requires
            self.wf(),
            old(manager).wf(),
            disk.wf(),
        ensures
            final(manager).wf(),
            final(manager).tree() == old(manager).tree(),
            final(manager).order() == old(manager).order(),
            final(manager).epoch() == old(manager).epoch(),
            final(manager).storage() == old(manager).storage(),
            final(manager).base() == old(manager).base(),
            final(manager).workspace() == old(manager).workspace(),
            final(manager).state_path() == old(manager).state_path(),
            final(manager).notifiers() == old(manager).notifiers(),
            match self@.open(ctx(old(manager), disk), ino) {
                Ok(Some(b)) => r is Ok && (forall|other: Seq<char>|
                    final(manager).opened(other) == if other == b {
                        old(manager).opened(other).insert(ino)
                    } else {
                        old(manager).opened(other)
                    }),
                Ok(None) => r is Ok && (forall|other: Seq<char>|
                    final(manager).opened(other) == old(manager).opened(other)),
                Err(e) => r == Err::<(), Errno>(e) && (forall|other: Seq<char>|
                    final(manager).opened(other) == old(manager).opened(other)),
            },
    {
        if ino == CTL_INO {
            return Ok(());
        }
        if self.branch_for_ctl_ino(ino).is_some() {
            return Ok(());
        }
        let path = match self.inodes.get_path(ino) {
            Some(p) => p,
            None => {
                return Err(Errno::NoEnt);
            },
        };
        match classify_path(path.as_str()) {
            PathContext::BranchDir(_) => Ok(()),
            PathContext::BranchCtl(_) => Ok(()),
            PathContext::BranchPath(b, rel) => {
                if manager.is_branch_valid(b.as_str()) && self.resolve_for_branch(
                    manager,
                    disk,
                    b.as_str(),
                    rel.as_str(),
                ).is_some() {
                    manager.register_opened_inode(b.as_str(), ino);
                    Ok(())
                } else {
                    Err(Errno::NoEnt)
                }
            },
            _ => {
                if self.is_stale(manager) {
                    return Err(Errno::Stale);
                }
                if self.resolve(manager, disk, path.as_str()).is_some() {
                    manager.register_opened_inode(self.branch_name.as_str(), ino);
                    Ok(())
                } else {
                    Err(Errno::NoEnt)
                }
            },
        }
    }

    /// Where the bytes of `rel` in `branch` come from.
    fn fetch(
        &mut self,
        manager: &BranchManager,
        disk: &Snapshot,
        ino: u64,
        branch: &str,
        rel: &str,
        recheck: bool,
    ) -> (r: Result<ReadPlan, Errno>)
        requires
            old(self).wf(),
            manager.wf(),
            disk.wf(),
        ensures
            final(self).wf(),
            (final(self)@, answer(r)) == old(self)@.fetch(
                ctx(manager, disk),
                ino,
                branch@,
                rel@,
                recheck,
            ),
    {
        let hit = match self.read_cache {
            Some(kept) => kept.0 == ino && kept.1 == self.current_epoch,
            None => false,
        };
        if hit {
            return Ok(ReadPlan { source: ReadSource::Cached, recheck });
        }
        match self.resolve_for_branch(manager, disk, branch, rel) {
            None => Err(Errno::NoEnt),
            Some(p) => {
                self.read_cache = Some((ino, self.current_epoch));
                Ok(ReadPlan { source: ReadSource::Open(p), recheck })
            },
        }
    }

    /// Reads from `ino`: says where the bytes come from, and keeps the
    /// descriptor of a file that is opened for it.
    pub fn read(&mut self, manager: &BranchManager, disk: &Snapshot, ino: u64) -> (r: Result<
        ReadPlan,
        Errno,
    >)
        requires
            old(self).wf(),
            manager.wf(),
            disk.wf(),
        ensures
            final(self).wf(),
            (final(self)@, answer(r)) == old(self)@.read(ctx(manager, disk), ino),
    {
        proof {
            reveal_strlit("/");
            assert("/"@ =~= seq!['/']);
        }
        match self.classify_ino(ino) {
            Some(PathContext::BranchPath(b, rel)) => {
                if !manager.is_branch_valid(b.as_str()) {
                    return Err(Errno::NoEnt);
                }
                self.fetch(manager, disk, ino, b.as_str(), rel.as_str(), false)
            },
            Some(PathContext::BranchDir(_)) => Err(Errno::IsDir),
            Some(PathContext::BranchCtl(_)) => Err(Errno::IsDir),
            Some(PathContext::RootCtl) => Err(Errno::IsDir),
            Some(PathContext::Root) => {
                if self.is_stale(manager) {
                    return Err(Errno::Stale);
                }
                let branch = self.branch_name.clone();
                self.fetch(manager, disk, ino, branch.as_str(), "/", true)
            },
            Some(PathContext::RootPath(p)) => {
                if self.is_stale(manager) {
                    return Err(Errno::Stale);
                }
                let branch = self.branch_name.clone();
                self.fetch(manager, disk, ino, branch.as_str(), p.as_str(), true)
            },
            None => {
                if self.is_stale(manager) {
                    Err(Errno::Stale)
                } else {
                    Err(Errno::NoEnt)
                }
            },
        }
    }

    /// Looks at staleness again after the storage was touched.
    pub fn recheck(&self, manager: &BranchManager, recheck: bool) -> (r: Result<(), Errno>)
        requires
            manager.wf(),
        ensures
            r == self@.recheck(bare(manager), recheck),
    {
        if recheck && self.is_stale(manager) {
            Err(Errno::Stale)
        } else {
            Ok(())
        }
    }

    /// Drops the read descriptor kept for `ino`.
    pub fn forget_read(&mut self, ino: u64)
        requires
            old(self).wf(),
        ensures
            final(self).wf(),
            final(self)@ == old(self)@.without_read(ino),
    {
        let hit = match self.read_cache {
            Some(kept) => kept.0 == ino,
            None => false,
        };
        if hit {
            self.read_cache = None;
        }
    }

    /// Drops the write descriptor kept for `ino`.
    pub fn forget_write(&mut self, ino: u64)
        requires
            old(self).wf(),
        ensures
            final(self).wf(),
            final(self)@ == old(self)@.without_write(ino),
    {
        let hit = match self.write_cache {
            Some(kept) => kept.0 == ino,
            None => false,
        };
        if hit {
            self.write_cache = None;
        }
    }

    /// The branch to which a view moves when `branch` is committed or
    /// aborted: its parent, or `main`.
    fn parent_or_main(manager: &BranchManager, branch: &str) -> (r: String)
        requires
            manager.wf(),
        ensures
            r@ == bare(manager).parent_or_main(branch@),
    {
        match manager.parent_of(branch) {
            Some(p) => p,
            None => "main".to_owned(),
        }
    }

    /// A command written to the root's control file. A switch is made at
    /// once; a commit or an abort of the current branch is handed back for
    /// the caller to carry out.
    pub fn handle_root_ctl_write(&mut self, manager: &BranchManager, data: &[u8]) -> (r: Result<
        CtlAction,
        Errno,
    >)
        requires
            old(self).wf(),
            manager.wf(),
        ensures
            final(self).wf(),
            (final(self)@, answer(r)) == old(self)@.root_command(
                bare(manager),
                utf8_lossy(data@),
            ),
    {
        match parse_command(data) {
            Err(_) => Err(Errno::Inval),
            Ok(CtlCommand::Switch(name)) => {
                if manager.is_branch_valid(name.as_str()) {
                    self.switch_to_branch(manager, name.as_str());
                    Ok(CtlAction::Switched)
                } else {
                    Err(Errno::NoEnt)
                }
            },
            Ok(CtlCommand::Commit) => {
                let branch = self.branch_name.clone();
                let parent = Self::parent_or_main(manager, branch.as_str());
                Ok(CtlAction::Commit { branch, parent })
            },
            Ok(CtlCommand::Abort) => {
                let branch = self.branch_name.clone();
                let parent = Self::parent_or_main(manager, branch.as_str());
                Ok(CtlAction::Abort { branch, parent })
            },
        }
    }

    /// A command written to the control file of `branch`: a commit or an
    /// abort of that branch, handed back for the caller to carry out.
    pub fn handle_branch_ctl_write(&self, manager: &BranchManager, branch: &str, data: &[u8]) -> (r:
        Result<CtlAction, Errno>)
        requires
            manager.wf(),
        ensures
            answer(r) == FsState::branch_command(bare(manager), branch@, utf8_lossy(data@)),
    {
        match parse_command(data) {
            Ok(CtlCommand::Commit) => {
                let parent = Self::parent_or_main(manager, branch);
                Ok(CtlAction::Commit { branch: branch.to_owned(), parent })
            },
            Ok(CtlCommand::Abort) => {
                let parent = Self::parent_or_main(manager, branch);
                Ok(CtlAction::Abort { branch: branch.to_owned(), parent })
            },
            _ => Err(Errno::Inval),
        }
    }

    /// A write of data to `rel` of `branch`.
    fn write_data(
        &mut self,
        manager: &BranchManager,
        disk: &Snapshot,
        ino: u64,
        branch: &str,
        rel: &str,
        offset: i64,
        recheck: bool,
    ) -> (r: Result<WritePlan, Errno>)
        requires
            old(self).wf(),
            manager.wf(),
            disk.wf(),
            manager.tree().contains_key(branch@),
        ensures
            final(self).wf(),
            (final(self)@, answer(r)) == old(self)@.write_data(
                ctx(manager, disk),
                ino,
                branch@,
                rel@,
                offset,
                recheck,
            ),
    {
        if offset < 0 {
            return Err(Errno::Io);
        }
        let (copy_from, delta) = match self.ensure_cow_for_branch(manager, disk, branch, rel) {
            Ok(p) => p,
            Err(_) => {
                return Err(Errno::Io);
            },
        };
        let reuse = match self.write_cache {
            Some(kept) => kept.0 == ino && kept.1 == self.current_epoch,
            None => false,
        };
        self.forget_read(ino);
        self.write_cache = Some((ino, self.current_epoch));
        Ok(WritePlan::Data { copy_from, delta, offset: offset as u64, reuse, recheck })
    }

    /// Writes `data` to `ino` at `offset`. A write to a control file is a
    /// command; any other write goes to the delta of the branch that owns the
    /// file, which is made from what the file resolved to if there is none.
    pub fn write(
        &mut self,
        manager: &BranchManager,
        disk: &Snapshot,
        ino: u64,
        offset: i64,
        data: &[u8],
    ) -> (r: Result<WritePlan, Errno>)
        requires
            old(self).wf(),
            manager.wf(),
            disk.wf(),
        ensures
            final(self).wf(),
            (final(self)@, answer(r)) == old(self)@.write(ctx(manager, disk), ino, offset, data@),
    {
        proof {
            reveal_strlit("/");
            assert("/"@ =~= seq!['/']);
        }
        if ino == CTL_INO {
            return match self.handle_root_ctl_write(manager, data) {
                Ok(a) => Ok(WritePlan::Control(a)),
                Err(e) => Err(e),
            };
        }
        match self.branch_for_ctl_ino(ino) {
            Some(b) => {
                return match self.handle_branch_ctl_write(manager, b.as_str(), data) {
                    Ok(a) => Ok(WritePlan::Control(a)),
                    Err(e) => Err(e),
                };
            },
            None => {},
        }
        let path = match self.inodes.get_path(ino) {
            Some(p) => p,
            None => {
                return Err(Errno::NoEnt);
            },
        };
        match classify_path(path.as_str()) {
            PathContext::BranchDir(_) => Err(Errno::Perm),
            PathContext::BranchCtl(_) => Err(Errno::Perm),
            PathContext::RootCtl => Err(Errno::Perm),
            PathContext::BranchPath(b, rel) => {
                if !manager.is_branch_valid(b.as_str()) {
                    return Err(Errno::NoEnt);
                }
                self.write_data(manager, disk, ino, b.as_str(), rel.as_str(), offset, false)
            },
            PathContext::Root => {
                if self.is_stale(manager) {
                    return Err(Errno::Stale);
                }
                let branch = self.branch_name.clone();
                self.write_data(manager, disk, ino, branch.as_str(), "/", offset, true)
            },
            PathContext::RootPath(p) => {
                if self.is_stale(manager) {
                    return Err(Errno::Stale);
                }
                let branch = self.branch_name.clone();
                self.write_data(manager, disk, ino, branch.as_str(), p.as_str(), offset, true)
            },
        }
    }

    /// An ioctl on the mount: a commit or an abort of the current branch,
    /// handed back for the caller to carry out.
    pub fn ioctl(&self, manager: &BranchManager, cmd: u32) -> (r: Result<CtlAction, Errno>)
        requires
            manager.wf(),
        ensures
            answer(r) == self@.ioctl(bare(manager), cmd),
    {
        if cmd == BRANCHFS_IOC_COMMIT {
            let branch = self.branch_name.clone();
            let parent = Self::parent_or_main(manager, branch.as_str());
            Ok(CtlAction::Commit { branch, parent })
        } else if cmd == BRANCHFS_IOC_ABORT {
            let branch = self.branch_name.clone();
            let parent = Self::parent_or_main(manager, branch.as_str());
            Ok(CtlAction::Abort { branch, parent })
        } else {
            Err(Errno::NoTty)
        }
    }

    /// The plan for a new entry `rel` of `branch`.
    fn create_at(
        manager: &BranchManager,
        branch: &str,
        rel: String,
        in_branch_view: bool,
        mode: u32,
        umask: u32,
        is_dir: bool,
    ) -> (r: Result<CreatePlan, Errno>)
        requires
            manager.wf(),
            manager.tree().contains_key(branch@),
        ensures
            answer(r) == Ok::<CreateView, Errno>(
                FsState::create_at(
                    bare(manager),
                    branch@,
                    rel@,
                    if in_branch_view {
                        crate::paths::branch_view_path(branch@, rel@)
                    } else {
                        rel@
                    },
                    mode,
                    umask,
                    is_dir,
                    !in_branch_view,
                ),
            ),
    {
        let delta = match manager.delta_path(branch, rel.as_str()) {
            Ok(d) => d,
            Err(_) => {
                return Err(Errno::NoEnt);
            },
        };
        let inode_path = if in_branch_view {
            branch_path(branch, rel.as_str())
        } else {
            rel
        };
        Ok(CreatePlan { delta, inode_path, mode: mode & !umask, is_dir, recheck: !in_branch_view })
    }

    /// The plan for a new file or directory `name` in `parent`.
    fn plan_new(
        &self,
        manager: &BranchManager,
        parent: u64,
        name: &str,
        mode: u32,
        umask: u32,
        is_dir: bool,
    ) -> (r: Result<CreatePlan, Errno>)
        requires
            self.wf(),
            manager.wf(),
        ensures
            answer(r) == self@.create(bare(manager), parent, name@, mode, umask, is_dir),
    {
        proof {
            reveal_strlit("/");
            assert("/"@ =~= seq!['/']);
        }
        let parent_path = match self.inodes.get_path(parent) {
            Some(p) => p,
            None => {
                return Err(Errno::NoEnt);
            },
        };
        match classify_path(parent_path.as_str()) {
            PathContext::BranchDir(b) => {
                if !manager.is_branch_valid(b.as_str()) {
                    return Err(Errno::NoEnt);
                }
                let rel = child_path("/", name);
                Self::create_at(manager, b.as_str(), rel, true, mode, umask, is_dir)
            },
            PathContext::BranchPath(b, parent_rel) => {
                if !manager.is_branch_valid(b.as_str()) {
                    return Err(Errno::NoEnt);
                }
                let rel = child_path(parent_rel.as_str(), name);
                Self::create_at(manager, b.as_str(), rel, true, mode, umask, is_dir)
            },
            PathContext::BranchCtl(_) => Err(Errno::Perm),
            PathContext::RootCtl => Err(Errno::Perm),
            PathContext::Root => {
                if self.is_stale(manager) {
                    return Err(Errno::Stale);
                }
                let rel = child_path("/", name);
                Self::create_at(manager, self.branch_name.as_str(), rel, false, mode, umask, is_dir)
            },
            PathContext::RootPath(rp) => {
                if self.is_stale(manager) {
                    return Err(Errno::Stale);
                }
                let rel = child_path(rp.as_str(), name);
                Self::create_at(manager, self.branch_name.as_str(), rel, false, mode, umask, is_dir)
            },
        }
    }

    /// Creates the file `name` in `parent`: says where in the owning branch's
    /// delta directory the file is to be made, and with which mode.
    pub fn create(&self, manager: &BranchManager, parent: u64, name: &str, mode: u32, umask: u32) -> (r:
        Result<CreatePlan, Errno>)
        requires
            self.wf(),
            manager.wf(),
        ensures
            answer(r) == self@.create(bare(manager), parent, name@, mode, umask, false),
    {
        self.plan_new(manager, parent, name, mode, umask, false)
    }

    /// Creates the directory `name` in `parent`.
    pub fn mkdir(&self, manager: &BranchManager, parent: u64, name: &str, mode: u32, umask: u32) -> (r:
        Result<CreatePlan, Errno>)
        requires
            self.wf(),
            manager.wf(),
        ensures
            answer(r) == self@.create(bare(manager), parent, name@, mode, umask, true),
    {
        self.plan_new(manager, parent, name, mode, umask, true)
    }

    /// The answer once the file or directory of `plan` has been made. A view
    /// that went stale meanwhile answers `Stale`, and what was made is to be
    /// removed again.
    pub fn created(&mut self, manager: &BranchManager, plan: &CreatePlan) -> (r: Result<Entry, Errno>)
        requires
            old(self).wf(),
            manager.wf(),
        ensures
            final(self).wf(),
            (final(self)@, answer(r)) == old(self)@.created(bare(manager), plan@),
    {
        if plan.recheck && self.is_stale(manager) {
            return Err(Errno::Stale);
        }
        self.enter(plan.inode_path.as_str(), plan.is_dir, Attr::Storage(plan.delta.clone()))
    }

    /// Whether `name` is a synthetic entry, which cannot be removed.
    fn is_synthetic_name(name: &str) -> (r: bool)
        ensures
            r == FsState::is_synthetic_name(name@),
    {
        Self::branch_entry(name).is_some() || *name == *".branchfs_ctl"
    }

    /// The plan for removing `rel` of `branch`.
    fn unlink_at(manager: &BranchManager, branch: &str, rel: String, in_branch_view: bool) -> (r:
        Result<UnlinkPlan, Errno>)
        requires
            manager.wf(),
            manager.tree().contains_key(branch@),
        ensures
            answer(r) == Ok::<UnlinkView, Errno>(
                FsState::unlink_at(
                    bare(manager),
                    branch@,
                    rel@,
                    if in_branch_view {
                        crate::paths::branch_view_path(branch@, rel@)
                    } else {
                        rel@
                    },
                    !in_branch_view,
                ),
            ),
    {
        let delta = match manager.delta_path(branch, rel.as_str()) {
            Ok(d) => d,
            Err(_) => {
                return Err(Errno::NoEnt);
            },
        };
        let log_file = match manager.tombstone_log_path(branch) {
            Ok(p) => p,
            Err(_) => {
                return Err(Errno::NoEnt);
            },
        };
        let log_line = match manager.tombstone_log_entry(branch, rel.as_str()) {
            Ok(l) => l,
            Err(_) => {
                return Err(Errno::NoEnt);
            },
        };
        let inode_path = if in_branch_view {
            branch_path(branch, rel.as_str())
        } else {
            rel.clone()
        };
        Ok(
            UnlinkPlan {
                branch: branch.to_owned(),
                rel,
                log_line,
                log_file,
                delta,
                inode_path,
                recheck: !in_branch_view,
            },
        )
    }

    /// Removes `name` from `parent`: says which tombstone the owning branch
    /// gets, what its log needs first, and which delta is to go.
    pub fn unlink(&self, manager: &BranchManager, parent: u64, name: &str) -> (r: Result<
        UnlinkPlan,
        Errno,
    >)
        requires
            self.wf(),
            manager.wf(),
        ensures
            answer(r) == self@.unlink(bare(manager), parent, name@),
    {
        proof {
            reveal_strlit("/");
            assert("/"@ =~= seq!['/']);
        }
        let parent_path = match self.inodes.get_path(parent) {
            Some(p) => p,
            None => {
                return Err(Errno::NoEnt);
            },
        };
        match classify_path(parent_path.as_str()) {
            PathContext::BranchDir(b) => {
                if Self::is_synthetic_name(name) {
                    return Err(Errno::Perm);
                }
                if !manager.is_branch_valid(b.as_str()) {
                    return Err(Errno::NoEnt);
                }
                let rel = child_path("/", name);
                Self::unlink_at(manager, b.as_str(), rel, true)
            },
            PathContext::BranchPath(b, parent_rel) => {
                if Self::is_synthetic_name(name) {
                    return Err(Errno::Perm);
                }
                if !manager.is_branch_valid(b.as_str()) {
                    return Err(Errno::NoEnt);
                }
                let rel = child_path(parent_rel.as_str(), name);
                Self::unlink_at(manager, b.as_str(), rel, true)
            },
            PathContext::BranchCtl(_) => Err(Errno::Perm),
            PathContext::RootCtl => Err(Errno::Perm),
            PathContext::Root => {
                if Self::is_synthetic_name(name) {
                    return Err(Errno::Perm);
                }
                if self.is_stale(manager) {
                    return Err(Errno::Stale);
                }
                let rel = child_path("/", name);
                Self::unlink_at(manager, self.branch_name.as_str(), rel, false)
            },
            PathContext::RootPath(rp) => {
                if Self::is_synthetic_name(name) {
                    return Err(Errno::Perm);
                }
                if self.is_stale(manager) {
                    return Err(Errno::Stale);
                }
                let rel = child_path(rp.as_str(), name);
                Self::unlink_at(manager, self.branch_name.as_str(), rel, false)
            },
        }
    }

    /// Removes the directory `name` from `parent`; the same as `unlink`.
    pub fn rmdir(&self, manager: &BranchManager, parent: u64, name: &str) -> (r: Result<
        UnlinkPlan,
        Errno,
    >)
        requires
            self.wf(),
            manager.wf(),
        ensures
            answer(r) == self@.unlink(bare(manager), parent, name@),
    {
        self.unlink(manager, parent, name)
    }

    /// Completes an unlink once the log has its line: the branch gets its
    /// tombstone and the path leaves the inode table. A branch that is gone
    /// by now, or a view that went stale, keeps the inode table as it is.
    pub fn unlinked(&mut self, manager: &mut BranchManager, plan: &UnlinkPlan) -> (r: Result<
        (),
        Errno,
    >)
        requires
            old(self).wf(),
            old(manager).wf(),
        ensures
            final(self).wf(),
            final(manager).wf(),
            final(manager).same_but_tree(old(manager)),
            final(manager).order() == old(manager).order(),
            final(manager).tree() == if old(manager).tree().contains_key(plan.branch@) {
                old(manager).tree().insert(
                    plan.branch@,
                    crate::branch::BranchView {
                        tombstones: old(manager).tree()[plan.branch@].tombstones.insert(plan.rel@),
                        ..old(manager).tree()[plan.branch@]
                    },
                )
            } else {
                old(manager).tree()
            },
            r == if plan.recheck && old(self)@.stale(bare(old(manager))) {
                Err::<(), Errno>(Errno::Stale)
            } else if !old(manager).tree().contains_key(plan.branch@) {
                Err::<(), Errno>(Errno::NoEnt)
            } else {
                Ok::<(), Errno>(())
            },
            final(self)@ == if r is Ok {
                FsState { inodes: old(self)@.inodes.remove(plan.inode_path@), ..old(self)@ }
            } else {
                old(self)@
            },
    {
        let added = manager.add_tombstone(plan.branch.as_str(), plan.rel.as_str());
        if plan.recheck && self.is_stale(manager) {
            return Err(Errno::Stale);
        }
        if added.is_err() {
            return Err(Errno::NoEnt);
        }
        proof {
            self.inodes@.lemma_apply(InodeOp::Remove(plan.inode_path@));
        }
        self.inodes.remove(plan.inode_path.as_str());
        assert(self@.ctl == old(self)@.ctl);
        Ok(())
    }

    /// The plan for changing the attributes of `rel` of `branch`.
    fn setattr_at(
        &mut self,
        manager: &BranchManager,
        disk: &Snapshot,
        ino: u64,
        branch: &str,
        rel: &str,
        touches: bool,
        size: Option<u64>,
    ) -> (r: Result<SetattrPlan, Errno>)
        requires
            old(self).wf(),
            manager.wf(),
            disk.wf(),
            manager.tree().contains_key(branch@),
        ensures
            final(self).wf(),
            (final(self)@, answer(r)) == old(self)@.setattr_at(
                ctx(manager, disk),
                ino,
                branch@,
                rel@,
                touches,
                size,
            ),
    {
        let (source, delta) = match self.ensure_cow_for_branch(manager, disk, branch, rel) {
            Ok(p) => p,
            Err(_) => {
                return Err(Errno::NoEnt);
            },
        };
        let copy_from = if touches {
            source
        } else {
            None
        };
        let deleted = match manager.tombstone_log_entry(branch, rel) {
            Ok(line) => line.is_none(),
            Err(_) => false,
        };
        let shown = if deleted {
            None
        } else if touches && (disk.contains(delta.as_str()) || copy_from.is_some()) {
            Some(delta.clone())
        } else {
            self.resolve_for_branch(manager, disk, branch, rel)
        };
        match shown {
            None => Err(Errno::NoEnt),
            Some(p) => {
                if size.is_some() {
                    self.forget_read(ino);
                    self.forget_write(ino);
                }
                Ok(
                    SetattrPlan {
                        copy_from,
                        delta: if touches {
                            Some(delta)
                        } else {
                            None
                        },
                        size,
                        entry: Entry { ino, attr: Attr::Storage(p) },
                    },
                )
            },
        }
    }

    /// Changes attributes of `ino`: `touches` says whether any attribute is
    /// to change, `size` is the new size when the size is. Whatever changes,
    /// changes in the delta of the owning branch, which is made first if
    /// there is none.
    pub fn setattr(
        &mut self,
        manager: &BranchManager,
        disk: &Snapshot,
        ino: u64,
        touches: bool,
        size: Option<u64>,
    ) -> (r: Result<SetattrPlan, Errno>)
        requires
            old(self).wf(),
            manager.wf(),
            disk.wf(),
        ensures
            final(self).wf(),
            (final(self)@, answer(r)) == old(self)@.setattr(ctx(manager, disk), ino, touches, size),
    {
        proof {
            reveal_strlit("/");
            assert("/"@ =~= seq!['/']);
        }
        if ino == CTL_INO {
            return Ok(Self::synthetic(CTL_INO));
        }
        match self.branch_for_ctl_ino(ino) {
            Some(b) => {
                if manager.is_branch_valid(b.as_str()) {
                    return Ok(Self::synthetic(ino));
                } else {
                    return Err(Errno::NoEnt);
                }
            },
            None => {},
        }
        let path = match self.inodes.get_path(ino) {
            Some(p) => p,
            None => {
                return Err(Errno::NoEnt);
            },
        };
        match classify_path(path.as_str()) {
            PathContext::BranchDir(_) => Err(Errno::Perm),
            PathContext::BranchCtl(_) => Err(Errno::Perm),
            PathContext::RootCtl => Ok(Self::synthetic(CTL_INO)),
            PathContext::BranchPath(b, rel) => {
                if !manager.is_branch_valid(b.as_str()) {
                    return Err(Errno::NoEnt);
                }
                self.setattr_at(manager, disk, ino, b.as_str(), rel.as_str(), touches, size)
            },
            PathContext::Root => {
                if self.is_stale(manager) {
                    return Err(Errno::Stale);
                }
                let branch = self.branch_name.clone();
                self.setattr_at(manager, disk, ino, branch.as_str(), "/", touches, size)
            },
            PathContext::RootPath(rp) => {
                if self.is_stale(manager) {
                    return Err(Errno::Stale);
                }
                let branch = self.branch_name.clone();
                self.setattr_at(manager, disk, ino, branch.as_str(), rp.as_str(), touches, size)
            },
        }
    }

    /// The answer of `setattr` for a control file.
    fn synthetic(ino: u64) -> (r: SetattrPlan)
        ensures
            r@ == FsState::setattr_synthetic(ino),
    {
        SetattrPlan { copy_from: None, delta: None, size: None, entry: Entry { ino, attr: Attr::Ctl } }
    }

    /// `readdir`, first part: which directories of the storage to list.
    pub fn readdir_plan(&self, manager: &BranchManager, disk: &Snapshot, ino: u64) -> (r: Result<
        ListPlan,
        Errno,
    >)
        requires
            self.wf(),
            manager.wf(),
            disk.wf(),
        ensures
            answer(r) == self@.list_plan(ctx(manager, disk), ino),
    {
        proof {
            reveal_strlit("/");
            reveal_strlit("");
            assert("/"@ =~= seq!['/']);
            assert(""@ =~= Seq::<char>::empty());
        }
        let kind = match self.inodes.get_path(ino) {
            Some(p) => classify_path(p.as_str()),
            None => {
                if ino == ROOT_INO {
                    PathContext::Root
                } else {
                    return Err(Errno::NoEnt);
                }
            },
        };
        match kind {
            PathContext::BranchDir(b) => {
                if !manager.is_branch_valid(b.as_str()) {
                    return Err(Errno::NoEnt);
                }
                let prefix = branch_path(b.as_str(), "");
                Self::list_at(manager, disk, ino, b, "/".to_owned(), prefix, true, false, false)
            },
            PathContext::BranchPath(b, rel) => {
                if !manager.is_branch_valid(b.as_str()) {
                    return Err(Errno::NoEnt);
                }
                let prefix = branch_path(b.as_str(), "");
                Self::list_at(manager, disk, ino, b, rel, prefix, false, false, false)
            },
            PathContext::Root => {
                if self.is_stale(manager) {
                    return Err(Errno::Stale);
                }
                Self::list_at(
                        manager,
                        disk,
                        ino,
                        self.branch_name.clone(),
                        "/".to_owned(),
                        "".to_owned(),
                        false,
                        true,
                        true,
                    )
            },
            PathContext::RootPath(rp) => {
                if self.is_stale(manager) {
                    return Err(Errno::Stale);
                }
                Self::list_at(
                        manager,
                        disk,
                        ino,
                        self.branch_name.clone(),
                        rp,
                        "".to_owned(),
                        false,
                        false,
                        true,
                    )
            },
            PathContext::RootCtl => Err(Errno::NotDir),
            PathContext::BranchCtl(_) => Err(Errno::NotDir),
        }
    }

    /// The directories to list for `rel` of `branch`.
    fn list_at(
        manager: &BranchManager,
        disk: &Snapshot,
        ino: u64,
        branch: String,
        rel: String,
        prefix: String,
        branch_root: bool,
        mount_root: bool,
        recheck: bool,
    ) -> (r: Result<ListPlan, Errno>)
        requires
            manager.wf(),
            disk.wf(),
        ensures
            answer(r) == FsState::list_at(
                ctx(manager, disk),
                ino,
                branch@,
                rel@,
                prefix@,
                branch_root,
                mount_root,
                recheck,
            ),
    {
        let base_dir = join_path(manager.base_path(), rel.as_str());
        let delta_dir = match manager.resolve_path(branch.as_str(), rel.as_str(), disk) {
            Ok(Some(p)) => {
                if !disk.is_dir(p.as_str()) {
                    return Err(Errno::NotDir);
                }
                if *p.as_str() != *base_dir.as_str() {
                    Some(p)
                } else {
                    None
                }
            },
            _ => None,
        };
        Ok(ListPlan { ino, branch, rel, prefix, base_dir, delta_dir, branch_root, mount_root, recheck })
    }

    /// Adds to `out` the entries for `items`, the names and kinds found in a
    /// directory of the storage, but for the names in `seen`. Says whether
    /// the inode numbers ran out.
    fn list_items(
        &mut self,
        prefix: &str,
        rel: &str,
        items: &Vec<(String, bool)>,
        seen: &mut StrMap<()>,
        out: &mut Vec<DirEntry>,
    ) -> (full: bool)
        requires
            old(self).wf(),
            old(seen).wf(),
        ensures
            final(self).wf(),
            final(seen).wf(),
            ({
                let l = old(self)@.list_items(prefix@, rel@, items_view(items@), old(seen)@.dom());
                &&& final(self)@ == l.state
                &&& final(seen)@.dom() == l.seen
                &&& full == l.full
                &&& entries_view(final(out)@) == entries_view(old(out)@) + l.entries
            }),
    {
        let ghost start = self@;
        let ghost seen0 = seen@.dom();
        let ghost out0 = entries_view(out@);
        let ghost all = items_view(items@);
        let ghost mut done: Seq<DirEntryView> = Seq::empty();
        let mut i: usize = 0;
        proof {
            assert(all.skip(0) =~= all);
            assert(Seq::<DirEntryView>::empty() + start.list_items(
                prefix@,
                rel@,
                all,
                seen0,
            ).entries =~= start.list_items(prefix@, rel@, all, seen0).entries);
            assert(out0 + done =~= out0);
        }
        while i < items.len()
            invariant
                i <= items.len(),
                all == items_view(items@),
                start == old(self)@,
                seen0 == old(seen)@.dom(),
                out0 == entries_view(old(out)@),
                self.wf(),
                seen.wf(),
                entries_view(out@) == out0 + done,
                start.list_items(prefix@, rel@, all, seen0) == after(
                    done,
                    self@.list_items(prefix@, rel@, all.skip(i as int), seen@.dom()),
                ),
            decreases items.len() - i,
        {
            let name = &items[i].0;
            let is_dir = items[i].1;
            let ghost rest = all.skip(i as int);
            let ghost here = self@;
            let ghost seen_here = seen@.dom();
            proof {
                assert(rest[0] == all[i as int]);
                assert(all[i as int] == (name@, is_dir));
                assert(rest.drop_first() =~= all.skip(i + 1));
            }
            if !seen.contains_key(name.as_str()) {
                let below = child_path(rel, name.as_str());
                let path = concat(prefix, below.as_str());
                if self.inodes.get_ino(path.as_str()).is_none() && !self.inodes.has_room() {
                    proof {
                        assert(done + Seq::<DirEntryView>::empty() =~= done);
                    }
                    return true;
                }
                proof {
                    self.inodes@.lemma_apply(InodeOp::Create(path@, is_dir));
                }
                let ino = self.inodes.get_or_create(path.as_str(), is_dir);
                seen.insert(name.clone(), ());
                let ghost entry = DirEntryView { ino, is_dir, name: name@ };
                let ghost old_out = entries_view(out@);
                out.push(DirEntry { ino, is_dir, name: name.clone() });
                proof {
                    assert(self@.ctl == here.ctl);
                    assert(seen@.dom() =~= seen_here.insert(name@));
                    assert(entries_view(out@) =~= old_out.push(entry));
                    let tail = self@.list_items(prefix@, rel@, all.skip(i + 1), seen@.dom());
                    assert(done + (seq![entry] + tail.entries) =~= done.push(entry) + tail.entries);
                    assert(out0 + done.push(entry) =~= (out0 + done).push(entry));
                    done = done.push(entry);
                }
            }
            i += 1;
        }
        proof {
            assert(all.skip(i as int) =~= Seq::<(Seq<char>, bool)>::empty());
            assert(done + Seq::<DirEntryView>::empty() =~= done);
        }
        false
    }

    /// Adds to `out` the entries for the `@` directories of `names`. Says
    /// whether the inode numbers ran out.
    fn list_branches(&mut self, prefix: &str, names: &Vec<String>, out: &mut Vec<DirEntry>) -> (full:
        bool)
        requires
            old(self).wf(),
        ensures
            final(self).wf(),
            ({
                let l = old(self)@.list_branches(prefix@, views(names@));
                &&& final(self)@ == l.state
                &&& full == l.full
                &&& entries_view(final(out)@) == entries_view(old(out)@) + l.entries
            }),
    {
        let ghost start = self@;
        let ghost out0 = entries_view(out@);
        let ghost all = views(names@);
        let ghost mut done: Seq<DirEntryView> = Seq::empty();
        let mut i: usize = 0;
        proof {
            reveal_strlit("/");
            reveal_strlit("@");
            assert("/"@ =~= seq!['/']);
            assert("@"@ =~= seq!['@']);
            assert(all.skip(0) =~= all);
            assert(Seq::<DirEntryView>::empty() + start.list_branches(prefix@, all).entries
                =~= start.list_branches(prefix@, all).entries);
            assert(out0 + done =~= out0);
        }
        while i < names.len()
            invariant
                i <= names.len(),
                all == views(names@),
                start == old(self)@,
                out0 == entries_view(old(out)@),
                "/"@ == seq!['/'],
                "@"@ == seq!['@'],
                self.wf(),
                entries_view(out@) == out0 + done,
                start.list_branches(prefix@, all) == after(
                    done,
                    self@.list_branches(prefix@, all.skip(i as int)),
                ),
            decreases names.len() - i,
        {
            let ghost rest = all.skip(i as int);
            let ghost here = self@;
            proof {
                assert(rest[0] == all[i as int]);
                assert(all[i as int] == names@[i as int]@);
                assert(rest.drop_first() =~= all.skip(i + 1));
            }
            let shown = concat("@", names[i].as_str());
            let head = concat(prefix, "/");
            let path = concat(head.as_str(), shown.as_str());
            if self.inodes.get_ino(path.as_str()).is_none() && !self.inodes.has_room() {
                proof {
                    assert(done + Seq::<DirEntryView>::empty() =~= done);
                }
                return true;
            }
            proof {
                self.inodes@.lemma_apply(InodeOp::Create(path@, true));
            }
            let ino = self.inodes.get_or_create(path.as_str(), true);
            let ghost entry = DirEntryView { ino, is_dir: true, name: shown@ };
            let ghost old_out = entries_view(out@);
            out.push(DirEntry { ino, is_dir: true, name: shown });
            proof {
                assert(self@.ctl == here.ctl);
                assert(entries_view(out@) =~= old_out.push(entry));
                let tail = self@.list_branches(prefix@, all.skip(i + 1));
                assert(done + (seq![entry] + tail.entries) =~= done.push(entry) + tail.entries);
                assert(out0 + done.push(entry) =~= (out0 + done).push(entry));
                done = done.push(entry);
            }
            i += 1;
        }
        proof {
            assert(all.skip(i as int) =~= Seq::<Seq<char>>::empty());
            assert(done + Seq::<DirEntryView>::empty() =~= done);
        }
        false
    }

    /// The entries of a directory that come from the storage: `.` and `..`,
    /// then what the branch holds, then what the base holds under names that
    /// the branch does not hold. Says also whether the inode numbers ran out.
    pub fn collect_readdir_entries(
        &mut self,
        plan: &ListPlan,
        branch_items: &Vec<(String, bool)>,
        base_items: &Vec<(String, bool)>,
    ) -> (r: (Vec<DirEntry>, bool))
        requires
            old(self).wf(),
        ensures
            final(self).wf(),
            ({
                let l = old(self)@.collect(plan@, items_view(branch_items@), items_view(base_items@));
                &&& final(self)@ == l.state
                &&& r.1 == l.full
                &&& !r.1 ==> entries_view(r.0@) == l.entries
            }),
    {
        proof {
            reveal_strlit(".");
            reveal_strlit("..");
        }
        let mut out: Vec<DirEntry> = Vec::new();
        out.push(DirEntry { ino: plan.ino, is_dir: true, name: ".".to_owned() });
        out.push(DirEntry { ino: plan.ino, is_dir: true, name: "..".to_owned() });
        assert(entries_view(out@) =~= FsState::dots(plan.ino));
        let mut seen: StrMap<()> = StrMap::new();
        assert(seen@.dom() =~= Set::<Seq<char>>::empty());
        let full = self.list_items(
            plan.prefix.as_str(),
            plan.rel.as_str(),
            branch_items,
            &mut seen,
            &mut out,
        );
        if full {
            return (out, true);
        }
        let full = self.list_items(
            plan.prefix.as_str(),
            plan.rel.as_str(),
            base_items,
            &mut seen,
            &mut out,
        );
        (out, full)
    }

    /// The entries of a directory of `branch` that come from the storage,
    /// numbered as paths below the branch's `@` directory.
    pub fn collect_branch_readdir_entries(
        &mut self,
        plan: &ListPlan,
        branch_items: &Vec<(String, bool)>,
        base_items: &Vec<(String, bool)>,
    ) -> (r: (Vec<DirEntry>, bool))
        requires
            old(self).wf(),
        ensures
            final(self).wf(),
            ({
                let seen_as = ListView {
                    prefix: crate::paths::branch_view_path(plan.branch@, Seq::empty()),
                    ..plan@
                };
                let l = old(self)@.collect(
                    seen_as,
                    items_view(branch_items@),
                    items_view(base_items@),
                );
                &&& final(self)@ == l.state
                &&& r.1 == l.full
                &&& !r.1 ==> entries_view(r.0@) == l.entries
            }),
    {
        proof {
            reveal_strlit("");
            assert(""@ =~= Seq::<char>::empty());
        }
        let seen_as = ListPlan {
            ino: plan.ino,
            branch: plan.branch.clone(),
            rel: plan.rel.clone(),
            prefix: branch_path(plan.branch.as_str(), ""),
            base_dir: plan.base_dir.clone(),
            delta_dir: plan.delta_dir.clone(),
            branch_root: plan.branch_root,
            mount_root: plan.mount_root,
            recheck: plan.recheck,
        };
        self.collect_readdir_entries(&seen_as, branch_items, base_items)
    }

    /// `readdir`, second part: the entries of the directory, given the names
    /// and kinds found in the directories that `plan` says to list.
    pub fn readdir(
        &mut self,
        manager: &BranchManager,
        plan: &ListPlan,
        branch_items: &Vec<(String, bool)>,
        base_items: &Vec<(String, bool)>,
    ) -> (r: Result<Vec<DirEntry>, Errno>)
        requires
            old(self).wf(),
            manager.wf(),
        ensures
            final(self).wf(),
            (final(self)@, listing_answer(r)) == old(self)@.readdir(
                bare(manager),
                plan@,
                items_view(branch_items@),
                items_view(base_items@),
            ),
    {
        let (mut out, full) = self.collect_readdir_entries(plan, branch_items, base_items);
        if full {
            return Err(Errno::Io);
        }
        let ghost files = entries_view(out@);
        if plan.branch_root {
            if self.branch_ctl_inodes.get(plan.branch.as_str()).is_none() && !self.has_ctl_room() {
                return Err(Errno::Io);
            }
            let ctl_ino = self.get_or_create_branch_ctl_ino(plan.branch.as_str());
            out.push(DirEntry { ino: ctl_ino, is_dir: false, name: ".branchfs_ctl".to_owned() });
            proof {
                assert(entries_view(out@) =~= files + seq![
                    DirEntryView { ino: ctl_ino, is_dir: false, name: ".branchfs_ctl"@ },
                ]);
            }
            let kids = manager.get_children(plan.branch.as_str());
            let full = self.list_branches(plan.prefix.as_str(), &kids, &mut out);
            if full {
                return Err(Errno::Io);
            }
        } else if plan.mount_root {
            out.push(DirEntry { ino: CTL_INO, is_dir: false, name: ".branchfs_ctl".to_owned() });
            proof {
                assert(entries_view(out@) =~= files + seq![
                    DirEntryView { ino: CTL_INO, is_dir: false, name: ".branchfs_ctl"@ },
                ]);
            }
            let kids = manager.side_branches();
            let full = self.list_branches(plan.prefix.as_str(), &kids, &mut out);
            if full {
                return Err(Errno::Io);
            }
        }
        if plan.recheck && self.is_stale(manager) {
            return Err(Errno::Stale);
        }
        Ok(out)
    }

    /// The inode table.
    pub fn inodes(&self) -> (r: &InodeManager)
        requires
            self.wf(),
        ensures
            r.wf(),
            r@ == self@.inodes,
    {
        &self.inodes
    }

    /// The manager's epoch when the view last switched.
    pub fn current_epoch(&self) -> (r: u64)
        ensures
            r == self@.epoch,
    {
        self.current_epoch
    }

    /// The branch and the virtual path below it that the inode `ino` names.
    pub fn locate(&self, ino: u64) -> (r: Option<(String, String)>)
        requires
            self.wf(),
        ensures
            match r {
                Some(at) => self@.located(ino) == Some((at.0@, at.1@)),
                None => self@.located(ino) is None,
            },
    {
        proof {
            reveal_strlit("/");
            assert("/"@ =~= seq!['/']);
        }
        match self.classify_ino(ino) {
            Some(PathContext::Root) => Some((self.branch_name.clone(), "/".to_owned())),
            Some(PathContext::RootPath(p)) => Some((self.branch_name.clone(), p)),
            Some(PathContext::BranchDir(b)) => Some((b, "/".to_owned())),
            Some(PathContext::BranchPath(b, rel)) => Some((b, rel)),
            _ => None,
        }
    }

    /// The branch and the virtual path that `name` in the directory `parent`
    /// names.
    pub fn locate_child(&self, parent: u64, name: &str) -> (r: Option<(String, String)>)
        requires
            self.wf(),
        ensures
            match r {
                Some(at) => self@.located_child(parent, name@) == Some((at.0@, at.1@)),
                None => self@.located_child(parent, name@) is None,
            },
    {
        match self.locate(parent) {
            Some(at) => {
                let rel = child_path(at.1.as_str(), name);
                Some((at.0, rel))
            },
            None => None,
        }
    }

    /// The storage paths that a request on `ino` asks the snapshot about.
    pub fn probes(&self, manager: &BranchManager, ino: u64) -> (r: Vec<String>)
        requires
            self.wf(),
            manager.wf(),
        ensures
            views(r@) == match self@.located(ino) {
                Some(at) => probes(
                    manager.tree(),
                    manager.base(),
                    at.0,
                    at.1,
                    manager.branch_count(),
                ),
                None => Seq::empty(),
            },
    {
        match self.locate(ino) {
            Some(at) => manager.resolve_candidates(at.0.as_str(), at.1.as_str()),
            None => {
                let out: Vec<String> = Vec::new();
                assert(views(out@) =~= Seq::<Seq<char>>::empty());
                out
            },
        }
    }

    /// The storage paths that a request on `name` in the directory `parent`
    /// asks the snapshot about.
    pub fn probes_for_child(&self, manager: &BranchManager, parent: u64, name: &str) -> (r: Vec<
        String,
    >)
        requires
            self.wf(),
            manager.wf(),
        ensures
            views(r@) == match self@.located_child(parent, name@) {
                Some(at) => probes(
                    manager.tree(),
                    manager.base(),
                    at.0,
                    at.1,
                    manager.branch_count(),
                ),
                None => Seq::empty(),
            },
    {
        match self.locate_child(parent, name) {
            Some(at) => manager.resolve_candidates(at.0.as_str(), at.1.as_str()),
            None => {
                let out: Vec<String> = Vec::new();
                assert(views(out@) =~= Seq::<Seq<char>>::empty());
                out
            },
        }
    }
}

} // verus!
