//! The view of one mount as a mathematical value, and what each filesystem
//! request does to it.
//!
//! A request is answered from three things: the state of the view, the branch
//! manager, and a snapshot of the storage. The functions here say, for every
//! value of the three, what the answer is and what the state becomes. The
//! executable requests in `fs` are proved to compute exactly this.

use vstd::prelude::*;
use crate::branch::BranchView;
use crate::classify::{classify, PathKind};
use crate::ctl::{parse, utf8_lossy, Parsed, BRANCHFS_IOC_ABORT, BRANCHFS_IOC_COMMIT};
use crate::disk::FileKind;
use crate::error::Errno;
use crate::inode::{InodeState, DENSE_END, ROOT_INO};
use crate::paths::{branch_view_path, child_of, join};
use crate::tree::{children_of, main_name, resolve, side_branches_of, Walk};

verus! {

/// Inode number of the root's control file.
pub const CTL_INO: u64 = 0xffff_ffff_ffff_fffe;

/// The control files of branches are numbered from here downwards.
pub const BRANCH_CTL_START: u64 = u64::MAX - 999_999;

/// Name of the control file, as characters.
pub open spec fn ctl_name() -> Seq<char> {
    ".branchfs_ctl"@
}

/// Where the attributes of an entry come from.
pub enum AttrView {
    /// A synthetic directory.
    Dir,
    /// A synthetic control file.
    Ctl,
    /// The file at this storage path.
    Storage(Seq<char>),
}

/// An entry handed to the kernel: its inode number and its attributes.
pub struct EntryView {
    pub ino: u64,
    pub attr: AttrView,
}

/// What a request sees besides the view: the branch tree, the manager's
/// epoch, the base directory, and what the storage holds.
pub struct Ctx {
    pub tree: Map<Seq<char>, BranchView>,
    pub epoch: u64,
    pub base: Seq<char>,
    pub disk: Map<Seq<char>, FileKind>,
    pub fuel: nat,
    /// The branch names in the order in which the manager lists them.
    pub order: Seq<Seq<char>>,
}

impl Ctx {
    /// The children of `b`, in the manager's order.
    pub open spec fn children(self, b: Seq<char>) -> Seq<Seq<char>> {
        children_of(self.tree, self.order, b)
    }

    /// The branches other than `main`, in the manager's order.
    pub open spec fn side_branches(self) -> Seq<Seq<char>> {
        side_branches_of(self.order)
    }

    /// Whether `b` is a branch.
    pub open spec fn valid(self, b: Seq<char>) -> bool {
        self.tree.contains_key(b)
    }

    /// The storage path of `rel` seen from `b`; `None` when it is absent or
    /// the walk cannot be made.
    pub open spec fn resolved(self, b: Seq<char>, rel: Seq<char>) -> Option<Seq<char>> {
        match resolve(self.tree, self.disk, self.base, b, rel, self.fuel) {
            Walk::Done(found) => found,
            _ => None,
        }
    }

    /// Whether the storage holds a directory at `p`.
    pub open spec fn is_dir(self, p: Seq<char>) -> bool {
        self.disk.contains_key(p) && self.disk[p] == FileKind::Directory
    }

    /// Whether the storage holds a regular file at `p`.
    pub open spec fn is_file(self, p: Seq<char>) -> bool {
        self.disk.contains_key(p) && self.disk[p] == FileKind::RegularFile
    }

    /// The storage path of the delta of `b` for `rel`.
    pub open spec fn delta(self, b: Seq<char>, rel: Seq<char>) -> Seq<char> {
        join(self.tree[b].files_dir, rel)
    }

    /// The parent to which a view moves when `b` is committed or aborted.
    pub open spec fn parent_or_main(self, b: Seq<char>) -> Seq<char> {
        if self.tree.contains_key(b) && self.tree[b].parent is Some {
            self.tree[b].parent->0
        } else {
            main_name()
        }
    }

    /// The file to copy to the delta of `b` for `rel` before the delta is
    /// written: what `rel` resolves to, when the branch has no delta yet and
    /// that is a regular file.
    pub open spec fn copy_source(self, b: Seq<char>, rel: Seq<char>) -> Option<Seq<char>> {
        if self.disk.contains_key(self.delta(b, rel)) {
            None
        } else {
            match self.resolved(b, rel) {
                Some(src) => if self.is_file(src) {
                    Some(src)
                } else {
                    None
                },
                None => None,
            }
        }
    }
}

/// A delta is made once: where the branch has a delta for the path, a write
/// copies nothing and goes to that delta, so that the same bytes written
/// twice to the same place leave what they left the first time.
pub proof fn law_delta_is_made_once(c: Ctx, branch: Seq<char>, rel: Seq<char>)
    requires
        c.disk.contains_key(c.delta(branch, rel)),
    ensures
        c.copy_source(branch, rel) is None,
        !c.tree[branch].tombstones.contains(rel) && c.valid(branch) ==> c.resolved(branch, rel)
            == Some(c.delta(branch, rel)),
{
}

/// What is unlinked is gone: once a branch has the tombstone of a path, the
/// path resolves to nothing for that branch, whatever the storage holds.
pub proof fn law_unlinked_is_hidden(c: Ctx, branch: Seq<char>, rel: Seq<char>)
    requires
        c.valid(branch),
    ensures
        (Ctx {
            tree: c.tree.insert(
                branch,
                BranchView {
                    tombstones: c.tree[branch].tombstones.insert(rel),
                    ..c.tree[branch]
                },
            ),
            ..c
        }).resolved(branch, rel) is None,
{
}

/// A view whose branch is gone is stale: after an abort every view of an
/// aborted branch is turned away.
pub proof fn law_abort_stales(s: FsState, c: Ctx, parent_path: Seq<char>, name: Seq<char>)
    requires
        !c.valid(s.branch),
    ensures
        s.stale(c),
        s.lookup_in_root(c, parent_path, name) == (s, Err::<EntryView, Errno>(Errno::Stale)),
{
}

/// The base shows in a view of a branch without a parent, whatever other
/// branches hold or have deleted: a name in the root for which the branch
/// has neither a tombstone nor a delta is looked up as what lies below the
/// base directory, under the number that the inode table has for its path.
pub proof fn law_lookup_finds_the_base(s: FsState, c: Ctx, name: Seq<char>)
    requires
        !s.stale(c),
        c.tree[s.branch].parent is None,
        name != ctl_name(),
        !(name.len() > 0 && name[0] == '@'),
        !c.tree[s.branch].tombstones.contains(child_of(seq!['/'], name)),
        !c.disk.contains_key(c.delta(s.branch, child_of(seq!['/'], name))),
        c.disk.contains_key(join(c.base, child_of(seq!['/'], name))),
        s.can_hold(child_of(seq!['/'], name)),
    ensures
        s.lookup(c, ROOT_INO, name).1 == Ok::<EntryView, Errno>(
            EntryView {
                ino: s.inodes.ino_for(child_of(seq!['/'], name)),
                attr: AttrView::Storage(join(c.base, child_of(seq!['/'], name))),
            },
        ),
{
}

/// A read through a view of a branch without a parent opens the file below
/// the base directory when the branch has neither a tombstone nor a delta
/// for the path and no descriptor is kept for the inode; staleness is looked
/// at again after the bytes are read.
pub proof fn law_read_opens_the_base(s: FsState, c: Ctx, ino: u64, rel: Seq<char>)
    requires
        !s.stale(c),
        s.place(ino) == Some(PathKind::RootPath(rel)),
        s.read_cache != Some((ino, s.epoch)),
        c.tree[s.branch].parent is None,
        !c.tree[s.branch].tombstones.contains(rel),
        !c.disk.contains_key(c.delta(s.branch, rel)),
        c.disk.contains_key(join(c.base, rel)),
    ensures
        s.read(c, ino).1 == Ok::<ReadView, Errno>(
            ReadView { source: SourceView::Open(join(c.base, rel)), recheck: true },
        ),
{
}

/// The state of a mount's view.
pub struct FsState {
    /// The branch that the root of the mount shows.
    pub branch: Seq<char>,
    /// The manager's epoch when the view last switched.
    pub epoch: u64,
    /// The inode table.
    pub inodes: InodeState,
    /// The inode numbers given to control files of branches.
    pub ctl: Map<Seq<char>, u64>,
    /// The next number for a control file of a branch.
    pub next_ctl: u64,
    /// The inode and epoch for which a read descriptor is kept.
    pub read_cache: Option<(u64, u64)>,
    /// The inode and epoch for which a write descriptor is kept.
    pub write_cache: Option<(u64, u64)>,
}

/// A command for the caller to carry out on the manager.
pub enum ActionView {
    /// The view has switched; nothing is left to do.
    Switched,
    /// Commit `branch`, then switch the view to `parent`.
    Commit { branch: Seq<char>, parent: Seq<char> },
    /// Abort `branch`, then switch the view to `parent`.
    Abort { branch: Seq<char>, parent: Seq<char> },
}

/// How to get at the bytes of a file that is read.
pub enum SourceView {
    /// The descriptor kept from the last read.
    Cached,
    /// The file at this storage path, whose descriptor is kept from now on.
    Open(Seq<char>),
}

/// What a read does.
pub struct ReadView {
    pub source: SourceView,
    /// Whether staleness has to be looked at again after the bytes are read.
    pub recheck: bool,
}

/// What a write does.
pub enum WriteView {
    /// The bytes were a command.
    Control(ActionView),
    /// Write the bytes to `delta` at `offset`, after `copy_from`, if there is
    /// one, has been copied there. `reuse` says that the descriptor kept from
    /// the last write is for this file.
    Data {
        copy_from: Option<Seq<char>>,
        delta: Seq<char>,
        offset: u64,
        reuse: bool,
        recheck: bool,
    },
}

/// What creating a file or a directory does.
pub struct CreateView {
    pub delta: Seq<char>,
    pub inode_path: Seq<char>,
    pub mode: u32,
    pub is_dir: bool,
    pub recheck: bool,
}

/// What removing a name does.
pub struct UnlinkView {
    pub branch: Seq<char>,
    pub rel: Seq<char>,
    /// The line to append to `log_file` first, if the path is no tombstone yet.
    pub log_line: Option<Seq<char>>,
    pub log_file: Seq<char>,
    /// The delta to remove, if it exists.
    pub delta: Seq<char>,
    pub inode_path: Seq<char>,
    pub recheck: bool,
}

/// What changing attributes does.
pub struct SetattrView {
    /// The file to copy to `delta` first.
    pub copy_from: Option<Seq<char>>,
    /// The delta to change; `None` when nothing is to be changed.
    pub delta: Option<Seq<char>>,
    /// The new size, if the size changes.
    pub size: Option<u64>,
    /// The entry to answer with.
    pub entry: EntryView,
}

/// Which directories to list for a readdir.
pub struct ListView {
    pub ino: u64,
    pub branch: Seq<char>,
    pub rel: Seq<char>,
    /// What stands before the paths of this directory in the inode table.
    pub prefix: Seq<char>,
    /// The directory below the base.
    pub base_dir: Seq<char>,
    /// The directory of the nearest branch that has one, if it is another.
    pub delta_dir: Option<Seq<char>>,
    /// Whether this is the root of a branch's `@` directory.
    pub branch_root: bool,
    /// Whether this is the root of the mount.
    pub mount_root: bool,
    pub recheck: bool,
}

/// One entry of a directory.
pub struct DirEntryView {
    pub ino: u64,
    pub is_dir: bool,
    pub name: Seq<char>,
}

impl FsState {
    /// The view of a fresh mount on `branch`.
    pub open spec fn initial(branch: Seq<char>, epoch: u64) -> FsState {
        FsState {
            branch,
            epoch,
            inodes: InodeState::initial(),
            ctl: Map::empty(),
            next_ctl: BRANCH_CTL_START,
            read_cache: None,
            write_cache: None,
        }
    }

    /// The inode table is well formed, the control files of branches have
    /// numbers of their own, and those lie between the next one to give and
    /// the first one given.
    pub open spec fn wf(self) -> bool {
        &&& self.inodes.wf()
        &&& DENSE_END <= self.next_ctl <= BRANCH_CTL_START
        &&& forall|b: Seq<char>| #[trigger]
            self.ctl.contains_key(b) ==> self.next_ctl < self.ctl[b] <= BRANCH_CTL_START
        &&& forall|a: Seq<char>, b: Seq<char>|
            #![trigger self.ctl[a], self.ctl[b]]
            self.ctl.contains_key(a) && self.ctl.contains_key(b) && self.ctl[a] == self.ctl[b]
                ==> a == b
    }

    /// The view is stale when a commit has happened since it last switched,
    /// or when its branch is gone.
    pub open spec fn stale(self, c: Ctx) -> bool {
        c.epoch != self.epoch || !c.valid(self.branch)
    }

    /// The state after a switch to `branch`: the epoch is taken anew and the
    /// inode table is cleared.
    pub open spec fn switched(self, epoch: u64, branch: Seq<char>) -> FsState {
        FsState { branch, epoch, inodes: self.inodes.clear(), ..self }
    }

    /// Whether `ino` is the control file of a branch.
    pub open spec fn has_ctl(self, ino: u64) -> bool {
        exists|b: Seq<char>| #[trigger] self.ctl.contains_key(b) && self.ctl[b] == ino
    }

    /// The branch whose control file is `ino`.
    pub open spec fn branch_of_ctl(self, ino: u64) -> Seq<char> {
        choose|b: Seq<char>| #[trigger] self.ctl.contains_key(b) && self.ctl[b] == ino
    }

    /// Whether a number is left for another control file.
    pub open spec fn has_ctl_room(self) -> bool {
        self.next_ctl > DENSE_END
    }

    /// The number of the control file of `b`.
    pub open spec fn ctl_ino_for(self, b: Seq<char>) -> u64 {
        if self.ctl.contains_key(b) {
            self.ctl[b]
        } else {
            self.next_ctl
        }
    }

    /// The state after the control file of `b` has been given a number.
    pub open spec fn with_ctl(self, b: Seq<char>) -> FsState {
        if self.ctl.contains_key(b) {
            self
        } else {
            FsState {
                ctl: self.ctl.insert(b, self.next_ctl),
                next_ctl: (self.next_ctl - 1) as u64,
                ..self
            }
        }
    }

    /// What the inode `ino` names.
    pub open spec fn place(self, ino: u64) -> Option<PathKind> {
        if ino == ROOT_INO {
            Some(PathKind::Root)
        } else if ino == CTL_INO {
            Some(PathKind::RootCtl)
        } else if self.has_ctl(ino) {
            Some(PathKind::BranchCtl(self.branch_of_ctl(ino)))
        } else if self.inodes.has_ino(ino) {
            Some(classify(self.inodes.path_of(ino)))
        } else {
            None
        }
    }

    /// The branch and the virtual path below it that the inode `ino` names;
    /// `None` for a control file and for a number that names nothing.
    pub open spec fn located(self, ino: u64) -> Option<(Seq<char>, Seq<char>)> {
        match self.place(ino) {
            Some(PathKind::Root) => Some((self.branch, seq!['/'])),
            Some(PathKind::RootPath(p)) => Some((self.branch, p)),
            Some(PathKind::BranchDir(b)) => Some((b, seq!['/'])),
            Some(PathKind::BranchPath(b, rel)) => Some((b, rel)),
            _ => None,
        }
    }

    /// The branch and the virtual path that `name` in the directory `parent`
    /// names.
    pub open spec fn located_child(self, parent: u64, name: Seq<char>) -> Option<
        (Seq<char>, Seq<char>),
    > {
        match self.located(parent) {
            Some(at) => Some((at.0, child_of(at.1, name))),
            None => None,
        }
    }

    /// Whether the inode table can take `path`.
    pub open spec fn can_hold(self, path: Seq<char>) -> bool {
        self.inodes.entries.contains_key(path) || self.inodes.has_room()
    }

    /// An entry for `path`, which gets an inode number if it has none. When
    /// no number is left the request fails.
    pub open spec fn enter(self, path: Seq<char>, is_dir: bool, attr: AttrView) -> (
        FsState,
        Result<EntryView, Errno>,
    ) {
        if self.can_hold(path) {
            (
                FsState { inodes: self.inodes.create(path, is_dir), ..self },
                Ok(EntryView { ino: self.inodes.ino_for(path), attr }),
            )
        } else {
            (self, Err(Errno::Io))
        }
    }

    /// An entry for what `rel` resolves to in `branch`.
    pub open spec fn enter_resolved(
        self,
        c: Ctx,
        branch: Seq<char>,
        rel: Seq<char>,
        inode_path: Seq<char>,
    ) -> (FsState, Result<EntryView, Errno>) {
        match c.resolved(branch, rel) {
            None => (self, Err(Errno::NoEnt)),
            Some(p) => self.enter(inode_path, c.is_dir(p), AttrView::Storage(p)),
        }
    }

    /// `lookup` of `name` in a directory of branch `b`.
    pub open spec fn lookup_in_branch(
        self,
        c: Ctx,
        b: Seq<char>,
        parent_rel: Seq<char>,
        name: Seq<char>,
    ) -> (FsState, Result<EntryView, Errno>) {
        if parent_rel == seq!['/'] && name == ctl_name() {
            if self.ctl.contains_key(b) || self.has_ctl_room() {
                (self.with_ctl(b), Ok(EntryView { ino: self.ctl_ino_for(b), attr: AttrView::Ctl }))
            } else {
                (self, Err(Errno::Io))
            }
        } else if name.len() > 0 && name[0] == '@' {
            let child = name.skip(1);
            if c.valid(child) && c.tree[child].parent == Some(b) && parent_rel == seq!['/'] {
                self.enter(
                    branch_view_path(b, seq!['/', '@'] + child),
                    true,
                    AttrView::Dir,
                )
            } else {
                (self, Err(Errno::NoEnt))
            }
        } else if !c.valid(b) {
            (self, Err(Errno::NoEnt))
        } else {
            let rel = child_of(parent_rel, name);
            self.enter_resolved(c, b, rel, branch_view_path(b, rel))
        }
    }

    /// `lookup` of `name` in a directory seen through the current branch.
    pub open spec fn lookup_in_root(self, c: Ctx, parent_path: Seq<char>, name: Seq<char>) -> (
        FsState,
        Result<EntryView, Errno>,
    ) {
        if self.stale(c) {
            (self, Err(Errno::Stale))
        } else {
            let path = child_of(parent_path, name);
            self.enter_resolved(c, self.branch, path, path)
        }
    }

    /// `lookup(parent, name)`.
    pub open spec fn lookup(self, c: Ctx, parent: u64, name: Seq<char>) -> (
        FsState,
        Result<EntryView, Errno>,
    ) {
        match self.place(parent) {
            None => (self, Err(Errno::NoEnt)),
            Some(PathKind::Root) => if name == ctl_name() {
                (self, Ok(EntryView { ino: CTL_INO, attr: AttrView::Ctl }))
            } else if name.len() > 0 && name[0] == '@' {
                if c.valid(name.skip(1)) && name.skip(1) != main_name() {
                    self.enter(
                        branch_view_path(name.skip(1), Seq::empty()),
                        true,
                        AttrView::Dir,
                    )
                } else {
                    (self, Err(Errno::NoEnt))
                }
            } else {
                self.lookup_in_root(c, seq!['/'], name)
            },
            Some(PathKind::RootPath(p)) => self.lookup_in_root(c, p, name),
            Some(PathKind::BranchDir(b)) => self.lookup_in_branch(c, b, seq!['/'], name),
            Some(PathKind::BranchPath(b, rel)) => self.lookup_in_branch(c, b, rel, name),
            Some(PathKind::RootCtl) => (self, Err(Errno::NoEnt)),
            Some(PathKind::BranchCtl(_)) => (self, Err(Errno::NoEnt)),
        }
    }

    /// The attributes of a path seen through the current branch.
    pub open spec fn getattr_in_root(self, c: Ctx, ino: u64, rel: Seq<char>) -> Result<
        EntryView,
        Errno,
    > {
        if ino != ROOT_INO && self.stale(c) {
            Err(Errno::Stale)
        } else {
            match c.resolved(self.branch, rel) {
                Some(p) => Ok(EntryView { ino, attr: AttrView::Storage(p) }),
                None => if ino == ROOT_INO {
                    Ok(EntryView { ino: ROOT_INO, attr: AttrView::Dir })
                } else {
                    Err(Errno::NoEnt)
                },
            }
        }
    }

    /// `getattr(ino)`.
    pub open spec fn getattr(self, c: Ctx, ino: u64) -> Result<EntryView, Errno> {
        if ino == CTL_INO {
            Ok(EntryView { ino: CTL_INO, attr: AttrView::Ctl })
        } else if self.has_ctl(ino) {
            if c.valid(self.branch_of_ctl(ino)) {
                Ok(EntryView { ino, attr: AttrView::Ctl })
            } else {
                Err(Errno::NoEnt)
            }
        } else if !self.inodes.has_ino(ino) {
            if ino == ROOT_INO {
                Ok(EntryView { ino: ROOT_INO, attr: AttrView::Dir })
            } else {
                Err(Errno::NoEnt)
            }
        } else {
            match classify(self.inodes.path_of(ino)) {
                PathKind::BranchDir(b) => if c.valid(b) {
                    Ok(EntryView { ino, attr: AttrView::Dir })
                } else {
                    Err(Errno::NoEnt)
                },
                PathKind::BranchCtl(b) => if c.valid(b) {
                    Ok(EntryView { ino, attr: AttrView::Ctl })
                } else {
                    Err(Errno::NoEnt)
                },
                PathKind::BranchPath(b, rel) => if !c.valid(b) {
                    Err(Errno::NoEnt)
                } else {
                    match c.resolved(b, rel) {
                        Some(p) => Ok(EntryView { ino, attr: AttrView::Storage(p) }),
                        None => Err(Errno::NoEnt),
                    }
                },
                PathKind::RootCtl => Ok(EntryView { ino: CTL_INO, attr: AttrView::Ctl }),
                PathKind::Root => self.getattr_in_root(c, ino, seq!['/']),
                PathKind::RootPath(rp) => self.getattr_in_root(c, ino, rp),
            }
        }
    }

    /// `open(ino)`: whether the inode can be opened, and the branch through
    /// which it then counts as opened.
    pub open spec fn open(self, c: Ctx, ino: u64) -> Result<Option<Seq<char>>, Errno> {
        if ino == CTL_INO || self.has_ctl(ino) {
            Ok(None)
        } else if !self.inodes.has_ino(ino) {
            Err(Errno::NoEnt)
        } else {
            match classify(self.inodes.path_of(ino)) {
                PathKind::BranchDir(_) => Ok(None),
                PathKind::BranchCtl(_) => Ok(None),
                PathKind::BranchPath(b, rel) => if c.valid(b) && c.resolved(b, rel) is Some {
                    Ok(Some(b))
                } else {
                    Err(Errno::NoEnt)
                },
                _ => if self.stale(c) {
                    Err(Errno::Stale)
                } else if c.resolved(self.branch, self.inodes.path_of(ino)) is Some {
                    Ok(Some(self.branch))
                } else {
                    Err(Errno::NoEnt)
                },
            }
        }
    }

    /// The bytes of `rel` in `branch`, through the kept descriptor when it is
    /// for this inode and epoch.
    pub open spec fn fetch(self, c: Ctx, ino: u64, branch: Seq<char>, rel: Seq<char>, recheck: bool) -> (
        FsState,
        Result<ReadView, Errno>,
    ) {
        if self.read_cache == Some((ino, self.epoch)) {
            (self, Ok(ReadView { source: SourceView::Cached, recheck }))
        } else {
            match c.resolved(branch, rel) {
                None => (self, Err(Errno::NoEnt)),
                Some(p) => (
                    FsState { read_cache: Some((ino, self.epoch)), ..self },
                    Ok(ReadView { source: SourceView::Open(p), recheck }),
                ),
            }
        }
    }

    /// `read(ino)`: where the bytes come from.
    pub open spec fn read(self, c: Ctx, ino: u64) -> (FsState, Result<ReadView, Errno>) {
        match self.place(ino) {
            Some(PathKind::BranchPath(b, rel)) => if !c.valid(b) {
                (self, Err(Errno::NoEnt))
            } else {
                self.fetch(c, ino, b, rel, false)
            },
            Some(PathKind::BranchDir(_)) => (self, Err(Errno::IsDir)),
            Some(PathKind::BranchCtl(_)) => (self, Err(Errno::IsDir)),
            Some(PathKind::RootCtl) => (self, Err(Errno::IsDir)),
            Some(PathKind::Root) => if self.stale(c) {
                (self, Err(Errno::Stale))
            } else {
                self.fetch(c, ino, self.branch, seq!['/'], true)
            },
            Some(PathKind::RootPath(p)) => if self.stale(c) {
                (self, Err(Errno::Stale))
            } else {
                self.fetch(c, ino, self.branch, p, true)
            },
            None => if self.stale(c) {
                (self, Err(Errno::Stale))
            } else {
                (self, Err(Errno::NoEnt))
            },
        }
    }

    /// What a request that has touched the storage answers when staleness
    /// has to be looked at again.
    pub open spec fn recheck(self, c: Ctx, recheck: bool) -> Result<(), Errno> {
        if recheck && self.stale(c) {
            Err(Errno::Stale)
        } else {
            Ok(())
        }
    }

    /// The state without a read descriptor for `ino`.
    pub open spec fn without_read(self, ino: u64) -> FsState {
        if self.read_cache matches Some(kept) && kept.0 == ino {
            FsState { read_cache: None, ..self }
        } else {
            self
        }
    }

    /// The state without a write descriptor for `ino`.
    pub open spec fn without_write(self, ino: u64) -> FsState {
        if self.write_cache matches Some(kept) && kept.0 == ino {
            FsState { write_cache: None, ..self }
        } else {
            self
        }
    }

    /// A command written to the root's control file.
    pub open spec fn root_command(self, c: Ctx, text: Seq<char>) -> (
        FsState,
        Result<ActionView, Errno>,
    ) {
        match parse(text) {
            Parsed::Malformed => (self, Err(Errno::Inval)),
            Parsed::Switch(name) => if c.valid(name) {
                (self.switched(c.epoch, name), Ok(ActionView::Switched))
            } else {
                (self, Err(Errno::NoEnt))
            },
            Parsed::Commit => (
                self,
                Ok(ActionView::Commit { branch: self.branch, parent: c.parent_or_main(self.branch) }),
            ),
            Parsed::Abort => (
                self,
                Ok(ActionView::Abort { branch: self.branch, parent: c.parent_or_main(self.branch) }),
            ),
        }
    }

    /// A command written to the control file of branch `b`.
    pub open spec fn branch_command(c: Ctx, b: Seq<char>, text: Seq<char>) -> Result<
        ActionView,
        Errno,
    > {
        match parse(text) {
            Parsed::Commit => Ok(ActionView::Commit { branch: b, parent: c.parent_or_main(b) }),
            Parsed::Abort => Ok(ActionView::Abort { branch: b, parent: c.parent_or_main(b) }),
            _ => Err(Errno::Inval),
        }
    }

    /// A write of data to `rel` of `branch`.
    pub open spec fn write_data(
        self,
        c: Ctx,
        ino: u64,
        branch: Seq<char>,
        rel: Seq<char>,
        offset: i64,
        recheck: bool,
    ) -> (FsState, Result<WriteView, Errno>) {
        if offset < 0 {
            (self, Err(Errno::Io))
        } else {
            (
                FsState { write_cache: Some((ino, self.epoch)), ..self.without_read(ino) },
                Ok(
                    WriteView::Data {
                        copy_from: c.copy_source(branch, rel),
                        delta: c.delta(branch, rel),
                        offset: offset as u64,
                        reuse: self.write_cache == Some((ino, self.epoch)),
                        recheck,
                    },
                ),
            )
        }
    }

    /// `write(ino, offset, data)`.
    pub open spec fn write(self, c: Ctx, ino: u64, offset: i64, data: Seq<u8>) -> (
        FsState,
        Result<WriteView, Errno>,
    ) {
        if ino == CTL_INO {
            let (after, r) = self.root_command(c, utf8_lossy(data));
            (
                after,
                match r {
                    Ok(a) => Ok(WriteView::Control(a)),
                    Err(e) => Err(e),
                },
            )
        } else if self.has_ctl(ino) {
            (
                self,
                match FsState::branch_command(c, self.branch_of_ctl(ino), utf8_lossy(data)) {
                    Ok(a) => Ok(WriteView::Control(a)),
                    Err(e) => Err(e),
                },
            )
        } else if !self.inodes.has_ino(ino) {
            (self, Err(Errno::NoEnt))
        } else {
            match classify(self.inodes.path_of(ino)) {
                PathKind::BranchDir(_) => (self, Err(Errno::Perm)),
                PathKind::BranchCtl(_) => (self, Err(Errno::Perm)),
                PathKind::RootCtl => (self, Err(Errno::Perm)),
                PathKind::BranchPath(b, rel) => if !c.valid(b) {
                    (self, Err(Errno::NoEnt))
                } else {
                    self.write_data(c, ino, b, rel, offset, false)
                },
                PathKind::Root => if self.stale(c) {
                    (self, Err(Errno::Stale))
                } else {
                    self.write_data(c, ino, self.branch, seq!['/'], offset, true)
                },
                PathKind::RootPath(p) => if self.stale(c) {
                    (self, Err(Errno::Stale))
                } else {
                    self.write_data(c, ino, self.branch, p, offset, true)
                },
            }
        }
    }

    /// `ioctl(cmd)`.
    pub open spec fn ioctl(self, c: Ctx, cmd: u32) -> Result<ActionView, Errno> {
        if cmd == BRANCHFS_IOC_COMMIT {
            Ok(ActionView::Commit { branch: self.branch, parent: c.parent_or_main(self.branch) })
        } else if cmd == BRANCHFS_IOC_ABORT {
            Ok(ActionView::Abort { branch: self.branch, parent: c.parent_or_main(self.branch) })
        } else {
            Err(Errno::NoTty)
        }
    }

    /// The plan for a new entry `rel` of `branch`.
    pub open spec fn create_at(
        c: Ctx,
        branch: Seq<char>,
        rel: Seq<char>,
        inode_path: Seq<char>,
        mode: u32,
        umask: u32,
        is_dir: bool,
        recheck: bool,
    ) -> CreateView {
        CreateView { delta: c.delta(branch, rel), inode_path, mode: mode & !umask, is_dir, recheck }
    }

    /// `create(parent, name, mode, umask)`, and `mkdir` when `is_dir`.
    pub open spec fn create(
        self,
        c: Ctx,
        parent: u64,
        name: Seq<char>,
        mode: u32,
        umask: u32,
        is_dir: bool,
    ) -> Result<CreateView, Errno> {
        if !self.inodes.has_ino(parent) {
            Err(Errno::NoEnt)
        } else {
            match classify(self.inodes.path_of(parent)) {
                PathKind::BranchDir(b) => if !c.valid(b) {
                    Err(Errno::NoEnt)
                } else {
                    let rel = child_of(seq!['/'], name);
                    Ok(
                        FsState::create_at(
                            c,
                            b,
                            rel,
                            branch_view_path(b, rel),
                            mode,
                            umask,
                            is_dir,
                            false,
                        ),
                    )
                },
                PathKind::BranchPath(b, parent_rel) => if !c.valid(b) {
                    Err(Errno::NoEnt)
                } else {
                    let rel = child_of(parent_rel, name);
                    Ok(
                        FsState::create_at(
                            c,
                            b,
                            rel,
                            branch_view_path(b, rel),
                            mode,
                            umask,
                            is_dir,
                            false,
                        ),
                    )
                },
                PathKind::BranchCtl(_) => Err(Errno::Perm),
                PathKind::RootCtl => Err(Errno::Perm),
                PathKind::Root => if self.stale(c) {
                    Err(Errno::Stale)
                } else {
                    let rel = child_of(seq!['/'], name);
                    Ok(FsState::create_at(c, self.branch, rel, rel, mode, umask, is_dir, true))
                },
                PathKind::RootPath(rp) => if self.stale(c) {
                    Err(Errno::Stale)
                } else {
                    let rel = child_of(rp, name);
                    Ok(FsState::create_at(c, self.branch, rel, rel, mode, umask, is_dir, true))
                },
            }
        }
    }

    /// The answer once the file or directory of `plan` has been made.
    pub open spec fn created(self, c: Ctx, plan: CreateView) -> (FsState, Result<EntryView, Errno>) {
        if plan.recheck && self.stale(c) {
            (self, Err(Errno::Stale))
        } else {
            self.enter(plan.inode_path, plan.is_dir, AttrView::Storage(plan.delta))
        }
    }

    /// The plan for removing `rel` of `branch`.
    pub open spec fn unlink_at(
        c: Ctx,
        branch: Seq<char>,
        rel: Seq<char>,
        inode_path: Seq<char>,
        recheck: bool,
    ) -> UnlinkView {
        UnlinkView {
            branch,
            rel,
            log_line: if c.tree[branch].tombstones.contains(rel) {
                None
            } else {
                Some(rel + seq!['\n'])
            },
            log_file: c.tree[branch].log_file,
            delta: c.delta(branch, rel),
            inode_path,
            recheck,
        }
    }

    /// Whether `name` is a synthetic entry, which cannot be removed.
    pub open spec fn is_synthetic_name(name: Seq<char>) -> bool {
        (name.len() > 0 && name[0] == '@') || name == ctl_name()
    }

    /// `unlink(parent, name)`, and `rmdir`.
    pub open spec fn unlink(self, c: Ctx, parent: u64, name: Seq<char>) -> Result<UnlinkView, Errno> {
        if !self.inodes.has_ino(parent) {
            Err(Errno::NoEnt)
        } else {
            match classify(self.inodes.path_of(parent)) {
                PathKind::BranchDir(b) => if FsState::is_synthetic_name(name) {
                    Err(Errno::Perm)
                } else if !c.valid(b) {
                    Err(Errno::NoEnt)
                } else {
                    let rel = child_of(seq!['/'], name);
                    Ok(FsState::unlink_at(c, b, rel, branch_view_path(b, rel), false))
                },
                PathKind::BranchPath(b, parent_rel) => if FsState::is_synthetic_name(name) {
                    Err(Errno::Perm)
                } else if !c.valid(b) {
                    Err(Errno::NoEnt)
                } else {
                    let rel = child_of(parent_rel, name);
                    Ok(FsState::unlink_at(c, b, rel, branch_view_path(b, rel), false))
                },
                PathKind::BranchCtl(_) => Err(Errno::Perm),
                PathKind::RootCtl => Err(Errno::Perm),
                PathKind::Root => if FsState::is_synthetic_name(name) {
                    Err(Errno::Perm)
                } else if self.stale(c) {
                    Err(Errno::Stale)
                } else {
                    let rel = child_of(seq!['/'], name);
                    Ok(FsState::unlink_at(c, self.branch, rel, rel, true))
                },
                PathKind::RootPath(rp) => if FsState::is_synthetic_name(name) {
                    Err(Errno::Perm)
                } else if self.stale(c) {
                    Err(Errno::Stale)
                } else {
                    let rel = child_of(rp, name);
                    Ok(FsState::unlink_at(c, self.branch, rel, rel, true))
                },
            }
        }
    }

    /// The plan for changing the attributes of `rel` of `branch`.
    pub open spec fn setattr_at(
        self,
        c: Ctx,
        ino: u64,
        branch: Seq<char>,
        rel: Seq<char>,
        touches: bool,
        size: Option<u64>,
    ) -> (FsState, Result<SetattrView, Errno>) {
        let copy_from = if touches {
            c.copy_source(branch, rel)
        } else {
            None
        };
        let delta = c.delta(branch, rel);
        let shown = if c.tree[branch].tombstones.contains(rel) {
            None
        } else if touches && (c.disk.contains_key(delta) || copy_from is Some) {
            Some(delta)
        } else {
            c.resolved(branch, rel)
        };
        match shown {
            None => (self, Err(Errno::NoEnt)),
            Some(p) => (
                if size is Some {
                    self.without_read(ino).without_write(ino)
                } else {
                    self
                },
                Ok(
                    SetattrView {
                        copy_from,
                        delta: if touches {
                            Some(delta)
                        } else {
                            None
                        },
                        size,
                        entry: EntryView { ino, attr: AttrView::Storage(p) },
                    },
                ),
            ),
        }
    }

    /// The answer of `setattr` for a synthetic entry.
    pub open spec fn setattr_synthetic(ino: u64) -> SetattrView {
        SetattrView {
            copy_from: None,
            delta: None,
            size: None,
            entry: EntryView { ino, attr: AttrView::Ctl },
        }
    }

    /// `setattr(ino, ..)`: `touches` says whether any attribute is to change,
    /// `size` is the new size when the size is.
    pub open spec fn setattr(self, c: Ctx, ino: u64, touches: bool, size: Option<u64>) -> (
        FsState,
        Result<SetattrView, Errno>,
    ) {
        if ino == CTL_INO {
            (self, Ok(FsState::setattr_synthetic(CTL_INO)))
        } else if self.has_ctl(ino) {
            if c.valid(self.branch_of_ctl(ino)) {
                (self, Ok(FsState::setattr_synthetic(ino)))
            } else {
                (self, Err(Errno::NoEnt))
            }
        } else if !self.inodes.has_ino(ino) {
            (self, Err(Errno::NoEnt))
        } else {
            match classify(self.inodes.path_of(ino)) {
                PathKind::BranchDir(_) => (self, Err(Errno::Perm)),
                PathKind::BranchCtl(_) => (self, Err(Errno::Perm)),
                PathKind::RootCtl => (self, Ok(FsState::setattr_synthetic(CTL_INO))),
                PathKind::BranchPath(b, rel) => if !c.valid(b) {
                    (self, Err(Errno::NoEnt))
                } else {
                    self.setattr_at(c, ino, b, rel, touches, size)
                },
                PathKind::Root => if self.stale(c) {
                    (self, Err(Errno::Stale))
                } else {
                    self.setattr_at(c, ino, self.branch, seq!['/'], touches, size)
                },
                PathKind::RootPath(rp) => if self.stale(c) {
                    (self, Err(Errno::Stale))
                } else {
                    self.setattr_at(c, ino, self.branch, rp, touches, size)
                },
            }
        }
    }

    /// The directories to list for `rel` of `branch`. What resolves to a file
    /// cannot be listed.
    pub open spec fn list_at(
        c: Ctx,
        ino: u64,
        branch: Seq<char>,
        rel: Seq<char>,
        prefix: Seq<char>,
        branch_root: bool,
        mount_root: bool,
        recheck: bool,
    ) -> Result<ListView, Errno> {
        let base_dir = join(c.base, rel);
        match c.resolved(branch, rel) {
            Some(p) => if !c.is_dir(p) {
                Err(Errno::NotDir)
            } else {
                Ok(
                    ListView {
                        ino,
                        branch,
                        rel,
                        prefix,
                        base_dir,
                        delta_dir: if p != base_dir {
                            Some(p)
                        } else {
                            None
                        },
                        branch_root,
                        mount_root,
                        recheck,
                    },
                )
            },
            None => Ok(
                ListView {
                    ino,
                    branch,
                    rel,
                    prefix,
                    base_dir,
                    delta_dir: None,
                    branch_root,
                    mount_root,
                    recheck,
                },
            ),
        }
    }

    /// `readdir(ino)`, first part: which directories of the storage to list.
    pub open spec fn list_plan(self, c: Ctx, ino: u64) -> Result<ListView, Errno> {
        if !self.inodes.has_ino(ino) && ino != ROOT_INO {
            Err(Errno::NoEnt)
        } else {
            let kind = if self.inodes.has_ino(ino) {
                classify(self.inodes.path_of(ino))
            } else {
                PathKind::Root
            };
            match kind {
                PathKind::BranchDir(b) => if !c.valid(b) {
                    Err(Errno::NoEnt)
                } else {
                    FsState::list_at(
                            c,
                            ino,
                            b,
                            seq!['/'],
                            branch_view_path(b, Seq::empty()),
                            true,
                            false,
                            false,
                        )
                },
                PathKind::BranchPath(b, rel) => if !c.valid(b) {
                    Err(Errno::NoEnt)
                } else {
                    FsState::list_at(
                            c,
                            ino,
                            b,
                            rel,
                            branch_view_path(b, Seq::empty()),
                            false,
                            false,
                            false,
                        )
                },
                PathKind::Root => if self.stale(c) {
                    Err(Errno::Stale)
                } else {
                    FsState::list_at(
                            c,
                            ino,
                            self.branch,
                            seq!['/'],
                            Seq::empty(),
                            false,
                            true,
                            true,
                        )
                },
                PathKind::RootPath(rp) => if self.stale(c) {
                    Err(Errno::Stale)
                } else {
                    FsState::list_at(
                            c,
                            ino,
                            self.branch,
                            rp,
                            Seq::empty(),
                            false,
                            false,
                            true,
                        )
                },
                PathKind::RootCtl => Err(Errno::NotDir),
                PathKind::BranchCtl(_) => Err(Errno::NotDir),
            }
        }
    }
}

/// What listing some names has come to.
pub struct Listed {
    /// The state of the view, with an inode number for each entry.
    pub state: FsState,
    /// The entries, in the order of the names.
    pub entries: Seq<DirEntryView>,
    /// The names entered so far.
    pub seen: Set<Seq<char>>,
    /// Whether the listing stopped because no inode number was left.
    pub full: bool,
}

impl FsState {
    /// The entries for `items`, the names and kinds found in a directory of
    /// the storage. A name that was seen before is passed over. Each entry
    /// gets the inode number of `prefix` followed by its virtual path.
    pub open spec fn list_items(
        self,
        prefix: Seq<char>,
        rel: Seq<char>,
        items: Seq<(Seq<char>, bool)>,
        seen: Set<Seq<char>>,
    ) -> Listed
        decreases items.len(),
    {
        if items.len() == 0 {
            Listed { state: self, entries: Seq::empty(), seen, full: false }
        } else {
            let name = items[0].0;
            let is_dir = items[0].1;
            let path = prefix + child_of(rel, name);
            if seen.contains(name) {
                self.list_items(prefix, rel, items.drop_first(), seen)
            } else if !self.can_hold(path) {
                Listed { state: self, entries: Seq::empty(), seen, full: true }
            } else {
                let rest = FsState { inodes: self.inodes.create(path, is_dir), ..self }.list_items(
                    prefix,
                    rel,
                    items.drop_first(),
                    seen.insert(name),
                );
                Listed {
                    entries: seq![DirEntryView { ino: self.inodes.ino_for(path), is_dir, name }]
                        + rest.entries,
                    ..rest
                }
            }
        }
    }

    /// The entries for the `@` directories of `names`, each numbered as
    /// `prefix` followed by `/@` and the name.
    pub open spec fn list_branches(self, prefix: Seq<char>, names: Seq<Seq<char>>) -> Listed
        decreases names.len(),
    {
        if names.len() == 0 {
            Listed { state: self, entries: Seq::empty(), seen: Set::empty(), full: false }
        } else {
            let shown = seq!['@'] + names[0];
            let path = prefix + seq!['/'] + shown;
            if !self.can_hold(path) {
                Listed { state: self, entries: Seq::empty(), seen: Set::empty(), full: true }
            } else {
                let rest = FsState { inodes: self.inodes.create(path, true), ..self }.list_branches(
                    prefix,
                    names.drop_first(),
                );
                Listed {
                    entries: seq![
                        DirEntryView { ino: self.inodes.ino_for(path), is_dir: true, name: shown },
                    ] + rest.entries,
                    ..rest
                }
            }
        }
    }

    /// The entries `.` and `..` of the directory `ino`.
    pub open spec fn dots(ino: u64) -> Seq<DirEntryView> {
        seq![
            DirEntryView { ino, is_dir: true, name: "."@ },
            DirEntryView { ino, is_dir: true, name: ".."@ },
        ]
    }

    /// The entries of a directory that come from the storage: `.` and `..`,
    /// then what the branch holds, then what the base holds under names that
    /// the branch does not hold.
    pub open spec fn collect(
        self,
        plan: ListView,
        branch_items: Seq<(Seq<char>, bool)>,
        base_items: Seq<(Seq<char>, bool)>,
    ) -> Listed {
        let upper = self.list_items(plan.prefix, plan.rel, branch_items, Set::empty());
        if upper.full {
            upper
        } else {
            let lower = upper.state.list_items(plan.prefix, plan.rel, base_items, upper.seen);
            Listed { entries: FsState::dots(plan.ino) + upper.entries + lower.entries, ..lower }
        }
    }

    /// The answer of a readdir whose entries are `entries`.
    pub open spec fn listing(self, c: Ctx, plan: ListView, entries: Seq<DirEntryView>) -> (
        FsState,
        Result<Seq<DirEntryView>, Errno>,
    ) {
        if plan.recheck && self.stale(c) {
            (self, Err(Errno::Stale))
        } else {
            (self, Ok(entries))
        }
    }

    /// `readdir`, second part: the entries of the directory, given what the
    /// listed directories of the storage hold. After the entries from the
    /// storage come the control file and the `@` directories: in the root of
    /// a branch those of its children, in the root of the mount those of all
    /// branches but `main`.
    pub open spec fn readdir(
        self,
        c: Ctx,
        plan: ListView,
        branch_items: Seq<(Seq<char>, bool)>,
        base_items: Seq<(Seq<char>, bool)>,
    ) -> (FsState, Result<Seq<DirEntryView>, Errno>) {
        let files = self.collect(plan, branch_items, base_items);
        if files.full {
            (files.state, Err(Errno::Io))
        } else if plan.branch_root {
            if !(files.state.ctl.contains_key(plan.branch) || files.state.has_ctl_room()) {
                (files.state, Err(Errno::Io))
            } else {
                let ctl = DirEntryView {
                    ino: files.state.ctl_ino_for(plan.branch),
                    is_dir: false,
                    name: ctl_name(),
                };
                let kids = files.state.with_ctl(plan.branch).list_branches(
                    plan.prefix,
                    c.children(plan.branch),
                );
                if kids.full {
                    (kids.state, Err(Errno::Io))
                } else {
                    kids.state.listing(c, plan, files.entries + seq![ctl] + kids.entries)
                }
            }
        } else if plan.mount_root {
            let ctl = DirEntryView { ino: CTL_INO, is_dir: false, name: ctl_name() };
            let kids = files.state.list_branches(plan.prefix, c.side_branches());
            if kids.full {
                (kids.state, Err(Errno::Io))
            } else {
                kids.state.listing(c, plan, files.entries + seq![ctl] + kids.entries)
            }
        } else {
            files.state.listing(c, plan, files.entries)
        }
    }
}

/// The part of a file of `len` bytes that a read of `size` bytes at `offset`
/// returns: it starts at `offset` and ends after `size` bytes or at the end
/// of the file; nothing is returned from beyond the end.
pub open spec fn read_window(len: nat, offset: i64, size: u32) -> (nat, nat) {
    if 0 <= offset < len {
        (
            offset as nat,
            if offset + size < len {
                (offset + size) as nat
            } else {
                len
            },
        )
    } else {
        (0, 0)
    }
}

} // verus!
