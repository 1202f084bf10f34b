//! Errors of the branch manager and the codes reported to the kernel bridge.

use vstd::prelude::*;
use crate::text::concat;

verus! {

/// Why a branch operation failed.
#[derive(Debug, Clone, PartialEq, Eq)]
pub enum BranchError {
    /// The named branch is not known to the manager.
    NotFound(String),
    /// The mount point is not tracked.
    MountNotFound(String),
    /// A branch of that name exists already.
    AlreadyExists(String),
    /// The name cannot be used for a branch, or the branch's ancestry is broken.
    Invalid(String),
    /// The parent named for a new branch is not known to the manager.
    ParentNotFound(String),
    /// Only branches other than `main` can be committed or aborted.
    CannotOperateOnMain,
    /// The storage failed; the text is the system's message.
    Io(String),
    /// A message of the control protocol could not be read or written.
    Json(String),
    /// A system call failed; the text is the system's message.
    Nix(String),
}

/// The code with which a filesystem request is refused.
#[derive(Clone, Copy, Debug, PartialEq, Eq, Structural)]
pub enum Errno {
    /// The path or the branch does not exist.
    NoEnt,
    /// The view was invalidated by a commit or an abort.
    Stale,
    /// The request needs a regular file and was given a synthetic entry.
    IsDir,
    /// The request needs a directory.
    NotDir,
    /// A synthetic entry cannot be changed.
    Perm,
    /// The control command is malformed.
    Inval,
    /// The storage failed, or the failure has no code of its own.
    Io,
    /// The ioctl command is unknown.
    NoTty,
}

/// The text shown when the mount point `m` is not tracked.
pub open spec fn mount_not_found_text(m: Seq<char>) -> Seq<char> {
    "mountpoint not tracked: "@ + m + " (already unmounted or daemon restarted)"@
}

impl BranchError {
    /// The text shown for this error.
    pub open spec fn message_spec(self) -> Seq<char> {
        match self {
            BranchError::NotFound(n) => "branch not found: "@ + n@,
            BranchError::MountNotFound(m) => mount_not_found_text(m@),
            BranchError::AlreadyExists(n) => "branch already exists: "@ + n@,
            BranchError::Invalid(n) => "branch is invalid: "@ + n@,
            BranchError::ParentNotFound(n) => "parent branch not found: "@ + n@,
            BranchError::CannotOperateOnMain => "cannot operate on main branch"@,
            BranchError::Io(m) => "io error: "@ + m@,
            BranchError::Json(m) => "json error: "@ + m@,
            BranchError::Nix(m) => "nix error: "@ + m@,
        }
    }

    /// The code reported to the kernel bridge for this error: a missing
    /// branch or mount is `NoEnt`, everything else is `Io`.
    pub open spec fn errno_spec(self) -> Errno {
        match self {
            BranchError::NotFound(_) => Errno::NoEnt,
            BranchError::ParentNotFound(_) => Errno::NoEnt,
            BranchError::MountNotFound(_) => Errno::NoEnt,
            _ => Errno::Io,
        }
    }

    /// The text shown for this error.
    pub fn message(&self) -> (r: String)
        ensures
            r@ == self.message_spec(),
    {
        match self {
            BranchError::NotFound(n) => concat("branch not found: ", n.as_str()),
            BranchError::MountNotFound(m) => {
                let head = concat("mountpoint not tracked: ", m.as_str());
                concat(head.as_str(), " (already unmounted or daemon restarted)")
            },
            BranchError::AlreadyExists(n) => concat("branch already exists: ", n.as_str()),
            BranchError::Invalid(n) => concat("branch is invalid: ", n.as_str()),
            BranchError::ParentNotFound(n) => concat("parent branch not found: ", n.as_str()),
            BranchError::CannotOperateOnMain => "cannot operate on main branch".to_owned(),
            BranchError::Io(m) => concat("io error: ", m.as_str()),
            BranchError::Json(m) => concat("json error: ", m.as_str()),
            BranchError::Nix(m) => concat("nix error: ", m.as_str()),
        }
    }

    /// The code reported to the kernel bridge for this error.
    pub fn errno(&self) -> (r: Errno)
        ensures
            r == self.errno_spec(),
    {
        match self {
            BranchError::NotFound(_) => Errno::NoEnt,
            BranchError::ParentNotFound(_) => Errno::NoEnt,
            BranchError::MountNotFound(_) => Errno::NoEnt,
            _ => Errno::Io,
        }
    }
}

} // verus!
