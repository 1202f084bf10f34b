//! A branchable overlay on an immutable base directory.
//!
//! Writers work in named branches. A branch records only what differs from
//! its parent: files that it added or changed, as deltas, and paths that it
//! deleted, as tombstones. The branches form a tree below `main`, which
//! stands for the base. A branch is committed, which writes its changes and
//! those of its ancestors to the base and leaves `main` alone, or aborted,
//! which discards it with its ancestors below `main` and every branch that
//! hangs on one of them.
//!
//! This crate decides; it never touches the disk, the kernel or a socket.
//! What depends on the storage is decided from a [`disk::Snapshot`] of it,
//! and what has to happen there is handed back as a plan.
//!
//! - [`inode`]: the table of paths and inode numbers of a mount
//! - [`branch`], [`tree`], [`manager`]: branches, the branch tree and its walks
//! - [`classify`], [`ctl`]: what a virtual path names, and the control protocol
//! - [`model`], [`fs`]: the view of a mount and the filesystem requests
//! - [`daemon`]: the daemon's requests, responses and table of mounts

pub mod branch;
pub mod classify;
pub mod ctl;
pub mod daemon;
pub mod disk;
pub mod error;
pub mod fs;
pub mod inode;
pub mod manager;
pub mod model;
pub mod paths;
pub mod table;
pub mod text;
pub mod tree;
