//! What a virtual path names.
//!
//! Seen through the mount point, `/` is the root and `/.branchfs_ctl` its
//! control file. `/@name` is the virtual directory of branch `name`, with a
//! control file of its own, and everything below it is a path of that branch.
//! A branch directory inside a branch directory stands for the inner branch:
//! `/@a/@b/x` names what `/@b/x` names.

use vstd::prelude::*;
use crate::text::{chars_find, chars_to_string, find_char, str_chars};

verus! {

/// Name of the synthetic control file.
pub const CTL_FILE: &'static str = ".branchfs_ctl";

/// What a virtual path names, over character sequences.
pub enum PathKind {
    Root,
    RootCtl,
    BranchDir(Seq<char>),
    BranchCtl(Seq<char>),
    BranchPath(Seq<char>, Seq<char>),
    RootPath(Seq<char>),
}

/// What a virtual path names.
#[derive(Debug, Clone, PartialEq, Eq)]
pub enum PathContext {
    /// The root of the mount, `/`.
    Root,
    /// The control file of the root, `/.branchfs_ctl`.
    RootCtl,
    /// The virtual directory of a branch, `/@name`.
    BranchDir(String),
    /// The control file of a branch, `/@name/.branchfs_ctl`.
    BranchCtl(String),
    /// A path inside a branch: the branch and the path below it, which begins
    /// with `/`.
    BranchPath(String, String),
    /// Any other path; it is seen through the mount's current branch.
    RootPath(String),
}

impl View for PathContext {
    type V = PathKind;

    open spec fn view(&self) -> PathKind {
        match self {
            PathContext::Root => PathKind::Root,
            PathContext::RootCtl => PathKind::RootCtl,
            PathContext::BranchDir(b) => PathKind::BranchDir(b@),
            PathContext::BranchCtl(b) => PathKind::BranchCtl(b@),
            PathContext::BranchPath(b, rel) => PathKind::BranchPath(b@, rel@),
            PathContext::RootPath(p) => PathKind::RootPath(p@),
        }
    }
}

/// The path of the root's control file.
pub open spec fn root_ctl_path() -> Seq<char> {
    "/.branchfs_ctl"@
}

/// Whether `path` begins with `/@`.
pub open spec fn enters_branch(path: Seq<char>) -> bool {
    path.len() >= 2 && path[0] == '/' && path[1] == '@'
}

/// What the virtual path `path` names.
pub open spec fn classify(path: Seq<char>) -> PathKind
    decreases path.len(),
{
    if path == "/"@ {
        PathKind::Root
    } else if path == root_ctl_path() {
        PathKind::RootCtl
    } else if enters_branch(path) {
        let rest = path.skip(2);
        let n = find_char(rest, '/');
        if n >= rest.len() {
            PathKind::BranchDir(rest)
        } else {
            let below = rest.skip(n as int);
            if enters_branch(below) {
                classify(below)
            } else if below == root_ctl_path() {
                PathKind::BranchCtl(rest.take(n as int))
            } else {
                PathKind::BranchPath(rest.take(n as int), below)
            }
        }
    } else {
        PathKind::RootPath(path)
    }
}

/// A branch directory inside a branch directory stands for the inner branch:
/// `/@a` followed by a path that enters a branch names what that path names.
pub proof fn law_inner_branch(outer: Seq<char>, inner: Seq<char>)
    requires
        !outer.contains('/'),
        enters_branch(inner),
    ensures
        classify(seq!['/', '@'] + outer + inner) == classify(inner),
{
    let path = seq!['/', '@'] + outer + inner;
    reveal_strlit("/");
    reveal_strlit("/.branchfs_ctl");
    assert(path[1] == '@');
    assert(path != "/"@);
    assert(path != root_ctl_path()) by {
        if path == root_ctl_path() {
            assert(root_ctl_path()[1] == '.');
        }
    }
    let rest = path.skip(2);
    assert(rest =~= outer + inner);
    assert forall|j: int| 0 <= j < outer.len() implies rest[j] != '/' by {
        assert(rest[j] == outer[j]);
        assert(outer.contains(outer[j]));
    }
    assert(rest[outer.len() as int] == inner[0]);
    crate::text::lemma_find_char(rest, '/', outer.len());
    assert(rest.skip(outer.len() as int) =~= inner);
}

/// What the virtual path `path` names.
pub fn classify_path(path: &str) -> (r: PathContext)
    ensures
        r@ == classify(path@),
{
    let v = str_chars(path);
    let n = v.len();
    let mut start: usize = 0;
    assert(v@.skip(0) =~= v@);
    loop
        invariant
            n == v.len(),
            start <= n,
            v@ == path@,
            classify(path@) == classify(v@.skip(start as int)),
        decreases n - start,
    {
        let ghost cur = v@.skip(start as int);
        let whole = chars_to_string(&v, start, n);
        assert(whole@ =~= cur);
        if *whole.as_str() == *"/" {
            return PathContext::Root;
        }
        if *whole.as_str() == *"/.branchfs_ctl" {
            return PathContext::RootCtl;
        }
        if n - start >= 2 && v[start] == '/' && v[start + 1] == '@' {
            let from = start + 2;
            let slash = chars_find(&v, from, '/');
            let ghost rest = cur.skip(2);
            assert(rest =~= v@.skip(from as int));
            assert(cur[0] == v@[start as int] && cur[1] == v@[start + 1]);
            assert(enters_branch(cur));
            if slash == n {
                let name = chars_to_string(&v, from, n);
                assert(name@ =~= rest);
                return PathContext::BranchDir(name);
            }
            let ghost below = rest.skip(slash - from);
            assert(below =~= v@.skip(slash as int));
            assert(below[0] == v@[slash as int]);
            if n - slash >= 2 && v[slash + 1] == '@' {
                assert(below[1] == v@[slash + 1]);
                assert(enters_branch(below));
                assert(classify(cur) == classify(below));
                start = slash;
            } else {
                proof {
                    if below.len() >= 2 {
                        assert(below[1] == v@[slash + 1]);
                    }
                }
                let name = chars_to_string(&v, from, slash);
                assert(name@ =~= rest.take(slash - from));
                let tail = chars_to_string(&v, slash, n);
                assert(tail@ =~= below);
                if *tail.as_str() == *"/.branchfs_ctl" {
                    return PathContext::BranchCtl(name);
                } else {
                    return PathContext::BranchPath(name, tail);
                }
            }
        } else {
            proof {
                if cur.len() >= 2 {
                    assert(cur[0] == v@[start as int]);
                    assert(cur[1] == v@[start + 1]);
                }
            }
            return PathContext::RootPath(whole);
        }
    }
}

} // verus!
