//! Storage paths and virtual paths, as strings.
//!
//! A virtual path names a file as seen through the mount point and begins with
//! `/`. A storage path names a file on the backing disk. Joining follows the
//! rules of Unix paths: a separator is added unless the base is empty or
//! already ends with one.

use vstd::prelude::*;
use crate::text::{chars_to_string, concat, concat3, str_chars};

verus! {

/// `p` without its leading `/` characters.
pub open spec fn trim_leading_slashes(p: Seq<char>) -> Seq<char>
    decreases p.len(),
{
    if p.len() > 0 && p[0] == '/' {
        trim_leading_slashes(p.drop_first())
    } else {
        p
    }
}

/// The storage path of `rel` below the directory `base`.
pub open spec fn join(base: Seq<char>, rel: Seq<char>) -> Seq<char> {
    let tail = trim_leading_slashes(rel);
    if base.len() == 0 || base.last() == '/' {
        base + tail
    } else {
        base + seq!['/'] + tail
    }
}

/// The virtual path of the entry `name` inside the directory `parent`.
pub open spec fn child_of(parent: Seq<char>, name: Seq<char>) -> Seq<char> {
    if parent == seq!['/'] {
        parent + name
    } else {
        parent + seq!['/'] + name
    }
}

/// The path under which the inode table keeps `rel` of branch `branch` when
/// it is reached through the branch's `@` directory.
pub open spec fn branch_view_path(branch: Seq<char>, rel: Seq<char>) -> Seq<char> {
    seq!['/', '@'] + branch + rel
}

/// A suffix of `p` that starts where its leading slashes end.
proof fn lemma_trim_suffix(p: Seq<char>, k: int)
    requires
        0 <= k <= p.len(),
        forall|j: int| 0 <= j < k ==> p[j] == '/',
        k == p.len() || p[k] != '/',
    ensures
        trim_leading_slashes(p) == p.subrange(k, p.len() as int),
    decreases k,
{
    if k == 0 {
        assert(p.subrange(0, p.len() as int) =~= p);
    } else {
        let q = p.drop_first();
        assert forall|j: int| 0 <= j < k - 1 implies q[j] == '/' by {
            assert(q[j] == p[j + 1]);
        }
        lemma_trim_suffix(q, k - 1);
        assert(q.subrange(k - 1, q.len() as int) =~= p.subrange(k, p.len() as int));
    }
}

/// `p` without its leading `/` characters.
pub fn trim_start_slashes(p: &str) -> (r: String)
    ensures
        r@ == trim_leading_slashes(p@),
{
    let v = str_chars(p);
    let mut k: usize = 0;
    while k < v.len() && v[k] == '/'
        invariant
            k <= v.len(),
            forall|j: int| 0 <= j < k ==> v@[j] == '/',
        decreases v.len() - k,
    {
        k += 1;
    }
    proof {
        lemma_trim_suffix(v@, k as int);
    }
    chars_to_string(&v, k, v.len())
}

/// The storage path of `rel` below the directory `base`.
pub fn join_path(base: &str, rel: &str) -> (r: String)
    ensures
        r@ == join(base@, rel@),
{
    let tail = trim_start_slashes(rel);
    let b = str_chars(base);
    if b.len() == 0 || b[b.len() - 1] == '/' {
        concat(base, tail.as_str())
    } else {
        proof {
            reveal_strlit("/");
            assert("/"@ =~= seq!['/']);
        }
        concat3(base, "/", tail.as_str())
    }
}

/// The virtual path of the entry `name` inside the directory `parent`.
pub fn child_path(parent: &str, name: &str) -> (r: String)
    ensures
        r@ == child_of(parent@, name@),
{
    proof {
        reveal_strlit("/");
        assert("/"@ =~= seq!['/']);
    }
    if *parent == *"/" {
        concat(parent, name)
    } else {
        concat3(parent, "/", name)
    }
}

/// The inode-table path of `rel` of `branch`, seen through its `@` directory.
pub fn branch_path(branch: &str, rel: &str) -> (r: String)
    ensures
        r@ == branch_view_path(branch@, rel@),
{
    proof {
        reveal_strlit("/@");
        assert("/@"@ =~= seq!['/', '@']);
    }
    concat3("/@", branch, rel)
}

} // verus!
