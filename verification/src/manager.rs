//! The branch manager: the branch tree of one mount, its epoch, and the
//! registry used to invalidate kernel caches.
//!
//! The manager decides; its caller touches the disk. Functions that depend on
//! what the storage holds take a `Snapshot` of it, and functions that change
//! what the storage must hold return what has to be done there.

use vstd::prelude::*;
use vstd::set_lib::lemma_len_subset;
use std::sync::Arc;
use crate::branch::{
    files_dir_of,
    is_valid_name,
    tombstones_file_of,
    valid_name,
    Branch,
    BranchView,
};
use crate::disk::{FileKind, Snapshot};
use crate::error::BranchError;
use crate::inode::ROOT_INO;
use crate::paths::{join, join_path};
use crate::table::StrMap;
use crate::text::{lemma_push_to_set, lemma_take_one_more, views};
use crate::tree::{
    chain, childless, children_of, decides, hanging_on, hangs_on, keeps_order,
    law_delta_inherited, law_orderly_parents_exist, law_orderly_walks_end,
    law_resolution_survives_removal, law_tombstone_inherited, lemma_chain_hangs_on_top,
    lemma_chain_links, lemma_chain_members, lemma_clear_along, lemma_first_decider,
    lemma_hanging_all, lemma_hanging_next, lemma_hangs_on_step, lemma_keeps_itself,
    lemma_keeps_order_without, lemma_orderly_grows, lemma_orderly_main, lemma_orderly_shrinks,
    lemma_prepend_twice, lemma_resolve_fuel, lemma_skip_one_less, lemma_victim_is_leaf,
    lists_hanging, main_name, orderly, parents_exist, precedes, prepend, probes, resolve,
    side_branches_of, top_of, Walk,
};

verus! {

/// The branch tree of one mount, its epoch, its places on disk, and the
/// registry of notifiers and opened inodes.
pub struct BranchManager {
    pub storage_path: String,
    pub base_path: String,
    pub workspace_path: String,
    branches: StrMap<Branch>,
    state_file: String,
    epoch: u64,
    notifiers: Vec<(String, String)>,
    opened_inodes: StrMap<Vec<u64>>,
}

/// The view of `main` when it has just been made: no parent, nothing deleted.
pub open spec fn fresh_main(storage: Seq<char>) -> BranchView {
    BranchView {
        parent: None,
        files_dir: files_dir_of(storage, main_name()),
        log_file: tombstones_file_of(storage, main_name()),
        tombstones: Set::empty(),
    }
}

/// The view of a branch when it has just been created below `parent`.
pub open spec fn fresh_branch(storage: Seq<char>, name: Seq<char>, parent: Seq<char>) -> BranchView {
    BranchView {
        parent: Some(parent),
        files_dir: files_dir_of(storage, name),
        log_file: tombstones_file_of(storage, name),
        tombstones: Set::empty(),
    }
}

/// Whether the `i`-th of the saved branches cannot be taken: an earlier one
/// has its name, or it is `main` with a parent, or another branch without
/// one, or its parent is not among the branches before it.
pub open spec fn misplaced(saved: Seq<Branch>, i: int) -> bool {
    ||| exists|j: int| 0 <= j < i && saved[j].name_view() == saved[i].name_view()
    ||| !(saved[i].parent_name() is None <==> saved[i].name_view() == main_name())
    ||| (saved[i].parent_name() matches Some(p) && !exists|j: int|
        0 <= j < i && saved[j].name_view() == p)
}

/// Whether the saved branches make a tree: the names differ, `main` is among
/// them and alone has no parent, and every other branch stands after its
/// parent.
pub open spec fn restorable(saved: Seq<Branch>) -> bool {
    &&& forall|i: int| 0 <= i < saved.len() ==> !misplaced(saved, i)
    &&& exists|i: int| 0 <= i < saved.len() && saved[i].name_view() == main_name()
}

/// Whether `r` reports how the walk for a chain ended. A walk that took too
/// many steps is reported as an invalid `start`.
pub open spec fn reports_chain(
    r: Result<Vec<String>, BranchError>,
    walk: Walk<Seq<Seq<char>>>,
    start: Seq<char>,
) -> bool {
    match walk {
        Walk::Done(names) => r matches Ok(v) && views(v@) == names,
        Walk::Missing(n) => r matches Err(BranchError::NotFound(m)) && m@ == n,
        Walk::Endless => r matches Err(BranchError::Invalid(m)) && m@ == start,
    }
}

/// Whether `r` reports how the walk for a path ended.
pub open spec fn reports_path(
    r: Result<Option<String>, BranchError>,
    walk: Walk<Option<Seq<char>>>,
    start: Seq<char>,
) -> bool {
    match walk {
        Walk::Done(Some(p)) => r matches Ok(Some(s)) && s@ == p,
        Walk::Done(None) => r matches Ok(None),
        Walk::Missing(n) => r matches Err(BranchError::NotFound(m)) && m@ == n,
        Walk::Endless => r matches Err(BranchError::Invalid(m)) && m@ == start,
    }
}

/// The tree that holds `main` alone, as when it has just been made.
pub open spec fn main_only(storage: Seq<char>) -> Map<Seq<char>, BranchView> {
    Map::<Seq<char>, BranchView>::empty().insert(main_name(), fresh_main(storage))
}

/// The error with which a commit or an abort of `branch` is refused: `main`
/// cannot be operated on, and a name that is no branch is not found.
pub open spec fn refusal(e: BranchError, tree: Map<Seq<char>, BranchView>, branch: Seq<char>) -> bool {
    if branch == main_name() {
        e is CannotOperateOnMain
    } else {
        !tree.contains_key(branch) && (e matches BranchError::NotFound(n) && n@ == branch)
    }
}

/// The paths that the first `n` branches of `names` have deleted.
pub open spec fn deleted_by(
    tree: Map<Seq<char>, BranchView>,
    names: Seq<String>,
    n: int,
) -> Set<Seq<char>> {
    Set::new(
        |p: Seq<char>|
            exists|j: int|
                0 <= j < n && j < names.len() && tree.contains_key(names[j]@)
                    && #[trigger] tree[names[j]@].tombstones.contains(p),
    )
}

/// Whether `listings` has an entry `k` for the `i`-th branch.
pub open spec fn is_listed(listings: Seq<Vec<(String, String)>>, i: int, k: int) -> bool {
    0 <= i < listings.len() && 0 <= k < listings[i]@.len()
}

/// The virtual path of entry `k` of the `i`-th branch.
pub open spec fn listed_rel(listings: Seq<Vec<(String, String)>>, i: int, k: int) -> Seq<char> {
    listings[i]@[k].0@
}

/// The storage path of entry `k` of the `i`-th branch.
pub open spec fn listed_path(listings: Seq<Vec<(String, String)>>, i: int, k: int) -> Seq<char> {
    listings[i]@[k].1@
}

/// Entry `(i2, k2)` comes before entry `(i, k)`: it belongs to a branch
/// nearer to the start of the chain, or stands earlier in the same listing.
pub open spec fn comes_before(i2: int, k2: int, i: int, k: int) -> bool {
    i2 < i || (i2 == i && k2 < k)
}

/// Whether the delta listed as entry `k` of the `i`-th branch of the chain is
/// written to the base by a commit: neither that branch nor one nearer to the
/// start of the chain has deleted its path, and no entry before it is for the
/// same path.
pub open spec fn wins(
    tree: Map<Seq<char>, BranchView>,
    names: Seq<String>,
    listings: Seq<Vec<(String, String)>>,
    i: int,
    k: int,
) -> bool {
    &&& is_listed(listings, i, k)
    &&& i < names.len()
    &&& !deleted_by(tree, names, i + 1).contains(listed_rel(listings, i, k))
    &&& forall|i2: int, k2: int|
        #![trigger listed_rel(listings, i2, k2)]
        is_listed(listings, i2, k2) && comes_before(i2, k2, i, k) ==> listed_rel(listings, i2, k2)
            != listed_rel(listings, i, k)
}

/// What a commit does to the base: the chain it folds, the paths to delete
/// below the base, and the deltas to write there, each with its virtual
/// path and the place of the delta.
#[derive(Debug)]
pub struct CommitPlan {
    pub chain: Vec<String>,
    pub deletions: Vec<String>,
    pub files: Vec<(String, String)>,
}

/// One kernel-cache invalidation: the mount whose notifier is to be told,
/// and the inodes to tell it about, in that order.
#[derive(Debug, Clone, PartialEq, Eq)]
pub struct Invalidation {
    pub branch: String,
    pub mountpoint: String,
    pub inodes: Vec<u64>,
}

/// The inodes to invalidate for a mount on a branch where `opened` were
/// opened: the root first, then every opened inode but the root, each once.
pub open spec fn covers(inodes: Seq<u64>, opened: Set<u64>) -> bool {
    &&& inodes.len() > 0
    &&& inodes[0] == ROOT_INO
    &&& inodes.no_duplicates()
    &&& inodes.to_set() == opened.insert(ROOT_INO)
}

/// Whether `name` is one of `names`.
pub open spec fn named(names: Seq<String>, name: Seq<char>) -> bool {
    exists|i: int| 0 <= i < names.len() && (#[trigger] names[i])@ == name
}

/// Whether a mount on branch `name` is to be told: every mount is when
/// `only` is `None`, else those on a branch that `only` names.
pub open spec fn wanted(only: Option<&[String]>, name: Seq<char>) -> bool {
    match only {
        None => true,
        Some(names) => named(names@, name),
    }
}

/// The epoch after one more commit.
pub open spec fn next_epoch(epoch: u64) -> u64 {
    if epoch == u64::MAX {
        0
    } else {
        (epoch + 1) as u64
    }
}

/// Whether `file` is a listed delta that wins.
pub open spec fn is_winner(
    tree: Map<Seq<char>, BranchView>,
    names: Seq<String>,
    listings: Seq<Vec<(String, String)>>,
    file: (String, String),
) -> bool {
    exists|i: int, k: int|
        wins(tree, names, listings, i, k) && file.0@ == #[trigger] listed_rel(listings, i, k)
            && file.1@ == listed_path(listings, i, k)
}

/// Whether `files` holds the delta at `path` for the virtual path `rel`.
pub open spec fn holds_file(files: Seq<(String, String)>, rel: Seq<char>, path: Seq<char>) -> bool {
    exists|m: int| 0 <= m < files.len() && (#[trigger] files[m]).0@ == rel && files[m].1@ == path
}

/// Entry `(a, b)` has been looked at when the walk over the listings stands
/// before entry `(i, k)`.
pub open spec fn looked_at(
    names: Seq<String>,
    listings: Seq<Vec<(String, String)>>,
    a: int,
    b: int,
    i: int,
    k: int,
) -> bool {
    is_listed(listings, a, b) && a < names.len() && comes_before(a, b, i, k)
}

/// What holds of the deltas taken so far when the walk over the listings
/// stands before entry `(i, k)`: `files` are the entries looked at that win,
/// `src` says where each came from, and `seen` are their paths.
pub open spec fn collected(
    tree: Map<Seq<char>, BranchView>,
    names: Seq<String>,
    listings: Seq<Vec<(String, String)>>,
    seen: Set<Seq<char>>,
    files: Seq<(String, String)>,
    src: Seq<(int, int)>,
    i: int,
    k: int,
) -> bool {
    &&& src.len() == files.len()
    &&& forall|p: Seq<char>|
        seen.contains(p) <==> exists|m: int| 0 <= m < files.len() && #[trigger] files[m].0@ == p
    &&& forall|m: int|
        0 <= m < files.len() ==> looked_at(names, listings, (#[trigger] src[m]).0, src[m].1, i, k)
            && wins(tree, names, listings, src[m].0, src[m].1) && files[m].0@ == listed_rel(
            listings,
            src[m].0,
            src[m].1,
        ) && files[m].1@ == listed_path(listings, src[m].0, src[m].1)
    &&& forall|a: int, b: int|
        #![trigger listed_rel(listings, a, b)]
        looked_at(names, listings, a, b, i, k) && wins(tree, names, listings, a, b)
            ==> exists|m: int| 0 <= m < src.len() && src[m] == (a, b)
    &&& forall|m1: int, m2: int|
        0 <= m1 < m2 < files.len() ==> (#[trigger] files[m1]).0@ != (#[trigger] files[m2]).0@
    &&& forall|a: int, b: int|
        #![trigger listed_rel(listings, a, b)]
        looked_at(names, listings, a, b, i, k) && !deleted_by(tree, names, a + 1).contains(
            listed_rel(listings, a, b),
        ) ==> seen.contains(listed_rel(listings, a, b))
}

/// What a nearer part of the chain has deleted, a longer part has deleted too.
proof fn lemma_deleted_grows(
    tree: Map<Seq<char>, BranchView>,
    names: Seq<String>,
    n: int,
    m: int,
    p: Seq<char>,
)
    requires
        n <= m,
        deleted_by(tree, names, n).contains(p),
    ensures
        deleted_by(tree, names, m).contains(p),
{
    let j = choose|j: int|
        0 <= j < n && j < names.len() && tree.contains_key(names[j]@)
            && #[trigger] tree[names[j]@].tombstones.contains(p);
    assert(0 <= j < m && j < names.len() && tree.contains_key(names[j]@)
        && tree[names[j]@].tombstones.contains(p));
}

/// Taking entry `(i, k)`, which was neither seen nor deleted.
proof fn lemma_take(
    tree: Map<Seq<char>, BranchView>,
    names: Seq<String>,
    listings: Seq<Vec<(String, String)>>,
    seen: Set<Seq<char>>,
    files: Seq<(String, String)>,
    src: Seq<(int, int)>,
    i: int,
    k: int,
    seen2: Set<Seq<char>>,
    files2: Seq<(String, String)>,
    src2: Seq<(int, int)>,
)
    requires
        collected(tree, names, listings, seen, files, src, i, k),
        is_listed(listings, i, k),
        i < names.len(),
        !seen.contains(listed_rel(listings, i, k)),
        !deleted_by(tree, names, i + 1).contains(listed_rel(listings, i, k)),
        seen2 == seen.insert(listed_rel(listings, i, k)),
        files2.len() == files.len() + 1,
        forall|m: int| 0 <= m < files.len() ==> files2[m] == files[m],
        files2[files.len() as int].0@ == listed_rel(listings, i, k),
        files2[files.len() as int].1@ == listed_path(listings, i, k),
        src2 == src.push((i, k)),
    ensures
        collected(tree, names, listings, seen2, files2, src2, i, k + 1),
{
    let rel = listed_rel(listings, i, k);
    let n = files.len() as int;
    assert(wins(tree, names, listings, i, k)) by {
        assert forall|i2: int, k2: int|
            #![trigger listed_rel(listings, i2, k2)]
            is_listed(listings, i2, k2) && comes_before(i2, k2, i, k) implies listed_rel(
            listings,
            i2,
            k2,
        ) != rel by {
            if listed_rel(listings, i2, k2) == rel {
                assert(looked_at(names, listings, i2, k2, i, k));
                if deleted_by(tree, names, i2 + 1).contains(rel) {
                    lemma_deleted_grows(tree, names, i2 + 1, i + 1, rel);
                }
                assert(seen.contains(listed_rel(listings, i2, k2)));
            }
        }
    }
    assert forall|p: Seq<char>|
        seen2.contains(p) <==> exists|m: int| 0 <= m < files2.len() && #[trigger] files2[m].0@
            == p by {
        if seen.contains(p) {
            let m = choose|m: int| 0 <= m < files.len() && #[trigger] files[m].0@ == p;
            assert(files2[m].0@ == p);
        }
        if p == rel {
            assert(files2[n].0@ == p);
        }
        if exists|m: int| 0 <= m < files2.len() && #[trigger] files2[m].0@ == p {
            let m = choose|m: int| 0 <= m < files2.len() && #[trigger] files2[m].0@ == p;
            if m < n {
                assert(files[m].0@ == p);
            }
        }
    }
    assert forall|m: int| 0 <= m < files2.len() implies looked_at(
        names,
        listings,
        (#[trigger] src2[m]).0,
        src2[m].1,
        i,
        k + 1,
    ) && wins(tree, names, listings, src2[m].0, src2[m].1) && files2[m].0@ == listed_rel(
        listings,
        src2[m].0,
        src2[m].1,
    ) && files2[m].1@ == listed_path(listings, src2[m].0, src2[m].1) by {
        if m < n {
            assert(src2[m] == src[m]);
        }
    }
    assert forall|a: int, b: int|
        #![trigger listed_rel(listings, a, b)]
        looked_at(names, listings, a, b, i, k + 1) && wins(
            tree,
            names,
            listings,
            a,
            b,
        ) implies exists|m: int| 0 <= m < src2.len() && src2[m] == (a, b) by {
        if a == i && b == k {
            assert(src2[n] == (a, b));
        } else {
            assert(looked_at(names, listings, a, b, i, k));
            let m = choose|m: int| 0 <= m < src.len() && src[m] == (a, b);
            assert(src2[m] == (a, b));
        }
    }
    assert forall|m1: int, m2: int| 0 <= m1 < m2 < files2.len() implies (#[trigger] files2[m1]).0@
        != (#[trigger] files2[m2]).0@ by {
        if m2 == n {
            assert(files[m1].0@ == files2[m1].0@);
            assert(seen.contains(files[m1].0@));
        } else {
            assert(files[m1].0@ != files[m2].0@);
        }
    }
    assert forall|a: int, b: int|
        #![trigger listed_rel(listings, a, b)]
        looked_at(names, listings, a, b, i, k + 1) && !deleted_by(tree, names, a + 1).contains(
            listed_rel(listings, a, b),
        ) implies seen2.contains(listed_rel(listings, a, b)) by {
        if !(a == i && b == k) {
            assert(looked_at(names, listings, a, b, i, k));
        }
    }
}

/// Passing over entry `(i, k)`, which was seen before or is deleted.
proof fn lemma_skip(
    tree: Map<Seq<char>, BranchView>,
    names: Seq<String>,
    listings: Seq<Vec<(String, String)>>,
    seen: Set<Seq<char>>,
    files: Seq<(String, String)>,
    src: Seq<(int, int)>,
    i: int,
    k: int,
)
    requires
        collected(tree, names, listings, seen, files, src, i, k),
        is_listed(listings, i, k),
        i < names.len(),
        seen.contains(listed_rel(listings, i, k)) || deleted_by(tree, names, i + 1).contains(
            listed_rel(listings, i, k),
        ),
    ensures
        collected(tree, names, listings, seen, files, src, i, k + 1),
{
    let rel = listed_rel(listings, i, k);
    assert(!wins(tree, names, listings, i, k)) by {
        if seen.contains(rel) {
            let m = choose|m: int| 0 <= m < files.len() && #[trigger] files[m].0@ == rel;
            assert(looked_at(names, listings, src[m].0, src[m].1, i, k));
            assert(listed_rel(listings, src[m].0, src[m].1) == rel);
        }
    }
    assert forall|m: int| 0 <= m < files.len() implies looked_at(
        names,
        listings,
        (#[trigger] src[m]).0,
        src[m].1,
        i,
        k + 1,
    ) by {}
    assert forall|a: int, b: int|
        #![trigger listed_rel(listings, a, b)]
        looked_at(names, listings, a, b, i, k + 1) && wins(
            tree,
            names,
            listings,
            a,
            b,
        ) implies exists|m: int| 0 <= m < src.len() && src[m] == (a, b) by {
        assert(looked_at(names, listings, a, b, i, k));
    }
    assert forall|a: int, b: int|
        #![trigger listed_rel(listings, a, b)]
        looked_at(names, listings, a, b, i, k + 1) && !deleted_by(tree, names, a + 1).contains(
            listed_rel(listings, a, b),
        ) implies seen.contains(listed_rel(listings, a, b)) by {
        if !(a == i && b == k) {
            assert(looked_at(names, listings, a, b, i, k));
        }
    }
}

/// After the last entry of the `i`-th listing the walk stands before the
/// first entry of the next.
proof fn lemma_next_branch(
    tree: Map<Seq<char>, BranchView>,
    names: Seq<String>,
    listings: Seq<Vec<(String, String)>>,
    seen: Set<Seq<char>>,
    files: Seq<(String, String)>,
    src: Seq<(int, int)>,
    i: int,
)
    requires
        0 <= i < listings.len(),
        collected(tree, names, listings, seen, files, src, i, listings[i]@.len() as int),
    ensures
        collected(tree, names, listings, seen, files, src, i + 1, 0),
{
    let end = listings[i]@.len() as int;
    assert forall|a: int, b: int|
        looked_at(names, listings, a, b, i + 1, 0) <==> looked_at(
            names,
            listings,
            a,
            b,
            i,
            end,
        ) by {}
    assert forall|m: int| 0 <= m < files.len() implies looked_at(
        names,
        listings,
        (#[trigger] src[m]).0,
        src[m].1,
        i + 1,
        0,
    ) by {}
    assert forall|a: int, b: int|
        #![trigger listed_rel(listings, a, b)]
        looked_at(names, listings, a, b, i + 1, 0) && wins(
            tree,
            names,
            listings,
            a,
            b,
        ) implies exists|m: int| 0 <= m < src.len() && src[m] == (a, b) by {
        assert(looked_at(names, listings, a, b, i, end));
    }
    assert forall|a: int, b: int|
        #![trigger listed_rel(listings, a, b)]
        looked_at(names, listings, a, b, i + 1, 0) && !deleted_by(tree, names, a + 1).contains(
            listed_rel(listings, a, b),
        ) implies seen.contains(listed_rel(listings, a, b)) by {
        assert(looked_at(names, listings, a, b, i, end));
    }
}

/// A branch of the chain for which nothing is listed adds nothing.
proof fn lemma_no_listing(
    tree: Map<Seq<char>, BranchView>,
    names: Seq<String>,
    listings: Seq<Vec<(String, String)>>,
    seen: Set<Seq<char>>,
    files: Seq<(String, String)>,
    src: Seq<(int, int)>,
    i: int,
)
    requires
        i >= listings.len(),
        collected(tree, names, listings, seen, files, src, i, 0),
    ensures
        collected(tree, names, listings, seen, files, src, i + 1, 0),
{
    assert forall|a: int, b: int|
        looked_at(names, listings, a, b, i + 1, 0) <==> looked_at(names, listings, a, b, i, 0) by {}
    assert forall|m: int| 0 <= m < files.len() implies looked_at(
        names,
        listings,
        (#[trigger] src[m]).0,
        src[m].1,
        i + 1,
        0,
    ) by {}
    assert forall|a: int, b: int|
        #![trigger listed_rel(listings, a, b)]
        looked_at(names, listings, a, b, i + 1, 0) && wins(
            tree,
            names,
            listings,
            a,
            b,
        ) implies exists|m: int| 0 <= m < src.len() && src[m] == (a, b) by {
        assert(looked_at(names, listings, a, b, i, 0));
    }
    assert forall|a: int, b: int|
        #![trigger listed_rel(listings, a, b)]
        looked_at(names, listings, a, b, i + 1, 0) && !deleted_by(tree, names, a + 1).contains(
            listed_rel(listings, a, b),
        ) implies seen.contains(listed_rel(listings, a, b)) by {
        assert(looked_at(names, listings, a, b, i, 0));
    }
}

/// When the walk has passed the whole chain, the deltas taken are exactly
/// the entries that win.
proof fn lemma_collected_all(
    tree: Map<Seq<char>, BranchView>,
    names: Seq<String>,
    listings: Seq<Vec<(String, String)>>,
    seen: Set<Seq<char>>,
    files: Seq<(String, String)>,
    src: Seq<(int, int)>,
    i: int,
)
    requires
        i == names.len(),
        collected(tree, names, listings, seen, files, src, i, 0),
    ensures
        forall|m: int| 0 <= m < files.len() ==> is_winner(tree, names, listings, #[trigger] files[m]),
        forall|a: int, b: int|
            #![trigger listed_rel(listings, a, b)]
            wins(tree, names, listings, a, b) ==> holds_file(
                files,
                listed_rel(listings, a, b),
                listed_path(listings, a, b),
            ),
        forall|m1: int, m2: int|
            0 <= m1 < m2 < files.len() ==> (#[trigger] files[m1]).0@ != (#[trigger] files[m2]).0@,
{
    assert forall|m: int| 0 <= m < files.len() implies is_winner(
        tree,
        names,
        listings,
        #[trigger] files[m],
    ) by {
        let a = src[m].0;
        let b = src[m].1;
        assert(wins(tree, names, listings, a, b) && files[m].0@ == listed_rel(listings, a, b)
            && files[m].1@ == listed_path(listings, a, b));
    }
    assert forall|a: int, b: int|
        #![trigger listed_rel(listings, a, b)]
        wins(tree, names, listings, a, b) implies holds_file(
        files,
        listed_rel(listings, a, b),
        listed_path(listings, a, b),
    ) by {
        assert(looked_at(names, listings, a, b, i, 0));
        let m = choose|m: int| 0 <= m < src.len() && src[m] == (a, b);
        assert(files[m].0@ == listed_rel(listings, src[m].0, src[m].1));
        assert(files[m].1@ == listed_path(listings, src[m].0, src[m].1));
    }
}

/// A commit writes what the branch saw. When `names` is the chain of
/// `branch` and the listings show the deltas that the storage holds, a delta
/// that wins is the delta to which `branch` resolved its path before the
/// commit.
pub proof fn law_committed_delta_was_visible(
    tree: Map<Seq<char>, BranchView>,
    disk: Map<Seq<char>, FileKind>,
    base: Seq<char>,
    branch: Seq<char>,
    fuel: nat,
    names: Seq<String>,
    listings: Seq<Vec<(String, String)>>,
    i: int,
    k: int,
)
    requires
        chain(tree, branch, fuel) == Walk::Done(views(names)),
        wins(tree, names, listings, i, k),
        listed_path(listings, i, k) == join(
            tree[names[i]@].files_dir,
            listed_rel(listings, i, k),
        ),
        disk.contains_key(listed_path(listings, i, k)),
        forall|j: int|
            0 <= j < i && disk.contains_key(
                join(tree[(#[trigger] names[j])@].files_dir, listed_rel(listings, i, k)),
            ) ==> exists|k2: int|
                is_listed(listings, j, k2) && #[trigger] listed_rel(listings, j, k2) == listed_rel(
                    listings,
                    i,
                    k,
                ),
    ensures
        resolve(tree, disk, base, branch, listed_rel(listings, i, k), fuel) == Walk::Done(
            Some(listed_path(listings, i, k)),
        ),
{
    let rel = listed_rel(listings, i, k);
    let vs = views(names);
    lemma_chain_members(tree, branch, fuel);
    lemma_chain_links(tree, branch, fuel);
    assert forall|t: int| 0 <= t < i implies !tree[#[trigger] vs[t]].tombstones.contains(rel)
        && !disk.contains_key(join(tree[vs[t]].files_dir, rel)) by {
        assert(vs[t] == names[t]@);
        if tree[names[t]@].tombstones.contains(rel) {
            assert(deleted_by(tree, names, i + 1).contains(rel));
        }
        if disk.contains_key(join(tree[names[t]@].files_dir, rel)) {
            let k2 = choose|k2: int|
                is_listed(listings, t, k2) && #[trigger] listed_rel(listings, t, k2) == rel;
            assert(comes_before(t, k2, i, k));
        }
    }
    lemma_clear_along(tree, disk, vs, rel, 0, i);
    assert(vs[i] == names[i]@);
    assert(!tree[names[i]@].tombstones.contains(rel)) by {
        if tree[names[i]@].tombstones.contains(rel) {
            assert(deleted_by(tree, names, i + 1).contains(rel));
        }
    }
    law_delta_inherited(tree, disk, base, branch, vs[i], rel, i as nat, fuel);
}

/// A commit writes all that the branch saw. When `names` is the chain of
/// `branch`, the listings show deltas that the storage holds, each path once
/// for a branch, and the deltas of different branches lie apart, the delta
/// to which `branch` resolves a path wins.
pub proof fn law_visible_delta_is_committed(
    tree: Map<Seq<char>, BranchView>,
    disk: Map<Seq<char>, FileKind>,
    base: Seq<char>,
    branch: Seq<char>,
    fuel: nat,
    names: Seq<String>,
    listings: Seq<Vec<(String, String)>>,
    i: int,
    k: int,
)
    requires
        chain(tree, branch, fuel) == Walk::Done(views(names)),
        is_listed(listings, i, k),
        i < names.len(),
        listed_path(listings, i, k) == join(
            tree[names[i]@].files_dir,
            listed_rel(listings, i, k),
        ),
        forall|j: int, k2: int|
            is_listed(listings, j, k2) && j <= i ==> disk.contains_key(
                join(tree[names[j]@].files_dir, #[trigger] listed_rel(listings, j, k2)),
            ),
        forall|k2: int|
            0 <= k2 < k ==> #[trigger] listed_rel(listings, i, k2) != listed_rel(listings, i, k),
        forall|j: int|
            0 <= j < i ==> join(tree[(#[trigger] names[j])@].files_dir, listed_rel(listings, i, k))
                != listed_path(listings, i, k),
        resolve(tree, disk, base, branch, listed_rel(listings, i, k), fuel) == Walk::Done(
            Some(listed_path(listings, i, k)),
        ),
    ensures
        wins(tree, names, listings, i, k),
{
    let rel = listed_rel(listings, i, k);
    let vs = views(names);
    lemma_chain_members(tree, branch, fuel);
    lemma_chain_links(tree, branch, fuel);
    assert(vs[i] == names[i]@);
    assert(decides(tree, disk, vs[i], rel));
    let t = lemma_first_decider(tree, disk, vs, rel, i);
    assert(vs[t] == names[t]@);
    lemma_clear_along(tree, disk, vs, rel, 0, t);
    if tree[vs[t]].tombstones.contains(rel) {
        law_tombstone_inherited(tree, disk, base, branch, vs[t], rel, t as nat, fuel);
    } else {
        law_delta_inherited(tree, disk, base, branch, vs[t], rel, t as nat, fuel);
    }
    assert(t == i);
    assert(!deleted_by(tree, names, i + 1).contains(rel)) by {
        if deleted_by(tree, names, i + 1).contains(rel) {
            let j = choose|j: int|
                0 <= j < i + 1 && j < names.len() && tree.contains_key(names[j]@)
                    && #[trigger] tree[names[j]@].tombstones.contains(rel);
            assert(vs[j] == names[j]@);
            assert(decides(tree, disk, vs[j], rel));
        }
    }
    assert forall|i2: int, k2: int|
        #![trigger listed_rel(listings, i2, k2)]
        is_listed(listings, i2, k2) && comes_before(i2, k2, i, k) implies listed_rel(
        listings,
        i2,
        k2,
    ) != rel by {
        if i2 < i && listed_rel(listings, i2, k2) == rel {
            assert(vs[i2] == names[i2]@);
            assert(decides(tree, disk, vs[i2], rel));
        }
    }
}

/// A commit deletes what the chain deleted and did not make anew. A path for
/// which a branch of the chain has a tombstone is among the paths to delete;
/// no delta for it is copied unless it comes from a branch nearer to the
/// start of the chain than every tombstone for the path.
pub proof fn law_tombstoned_path_is_deleted(
    tree: Map<Seq<char>, BranchView>,
    names: Seq<String>,
    listings: Seq<Vec<(String, String)>>,
    j: int,
    rel: Seq<char>,
)
    requires
        0 <= j < names.len(),
        tree.contains_key(names[j]@),
        tree[names[j]@].tombstones.contains(rel),
    ensures
        deleted_by(tree, names, names.len() as int).contains(rel),
        forall|i: int, k: int|
            wins(tree, names, listings, i, k) && #[trigger] listed_rel(listings, i, k) == rel ==> i
                < j,
{
    assert forall|i: int, k: int|
        wins(tree, names, listings, i, k) && #[trigger] listed_rel(listings, i, k)
            == rel implies i < j by {
        if i >= j {
            assert(deleted_by(tree, names, i + 1).contains(rel));
        }
    }
}

/// Removing branches keeps every parent in the tree as long as no branch
/// that stays names a removed branch as its parent.
pub proof fn law_parents_survive_removal(tree: Map<Seq<char>, BranchView>, gone: Set<Seq<char>>)
    requires
        parents_exist(tree),
        forall|b: Seq<char>| #[trigger]
            tree.contains_key(b) && !gone.contains(b) ==> (tree[b].parent matches Some(p)
                ==> !gone.contains(p)),
    ensures
        parents_exist(tree.remove_keys(gone)),
{
    let after = tree.remove_keys(gone);
    assert forall|b: Seq<char>| #[trigger] after.contains_key(b) implies (
    after[b].parent matches Some(p) ==> after.contains_key(p)) by {
        assert(tree.contains_key(b));
    }
}

impl BranchManager {
    /// The branch tree.
    pub closed spec fn tree(&self) -> Map<Seq<char>, BranchView> {
        Map::new(
            |k: Seq<char>| self.branches@.contains_key(k),
            |k: Seq<char>| self.branches@[k].model(),
        )
    }

    /// The branch names in the order in which the manager lists them: the
    /// order in which the branches were made.
    pub closed spec fn order(&self) -> Seq<Seq<char>> {
        self.branches.keys()
    }

    /// Whether every branch that has a parent was made after that parent.
    pub open spec fn in_order(&self) -> bool {
        orderly(self.tree(), self.order())
    }

    /// The branch held under `name`.
    pub closed spec fn branch(&self, name: Seq<char>) -> Branch {
        self.branches@[name]
    }

    /// The number of commits made so far, modulo 2^64.
    pub closed spec fn epoch(&self) -> u64 {
        self.epoch
    }

    /// The directory below which the branches are stored.
    pub closed spec fn storage(&self) -> Seq<char> {
        self.storage_path@
    }

    /// The base directory.
    pub closed spec fn base(&self) -> Seq<char> {
        self.base_path@
    }

    /// The mount point that this manager serves.
    pub closed spec fn workspace(&self) -> Seq<char> {
        self.workspace_path@
    }

    /// The file in which the branch tree is saved.
    pub closed spec fn state_path(&self) -> Seq<char> {
        self.state_file@
    }

    /// The mounts that have a notifier registered, as pairs of branch name
    /// and mount point.
    pub closed spec fn notifiers(&self) -> Set<(Seq<char>, Seq<char>)> {
        Set::new(
            |key: (Seq<char>, Seq<char>)|
                exists|i: int|
                    0 <= i < self.notifiers@.len() && self.notifiers@[i].0@ == key.0
                        && self.notifiers@[i].1@ == key.1,
        )
    }

    /// The inodes that were opened through branch `name`.
    pub closed spec fn opened(&self, name: Seq<char>) -> Set<u64> {
        if self.opened_inodes@.contains_key(name) {
            self.opened_inodes@[name]@.to_set()
        } else {
            Set::empty()
        }
    }

    /// Everything but the branch tree is as in `other`.
    pub open spec fn same_but_tree(&self, other: &BranchManager) -> bool {
        &&& self.epoch() == other.epoch()
        &&& self.storage() == other.storage()
        &&& self.base() == other.base()
        &&& self.workspace() == other.workspace()
        &&& self.state_path() == other.state_path()
        &&& self.notifiers() == other.notifiers()
        &&& forall|b: Seq<char>| self.opened(b) == other.opened(b)
    }

    /// The number of branches.
    pub open spec fn branch_count(&self) -> nat {
        self.tree().dom().len()
    }

    /// Every branch is held under its own name, `main` is among them and is
    /// the only one without a parent, every other branch was made after its
    /// parent, which is still there, and the registries hold nothing twice.
    pub closed spec fn wf(&self) -> bool {
        &&& self.branches.wf()
        &&& self.opened_inodes.wf()
        &&& self.branches@.contains_key(main_name())
        &&& orderly(self.tree(), self.branches.keys())
        &&& forall|k: Seq<char>| #[trigger]
            self.branches@.contains_key(k) ==> self.branches@[k].wf()
                && self.branches@[k].name_view() == k && (self.branches@[k].parent_name() is None
                <==> k == main_name())
        &&& forall|i: int, j: int|
            0 <= i < j < self.notifiers@.len() ==> !(self.notifiers@[i].0@ == self.notifiers@[j].0@
                && self.notifiers@[i].1@ == self.notifiers@[j].1@)
        &&& forall|k: Seq<char>| #[trigger]
            self.opened_inodes@.contains_key(k) ==> self.opened_inodes@[k]@.no_duplicates()
    }

    /// What well-formedness means for the tree: `main` is a branch, it is the
    /// only branch without a parent, and the tree is finite.
    pub proof fn lemma_tree(&self)
        requires
            self.wf(),
        ensures
            self.tree().contains_key(main_name()),
            self.tree().dom().finite(),
            forall|k: Seq<char>| #[trigger]
                self.tree().contains_key(k) ==> (self.tree()[k].parent is None <==> k
                    == main_name()),
            forall|k: Seq<char>| #[trigger]
                self.tree().contains_key(k) ==> self.tree()[k] == self.branch(k).model()
                    && self.branch(k).wf() && self.branch(k).name_view() == k,
            self.order().no_duplicates(),
            self.order().to_set() == self.tree().dom(),
            self.in_order(),
            parents_exist(self.tree()),
    {
        self.lemma_count();
        self.branches.lemma_entries();
        assert(self.tree().dom() =~= self.branches@.dom());
        law_orderly_parents_exist(self.tree(), self.order());
    }

    /// Every walk from a branch ends: the chain of the branch is found, so
    /// that it can be committed or aborted unless it is `main`, and every
    /// path resolves for it.
    pub proof fn law_walks_end(
        &self,
        branch: Seq<char>,
        disk: Map<Seq<char>, FileKind>,
        rel: Seq<char>,
    )
        requires
            self.wf(),
            self.tree().contains_key(branch),
        ensures
            chain(self.tree(), branch, self.branch_count()) is Done,
            resolve(self.tree(), disk, self.base(), branch, rel, self.branch_count()) is Done,
    {
        self.lemma_tree();
        self.lemma_count();
        self.branches.lemma_entries();
        let order = self.order();
        assert(order.to_set().contains(branch));
        let i = choose|i: int| 0 <= i < order.len() && order[i] == branch;
        law_orderly_walks_end(
            self.tree(),
            order,
            disk,
            self.base(),
            rel,
            i,
            self.branch_count(),
        );
    }

    /// Branches that leave do not change what the others see: when `after`
    /// holds some of the branches of `self`, each as it is here, as after an
    /// abort, a branch that is still there resolves every path as before.
    pub proof fn law_survivor_resolves_alike(
        &self,
        after: &BranchManager,
        disk: Map<Seq<char>, FileKind>,
        branch: Seq<char>,
        rel: Seq<char>,
    )
        requires
            self.wf(),
            after.wf(),
            after.base() == self.base(),
            forall|b: Seq<char>| #[trigger]
                after.tree().contains_key(b) ==> self.tree().contains_key(b) && after.tree()[b]
                    == self.tree()[b],
            after.tree().contains_key(branch),
        ensures
            resolve(after.tree(), disk, after.base(), branch, rel, after.branch_count()) == resolve(
                self.tree(),
                disk,
                self.base(),
                branch,
                rel,
                self.branch_count(),
            ),
    {
        after.law_walks_end(branch, disk, rel);
        after.lemma_tree();
        self.lemma_tree();
        assert(after.tree().dom().subset_of(self.tree().dom()));
        lemma_len_subset(after.tree().dom(), self.tree().dom());
        lemma_resolve_fuel(
            after.tree(),
            disk,
            self.base(),
            branch,
            rel,
            after.branch_count(),
            self.branch_count(),
        );
        law_resolution_survives_removal(
            self.tree(),
            after.tree(),
            disk,
            self.base(),
            branch,
            rel,
            self.branch_count(),
        );
    }

    /// Every parent that a branch names is a branch.
    pub proof fn lemma_parents(&self)
        requires
            self.wf(),
        ensures
            parents_exist(self.tree()),
    {
        self.lemma_tree();
    }

    proof fn lemma_count(&self)
        requires
            self.wf(),
        ensures
            self.tree().dom().finite(),
            self.branch_count() == self.branches.size(),
    {
        self.branches.lemma_entries();
        assert(self.tree().dom() =~= self.branches@.dom());
    }

    /// A manager for a mount that has no branches yet but `main`.
    pub fn new(storage_path: String, base_path: String, workspace_path: String) -> (m: Self)
        ensures
            m.wf(),
            m.tree() == Map::<Seq<char>, BranchView>::empty().insert(
                main_name(),
                fresh_main(storage_path@),
            ),
            m.epoch() == 0,
            m.storage() == storage_path@,
            m.base() == base_path@,
            m.workspace() == workspace_path@,
            m.state_path() == join(storage_path@, "state.json"@),
            m.notifiers() == Set::<(Seq<char>, Seq<char>)>::empty(),
            forall|b: Seq<char>| m.opened(b) == Set::<u64>::empty(),
            m.order() == seq![main_name()],
            parents_exist(m.tree()),
    {
        let state_file = join_path(storage_path.as_str(), "state.json");
        let mut branches: StrMap<Branch> = StrMap::new();
        let main = Branch::new("main", None, storage_path.as_str());
        branches.insert("main".to_owned(), main);
        let m = BranchManager {
            storage_path,
            base_path,
            workspace_path,
            branches,
            state_file,
            epoch: 0,
            notifiers: Vec::new(),
            opened_inodes: StrMap::new(),
        };
        proof {
            assert(m.tree() =~= Map::<Seq<char>, BranchView>::empty().insert(
                main_name(),
                fresh_main(storage_path@),
            ));
            assert(m.notifiers() =~= Set::<(Seq<char>, Seq<char>)>::empty());
            assert(m.order() =~= seq![main_name()]);
            assert(m.tree().dom() =~= Set::<Seq<char>>::empty().insert(main_name()));
            lemma_orderly_main(m.tree(), m.order());
            law_orderly_parents_exist(m.tree(), m.order());
        }
        m
    }

    /// A manager for the branches that were saved earlier, with the epoch
    /// saved with them. The branches must have different names, `main` alone
    /// has no parent, and every other branch stands after its parent: the
    /// first branch that breaks this is reported as invalid, and a list
    /// without `main` as not found. The branches are listed in the order in
    /// which they were saved.
    pub fn restore(
        storage_path: String,
        base_path: String,
        workspace_path: String,
        epoch: u64,
        saved: Vec<Branch>,
    ) -> (r: Result<Self, BranchError>)
        requires
            forall|i: int| 0 <= i < saved@.len() ==> (#[trigger] saved@[i]).wf(),
        ensures
            r is Ok <==> restorable(saved@),
            match r {
                Ok(m) => {
                    &&& m.wf()
                    &&& m.epoch() == epoch
                    &&& m.storage() == storage_path@
                    &&& m.base() == base_path@
                    &&& m.workspace() == workspace_path@
                    &&& m.state_path() == join(storage_path@, "state.json"@)
                    &&& m.notifiers() == Set::<(Seq<char>, Seq<char>)>::empty()
                    &&& forall|b: Seq<char>| m.opened(b) == Set::<u64>::empty()
                    &&& m.order().len() == saved@.len()
                    &&& forall|i: int|
                        0 <= i < saved@.len() ==> m.order()[i] == (#[trigger] saved@[i]).name_view()
                            && m.tree().contains_key(saved@[i].name_view())
                            && m.tree()[saved@[i].name_view()] == saved@[i].model()
                    &&& forall|k: Seq<char>| #[trigger]
                        m.tree().contains_key(k) ==> exists|i: int|
                            0 <= i < saved@.len() && saved@[i].name_view() == k
                },
                Err(BranchError::Invalid(n)) => exists|i: int|
                    0 <= i < saved@.len() && #[trigger] saved@[i].name_view() == n@ && misplaced(
                        saved@,
                        i,
                    ) && forall|k: int| 0 <= k < i ==> !misplaced(saved@, k),
                Err(BranchError::NotFound(n)) => n@ == main_name() && forall|k: int|
                    0 <= k < saved@.len() ==> !misplaced(saved@, k),
                Err(_) => false,
            },
    {
        let state_file = join_path(storage_path.as_str(), "state.json");
        let mut branches: StrMap<Branch> = StrMap::new();
        let mut rest = saved;
        let ghost all = rest@;
        let ghost mut taken: int = 0;
        assert(all.skip(0) =~= all);
        while rest.len() > 0
            invariant
                all == saved@,
                0 <= taken <= all.len(),
                rest@ == all.skip(taken),
                forall|i: int| 0 <= i < all.len() ==> (#[trigger] all[i]).wf(),
                branches.wf(),
                branches.keys().len() == taken,
                forall|i: int|
                    0 <= i < taken ==> branches.keys()[i] == (#[trigger] all[i]).name_view()
                        && branches@.contains_key(all[i].name_view())
                        && branches@[all[i].name_view()] == all[i],
                forall|k: Seq<char>| #[trigger]
                    branches@.contains_key(k) ==> exists|i: int|
                        0 <= i < taken && all[i].name_view() == k,
                forall|i: int| 0 <= i < taken ==> !misplaced(all, i),
            decreases rest@.len(),
        {
            let b = rest.remove(0);
            assert(b == all[taken]);
            assert(rest@ =~= all.skip(taken + 1));
            let is_main = *b.name() == *"main";
            let parent_known = match b.parent() {
                Some(p) => branches.contains_key(p),
                None => true,
            };
            if branches.contains_key(b.name()) || b.parent().is_none() != is_main || !parent_known {
                proof {
                    let n = b.name_view();
                    if branches@.contains_key(n) {
                        let j = choose|j: int| 0 <= j < taken && all[j].name_view() == n;
                        assert(all[j].name_view() == all[taken].name_view());
                    }
                    if !parent_known {
                        let p = b.parent_name()->0;
                        if exists|j: int| 0 <= j < taken && all[j].name_view() == p {
                            let j = choose|j: int| 0 <= j < taken && all[j].name_view() == p;
                            assert(branches@.contains_key(all[j].name_view()));
                        }
                    }
                    assert(misplaced(all, taken));
                }
                return Err(BranchError::Invalid(b.name().to_owned()));
            }
            let ghost before = branches@;
            let ghost before_keys = branches.keys();
            branches.insert(b.name().to_owned(), b);
            proof {
                assert(branches.keys() == before_keys.push(all[taken].name_view()));
                assert forall|i: int| 0 <= i < taken + 1 implies branches.keys()[i] == (
                #[trigger] all[i]).name_view() && branches@.contains_key(all[i].name_view())
                    && branches@[all[i].name_view()] == all[i] by {
                    if i < taken {
                        assert(before.contains_key(all[i].name_view()));
                        assert(branches.keys()[i] == before_keys[i]);
                    }
                }
                assert forall|k: Seq<char>| #[trigger] branches@.contains_key(k) implies exists|
                    i: int,
                | 0 <= i < taken + 1 && all[i].name_view() == k by {
                    if k != all[taken].name_view() {
                        assert(before.contains_key(k));
                        let i = choose|i: int| 0 <= i < taken && all[i].name_view() == k;
                        assert(0 <= i < taken + 1 && all[i].name_view() == k);
                    }
                }
                assert(!misplaced(all, taken)) by {
                    if exists|j: int| 0 <= j < taken && all[j].name_view() == all[taken].name_view() {
                        let j = choose|j: int|
                            0 <= j < taken && all[j].name_view() == all[taken].name_view();
                        assert(before.contains_key(all[j].name_view()));
                    }
                    if all[taken].parent_name() is Some {
                        let p = all[taken].parent_name()->0;
                        assert(before.contains_key(p));
                        let j = choose|j: int| 0 <= j < taken && all[j].name_view() == p;
                        assert(0 <= j < taken && all[j].name_view() == p);
                    }
                }
                taken = taken + 1;
            }
        }
        proof {
            assert(taken == all.len());
            if branches@.contains_key(main_name()) {
                let w = choose|i: int| 0 <= i < all.len() && all[i].name_view() == main_name();
                assert(restorable(all));
            }
        }
        if !branches.contains_key("main") {
            proof {
                if restorable(all) {
                    let i = choose|i: int| 0 <= i < all.len() && all[i].name_view() == main_name();
                    assert(branches@.contains_key(all[i].name_view()));
                }
            }
            return Err(BranchError::NotFound("main".to_owned()));
        }
        let m = BranchManager {
            storage_path,
            base_path,
            workspace_path,
            branches,
            state_file,
            epoch,
            notifiers: Vec::new(),
            opened_inodes: StrMap::new(),
        };
        proof {
            assert(m.notifiers() =~= Set::<(Seq<char>, Seq<char>)>::empty());
            assert forall|k: Seq<char>| #[trigger]
                m.branches@.contains_key(k) implies m.branches@[k].wf() && m.branches@[k].name_view()
                == k && (m.branches@[k].parent_name() is None <==> k == main_name()) by {
                let i = choose|i: int| 0 <= i < all.len() && all[i].name_view() == k;
                assert(m.branches@[all[i].name_view()] == all[i]);
                assert(!misplaced(all, i));
            }
            m.branches.lemma_entries();
            assert(m.tree().dom() =~= m.branches@.dom());
            let keys = m.branches.keys();
            assert forall|i: int| 0 <= i < keys.len() implies (
            m.tree()[#[trigger] keys[i]].parent matches Some(p) ==> exists|j: int|
                0 <= j < i && keys[j] == p) by {
                assert(keys[i] == all[i].name_view());
                assert(m.branches@[all[i].name_view()] == all[i]);
                assert(!misplaced(all, i));
                if all[i].parent_name() is Some {
                    let p = all[i].parent_name()->0;
                    let j = choose|j: int| 0 <= j < i && all[j].name_view() == p;
                    assert(keys[j] == all[j].name_view());
                }
            }
        }
        Ok(m)
    }

    /// The number of commits made so far, modulo 2^64.
    pub fn get_epoch(&self) -> (e: u64)
        ensures
            e == self.epoch(),
    {
        self.epoch
    }

    /// The directory below which the branches are stored.
    pub fn storage_path(&self) -> (r: &str)
        ensures
            r@ == self.storage(),
    {
        self.storage_path.as_str()
    }

    /// The base directory.
    pub fn base_path(&self) -> (r: &str)
        ensures
            r@ == self.base(),
    {
        self.base_path.as_str()
    }

    /// The mount point that this manager serves.
    pub fn workspace_path(&self) -> (r: &str)
        ensures
            r@ == self.workspace(),
    {
        self.workspace_path.as_str()
    }

    /// The file in which the branch tree is saved.
    pub fn state_file(&self) -> (r: &str)
        ensures
            r@ == self.state_path(),
    {
        self.state_file.as_str()
    }

    /// Whether `name` is a branch.
    pub fn is_branch_valid(&self, name: &str) -> (r: bool)
        requires
            self.wf(),
        ensures
            r == self.tree().contains_key(name@),
    {
        self.branches.contains_key(name)
    }

    /// Always `None`: branches are not handed out, they are reached through
    /// `with_branch`.
    pub fn get_branch(&self, _name: &str) -> (r: Option<Arc<Branch>>)
        ensures
            r is None,
    {
        None
    }

    /// Runs `f` on the branch `name`.
    pub fn with_branch<F, R>(&self, name: &str, f: F) -> (r: Result<R, BranchError>) where
        F: FnOnce(&Branch) -> Result<R, BranchError>,

        requires
            self.wf(),
            self.tree().contains_key(name@) ==> f.requires((&self.branch(name@),)),
        ensures
            match r {
                Err(BranchError::NotFound(n)) => (!self.tree().contains_key(name@) && n@ == name@)
                    || (self.tree().contains_key(name@) && f.ensures((&self.branch(name@),), r)),
                _ => self.tree().contains_key(name@) && f.ensures((&self.branch(name@),), r),
            },
    {
        match self.branches.get(name) {
            Some(b) => f(b),
            None => Err(BranchError::NotFound(name.to_owned())),
        }
    }

    /// The name of the parent of branch `name`.
    pub fn parent_of(&self, name: &str) -> (r: Option<String>)
        requires
            self.wf(),
        ensures
            match r {
                Some(p) => self.tree().contains_key(name@) && self.tree()[name@].parent == Some(
                    p@,
                ),
                None => !self.tree().contains_key(name@) || self.tree()[name@].parent is None,
            },
    {
        match self.branches.get(name) {
            Some(b) => match b.parent() {
                Some(p) => Some(p.to_owned()),
                None => None,
            },
            None => None,
        }
    }

    /// All branches with their parents, each once.
    pub fn list_branches(&self) -> (r: Vec<(String, Option<String>)>)
        requires
            self.wf(),
        ensures
            r@.len() == self.branch_count(),
            r@.len() == self.order().len(),
            forall|i: int| 0 <= i < r@.len() ==> (#[trigger] r@[i]).0@ == self.order()[i],
            forall|i: int, j: int| 0 <= i < j < r@.len() ==> r@[i].0@ != r@[j].0@,
            forall|i: int|
                0 <= i < r@.len() ==> self.tree().contains_key(#[trigger] r@[i].0@) && (match r@[i].1 {
                    Some(p) => self.tree()[r@[i].0@].parent == Some(p@),
                    None => self.tree()[r@[i].0@].parent is None,
                }),
            forall|k: Seq<char>|
                self.tree().contains_key(k) ==> exists|i: int| 0 <= i < r@.len() && r@[i].0@ == k,
    {
        let mut out: Vec<(String, Option<String>)> = Vec::new();
        let mut i: usize = 0;
        proof {
            self.lemma_tree();
            self.branches.lemma_entries();
        }
        while i < self.branches.len()
            invariant
                self.wf(),
                i <= self.branches.size(),
                out@.len() == i,
                forall|j: int| 0 <= j < i ==> (#[trigger] out@[j]).0@ == self.branches.key_at(j),
                forall|j: int|
                    0 <= j < i ==> (match (#[trigger] out@[j]).1 {
                        Some(p) => self.branches.val_at(j).parent_name() == Some(p@),
                        None => self.branches.val_at(j).parent_name() is None,
                    }),
            decreases self.branches.size() - i,
        {
            let b = self.branches.val(i);
            let parent = match b.parent() {
                Some(p) => Some(p.to_owned()),
                None => None,
            };
            out.push((self.branches.key(i).clone(), parent));
            i += 1;
        }
        proof {
            self.branches.lemma_entries();
            self.lemma_count();
            assert forall|a: int, b: int| 0 <= a < b < out@.len() implies out@[a].0@
                != out@[b].0@ by {
                assert(self.branches.key_at(a) != self.branches.key_at(b));
            }
            assert forall|j: int| 0 <= j < out@.len() implies self.tree().contains_key(
                #[trigger] out@[j].0@,
            ) && (match out@[j].1 {
                Some(p) => self.tree()[out@[j].0@].parent == Some(p@),
                None => self.tree()[out@[j].0@].parent is None,
            }) by {
                assert(self.branches@.contains_key(self.branches.key_at(j)));
            }
            assert forall|k: Seq<char>| self.tree().contains_key(k) implies exists|j: int|
                0 <= j < out@.len() && out@[j].0@ == k by {
                let j = self.branches.slot(k);
                assert(out@[j].0@ == k);
            }
        }
        out
    }

    /// The branches whose parent is `parent`, each once.
    pub fn get_children(&self, parent: &str) -> (r: Vec<String>)
        requires
            self.wf(),
        ensures
            views(r@) == children_of(self.tree(), self.order(), parent@),
            forall|i: int, j: int| 0 <= i < j < r@.len() ==> r@[i]@ != r@[j]@,
            forall|i: int|
                0 <= i < r@.len() ==> self.tree().contains_key(#[trigger] r@[i]@)
                    && self.tree()[r@[i]@].parent == Some(parent@),
            forall|k: Seq<char>|
                self.tree().contains_key(k) && self.tree()[k].parent == Some(parent@)
                    ==> exists|i: int| 0 <= i < r@.len() && r@[i]@ == k,
    {
        let mut out: Vec<String> = Vec::new();
        let ghost mut from: Seq<int> = Seq::empty();
        let ghost order = self.order();
        let ghost tree = self.tree();
        let mut i: usize = 0;
        proof {
            reveal(Seq::filter);
            self.branches.lemma_entries();
            assert(order.take(0) =~= Seq::<Seq<char>>::empty());
            assert(views(out@) =~= children_of(tree, order.take(0), parent@));
        }
        while i < self.branches.len()
            invariant
                self.wf(),
                order == self.order(),
                tree == self.tree(),
                i <= self.branches.size(),
                out@.len() == from.len(),
                views(out@) == children_of(tree, order.take(i as int), parent@),
                forall|j: int|
                    0 <= j < from.len() ==> 0 <= #[trigger] from[j] < i && out@[j]@
                        == self.branches.key_at(from[j]) && self.branches.val_at(
                        from[j],
                    ).parent_name() == Some(parent@),
                forall|a: int, b: int| 0 <= a < b < from.len() ==> from[a] < from[b],
                forall|k: int|
                    0 <= k < i && self.branches.val_at(k).parent_name() == Some(parent@)
                        ==> exists|j: int| 0 <= j < from.len() && from[j] == k,
            decreases self.branches.size() - i,
        {
            let b = self.branches.val(i);
            let is_child = match b.parent() {
                Some(p) => *p == *parent,
                None => false,
            };
            let ghost before = views(out@);
            proof {
                self.branches.lemma_entries();
                let here = self.branches.key_at(i as int);
                assert(order[i as int] == here);
                assert(order.take(i + 1).drop_last() =~= order.take(i as int));
                assert(order.take(i + 1).last() == here);
                assert(self.branches@.contains_key(here));
                reveal(Seq::filter);
                assert(children_of(tree, order.take(i + 1), parent@) == if is_child {
                    children_of(tree, order.take(i as int), parent@).push(here)
                } else {
                    children_of(tree, order.take(i as int), parent@)
                });
            }
            if is_child {
                out.push(self.branches.key(i).clone());
                proof {
                    assert(views(out@) =~= before.push(self.branches.key_at(i as int)));
                    let old_from = from;
                    from = from.push(i as int);
                    assert forall|k: int|
                        0 <= k < i + 1 && self.branches.val_at(k).parent_name() == Some(
                            parent@,
                        ) implies exists|j: int| 0 <= j < from.len() && from[j] == k by {
                        if k < i {
                            let j = choose|j: int| 0 <= j < old_from.len() && old_from[j] == k;
                            assert(from[j] == k);
                        } else {
                            assert(from[old_from.len() as int] == k);
                        }
                    }
                }
            }
            i += 1;
        }
        proof {
            self.branches.lemma_entries();
            assert(order.take(i as int) =~= order);
            assert forall|a: int, b: int| 0 <= a < b < out@.len() implies out@[a]@ != out@[b]@ by {
                assert(from[a] < from[b]);
                assert(self.branches.key_at(from[a]) != self.branches.key_at(from[b]));
            }
            assert forall|j: int| 0 <= j < out@.len() implies self.tree().contains_key(
                #[trigger] out@[j]@,
            ) && self.tree()[out@[j]@].parent == Some(parent@) by {
                assert(self.branches@.contains_key(self.branches.key_at(from[j])));
            }
            assert forall|k: Seq<char>|
                self.tree().contains_key(k) && self.tree()[k].parent == Some(
                    parent@,
                ) implies exists|j: int| 0 <= j < out@.len() && out@[j]@ == k by {
                let s = self.branches.slot(k);
                assert(self.branches.val_at(s).parent_name() == Some(parent@));
                let j = choose|j: int| 0 <= j < from.len() && from[j] == s;
                assert(out@[j]@ == k);
            }
        }
        out
    }

    /// The branches other than `main`, in the order in which they were made.
    pub fn side_branches(&self) -> (r: Vec<String>)
        requires
            self.wf(),
        ensures
            views(r@) == side_branches_of(self.order()),
    {
        let mut out: Vec<String> = Vec::new();
        let ghost order = self.order();
        let mut i: usize = 0;
        proof {
            reveal(Seq::filter);
            assert(order.take(0) =~= Seq::<Seq<char>>::empty());
            assert(views(out@) =~= side_branches_of(order.take(0)));
        }
        while i < self.branches.len()
            invariant
                self.wf(),
                order == self.order(),
                i <= self.branches.size(),
                views(out@) == side_branches_of(order.take(i as int)),
            decreases self.branches.size() - i,
        {
            let name = self.branches.key(i);
            let ghost before = views(out@);
            let is_side = *name.as_str() != *"main";
            proof {
                self.branches.lemma_entries();
                let here = self.branches.key_at(i as int);
                assert(order[i as int] == here);
                assert(order.take(i + 1).drop_last() =~= order.take(i as int));
                assert(order.take(i + 1).last() == here);
                reveal(Seq::filter);
                assert(side_branches_of(order.take(i + 1)) == if is_side {
                    side_branches_of(order.take(i as int)).push(here)
                } else {
                    side_branches_of(order.take(i as int))
                });
            }
            if is_side {
                out.push(name.clone());
                proof {
                    assert(views(out@) =~= before.push(self.branches.key_at(i as int)));
                }
            }
            i += 1;
        }
        proof {
            self.branches.lemma_entries();
            assert(order.take(i as int) =~= order);
        }
        out
    }

    /// Makes a branch `name` below `parent`. Fails, in this order, when the
    /// name cannot name a branch, when a branch of that name exists, and when
    /// `parent` is not a branch.
    pub fn create_branch(&mut self, name: &str, parent: &str) -> (r: Result<(), BranchError>)
        requires
            old(self).wf(),
        ensures
            final(self).wf(),
            final(self).same_but_tree(old(self)),
            match r {
                Ok(()) => {
                    &&& valid_name(name@)
                    &&& !old(self).tree().contains_key(name@)
                    &&& old(self).tree().contains_key(parent@)
                    &&& final(self).tree() == old(self).tree().insert(
                        name@,
                        fresh_branch(old(self).storage(), name@, parent@),
                    )
                    &&& final(self).order() == old(self).order().push(name@)
                },
                Err(e) => {
                    &&& final(self).tree() == old(self).tree()
                    &&& final(self).order() == old(self).order()
                    &&& match e {
                        BranchError::Invalid(n) => n@ == name@ && !valid_name(name@),
                        BranchError::AlreadyExists(n) => n@ == name@ && valid_name(name@)
                            && old(self).tree().contains_key(name@),
                        BranchError::ParentNotFound(p) => p@ == parent@ && valid_name(name@)
                            && !old(self).tree().contains_key(name@)
                            && !old(self).tree().contains_key(parent@),
                        _ => false,
                    }
                },
            },
            parents_exist(final(self).tree()),
    {
        proof {
            self.lemma_tree();
        }
        if !is_valid_name(name) {
            return Err(BranchError::Invalid(name.to_owned()));
        }
        if self.branches.contains_key(name) {
            return Err(BranchError::AlreadyExists(name.to_owned()));
        }
        if !self.branches.contains_key(parent) {
            return Err(BranchError::ParentNotFound(parent.to_owned()));
        }
        let branch = Branch::new(name, Some(parent), self.storage_path.as_str());
        let ghost before = *self;
        self.branches.insert(name.to_owned(), branch);
        proof {
            assert(self.tree() =~= before.tree().insert(
                name@,
                fresh_branch(before.storage(), name@, parent@),
            ));
            assert(self.notifiers() =~= before.notifiers());
            lemma_orderly_grows(
                before.tree(),
                before.order(),
                name@,
                fresh_branch(before.storage(), name@, parent@),
            );
            law_orderly_parents_exist(self.tree(), self.order());
        }
        Ok(())
    }

    /// The chain of `start`: the branches from `start` toward `main`, `start`
    /// first and `main` left out.
    pub fn get_branch_chain(&self, start: &str) -> (r: Result<Vec<String>, BranchError>)
        requires
            self.wf(),
        ensures
            reports_chain(r, chain(self.tree(), start@, self.branch_count()), start@),
            r is Ok <==> start@ == main_name() || self.tree().contains_key(start@),
            r matches Err(e) ==> (e matches BranchError::NotFound(n) && n@ == start@),
            r matches Ok(v) ==> forall|i: int|
                0 <= i < v@.len() ==> self.tree().contains_key(#[trigger] v@[i]@),
    {
        let r = self.walk_chain(start);
        proof {
            if self.tree().contains_key(start@) {
                self.law_walks_end(start@, Map::empty(), Seq::empty());
            }
            if r is Ok {
                lemma_chain_members(self.tree(), start@, self.branch_count());
                let v = r->Ok_0;
                assert forall|i: int| 0 <= i < v@.len() implies self.tree().contains_key(
                    #[trigger] v@[i]@,
                ) by {
                    assert(views(v@)[i] == v@[i]@);
                }
            }
        }
        r
    }

    /// The walk that finds a chain.
    fn walk_chain(&self, start: &str) -> (r: Result<Vec<String>, BranchError>)
        requires
            self.wf(),
        ensures
            reports_chain(r, chain(self.tree(), start@, self.branch_count()), start@),
    {
        let n = self.branches.len();
        let mut names: Vec<String> = Vec::new();
        let mut current: String = start.to_owned();
        let mut steps: usize = 0;
        proof {
            self.lemma_count();
            let w = chain(self.tree(), start@, n as nat);
            assert(views(names@) =~= Seq::<Seq<char>>::empty());
            match w {
                Walk::Done(rest) => {
                    assert(Seq::<Seq<char>>::empty() + rest =~= rest);
                },
                _ => {},
            }
        }
        loop
            invariant
                self.wf(),
                n == self.branches.size(),
                n == self.branch_count(),
                steps <= n,
                chain(self.tree(), start@, n as nat) == prepend(
                    views(names@),
                    chain(self.tree(), current@, (n - steps) as nat),
                ),
            decreases n - steps,
        {
            if *current.as_str() == *"main" {
                proof {
                    assert(views(names@) + Seq::<Seq<char>>::empty() =~= views(names@));
                }
                return Ok(names);
            }
            let ghost before = views(names@);
            let ghost here = current@;
            match self.branches.get(current.as_str()) {
                None => {
                    return Err(BranchError::NotFound(current));
                },
                Some(b) => {
                    match b.parent() {
                        None => {
                            names.push(current);
                            proof {
                                assert(views(names@) =~= before + seq![here]);
                            }
                            return Ok(names);
                        },
                        Some(p) => {
                            if steps == n {
                                return Err(BranchError::Invalid(start.to_owned()));
                            }
                            let next = p.to_owned();
                            names.push(current);
                            current = next;
                            steps += 1;
                            proof {
                                assert(views(names@) =~= before + seq![here]);
                                lemma_prepend_twice(
                                    before,
                                    seq![here],
                                    chain(self.tree(), current@, (n - steps) as nat),
                                );
                            }
                        },
                    }
                },
            }
        }
    }

    /// Where the virtual path `rel_path` is stored for `branch_name`, given
    /// what the storage holds: `None` when the path is deleted or nowhere to
    /// be found.
    pub fn resolve_path(&self, branch_name: &str, rel_path: &str, disk: &Snapshot) -> (r: Result<
        Option<String>,
        BranchError,
    >)
        requires
            self.wf(),
            disk.wf(),
        ensures
            reports_path(
                r,
                resolve(
                    self.tree(),
                    disk@,
                    self.base(),
                    branch_name@,
                    rel_path@,
                    self.branch_count(),
                ),
                branch_name@,
            ),
            r is Ok <==> self.tree().contains_key(branch_name@),
            r matches Err(e) ==> (e matches BranchError::NotFound(n) && n@ == branch_name@),
    {
        proof {
            if self.tree().contains_key(branch_name@) {
                self.law_walks_end(branch_name@, disk@, rel_path@);
            }
        }
        self.walk_path(branch_name, rel_path, disk)
    }

    /// The walk that resolves a path.
    fn walk_path(&self, branch_name: &str, rel_path: &str, disk: &Snapshot) -> (r: Result<
        Option<String>,
        BranchError,
    >)
        requires
            self.wf(),
            disk.wf(),
        ensures
            reports_path(
                r,
                resolve(
                    self.tree(),
                    disk@,
                    self.base(),
                    branch_name@,
                    rel_path@,
                    self.branch_count(),
                ),
                branch_name@,
            ),
    {
        let n = self.branches.len();
        let mut current: String = branch_name.to_owned();
        let mut steps: usize = 0;
        proof {
            self.lemma_count();
        }
        loop
            invariant
                self.wf(),
                disk.wf(),
                n == self.branches.size(),
                n == self.branch_count(),
                steps <= n,
                resolve(self.tree(), disk@, self.base(), branch_name@, rel_path@, n as nat)
                    == resolve(
                    self.tree(),
                    disk@,
                    self.base(),
                    current@,
                    rel_path@,
                    (n - steps) as nat,
                ),
            decreases n - steps,
        {
            match self.branches.get(current.as_str()) {
                None => {
                    return Err(BranchError::NotFound(current));
                },
                Some(b) => {
                    if b.is_deleted(rel_path) {
                        return Ok(None);
                    }
                    let delta = b.delta_path(rel_path);
                    if disk.contains(delta.as_str()) {
                        return Ok(Some(delta));
                    }
                    match b.parent() {
                        None => {
                            let below = join_path(self.base_path.as_str(), rel_path);
                            if disk.contains(below.as_str()) {
                                return Ok(Some(below));
                            } else {
                                return Ok(None);
                            }
                        },
                        Some(p) => {
                            if steps == n {
                                return Err(BranchError::Invalid(branch_name.to_owned()));
                            }
                            current = p.to_owned();
                            steps += 1;
                        },
                    }
                },
            }
        }
    }

    /// The storage paths that `resolve_path` asks the snapshot about, for
    /// `rel_path` seen from `branch_name`.
    pub fn resolve_candidates(&self, branch_name: &str, rel_path: &str) -> (r: Vec<String>)
        requires
            self.wf(),
        ensures
            views(r@) == probes(
                self.tree(),
                self.base(),
                branch_name@,
                rel_path@,
                self.branch_count(),
            ),
    {
        let n = self.branches.len();
        let mut out: Vec<String> = Vec::new();
        let mut current: String = branch_name.to_owned();
        let mut steps: usize = 0;
        proof {
            self.lemma_count();
            assert(views(out@) =~= Seq::<Seq<char>>::empty());
            assert(Seq::<Seq<char>>::empty() + probes(
                self.tree(),
                self.base(),
                branch_name@,
                rel_path@,
                n as nat,
            ) =~= probes(self.tree(), self.base(), branch_name@, rel_path@, n as nat));
        }
        loop
            invariant
                self.wf(),
                n == self.branches.size(),
                n == self.branch_count(),
                steps <= n,
                probes(self.tree(), self.base(), branch_name@, rel_path@, n as nat) == views(out@)
                    + probes(self.tree(), self.base(), current@, rel_path@, (n - steps) as nat),
            decreases n - steps,
        {
            let ghost before = views(out@);
            match self.branches.get(current.as_str()) {
                None => {
                    proof {
                        assert(before + Seq::<Seq<char>>::empty() =~= before);
                    }
                    return out;
                },
                Some(b) => {
                    let delta = b.delta_path(rel_path);
                    let ghost d = delta@;
                    out.push(delta);
                    proof {
                        assert(views(out@) =~= before + seq![d]);
                    }
                    match b.parent() {
                        None => {
                            let below = join_path(self.base_path.as_str(), rel_path);
                            let ghost bl = below@;
                            out.push(below);
                            proof {
                                assert(views(out@) =~= before + seq![d, bl]);
                            }
                            return out;
                        },
                        Some(p) => {
                            if steps == n {
                                return out;
                            }
                            let ghost rest = probes(
                                self.tree(),
                                self.base(),
                                p@,
                                rel_path@,
                                (n - steps - 1) as nat,
                            );
                            proof {
                                assert(before + (seq![d] + rest) =~= (before + seq![d]) + rest);
                            }
                            current = p.to_owned();
                            steps += 1;
                        },
                    }
                },
            }
        }
    }

    /// The storage path of the delta of `branch` for `rel_path`.
    pub fn delta_path(&self, branch: &str, rel_path: &str) -> (r: Result<String, BranchError>)
        requires
            self.wf(),
        ensures
            match r {
                Ok(p) => self.tree().contains_key(branch@) && p@ == join(
                    self.tree()[branch@].files_dir,
                    rel_path@,
                ),
                Err(BranchError::NotFound(n)) => !self.tree().contains_key(branch@) && n@
                    == branch@,
                Err(_) => false,
            },
    {
        match self.branches.get(branch) {
            Some(b) => Ok(b.delta_path(rel_path)),
            None => Err(BranchError::NotFound(branch.to_owned())),
        }
    }

    /// The tombstone log of `branch`.
    pub fn tombstone_log_path(&self, branch: &str) -> (r: Result<String, BranchError>)
        requires
            self.wf(),
        ensures
            match r {
                Ok(p) => self.tree().contains_key(branch@) && p@ == self.tree()[branch@].log_file,
                Err(BranchError::NotFound(n)) => !self.tree().contains_key(branch@) && n@
                    == branch@,
                Err(_) => false,
            },
    {
        match self.branches.get(branch) {
            Some(b) => Ok(b.tombstones_file().to_owned()),
            None => Err(BranchError::NotFound(branch.to_owned())),
        }
    }

    /// The line that the tombstone log of `branch` needs before `path` is
    /// added to its tombstones: `None` when `path` is a tombstone already.
    pub fn tombstone_log_entry(&self, branch: &str, path: &str) -> (r: Result<
        Option<String>,
        BranchError,
    >)
        requires
            self.wf(),
        ensures
            match r {
                Ok(Some(line)) => self.tree().contains_key(branch@)
                    && !self.tree()[branch@].tombstones.contains(path@) && line@ == path@
                    + seq!['\n'],
                Ok(None) => self.tree().contains_key(branch@)
                    && self.tree()[branch@].tombstones.contains(path@),
                Err(BranchError::NotFound(n)) => !self.tree().contains_key(branch@) && n@
                    == branch@,
                Err(_) => false,
            },
    {
        match self.branches.get(branch) {
            Some(b) => Ok(b.log_entry(path)),
            None => Err(BranchError::NotFound(branch.to_owned())),
        }
    }

    /// Records `path` as deleted in `branch`.
    pub fn add_tombstone(&mut self, branch: &str, path: &str) -> (r: Result<(), BranchError>)
        requires
            old(self).wf(),
        ensures
            final(self).wf(),
            final(self).same_but_tree(old(self)),
            match r {
                Ok(()) => old(self).tree().contains_key(branch@) && final(self).tree() == old(
                    self,
                ).tree().insert(
                    branch@,
                    BranchView {
                        tombstones: old(self).tree()[branch@].tombstones.insert(path@),
                        ..old(self).tree()[branch@]
                    },
                ),
                Err(BranchError::NotFound(n)) => !old(self).tree().contains_key(branch@) && n@
                    == branch@ && final(self).tree() == old(self).tree(),
                Err(_) => false,
            },
            final(self).order() == old(self).order(),
            parents_exist(final(self).tree()),
    {
        proof {
            self.lemma_tree();
        }
        match self.branches.find(branch) {
            Some(i) => {
                let ghost before = *self;
                proof {
                    self.branches.lemma_entries();
                }
                let b = self.branches.val_mut(i);
                b.add_tombstone(path);
                proof {
                    assert(self.branches@ == before.branches@.insert(branch@, self.branches@[branch@]));
                    assert(self.tree() =~= before.tree().insert(
                        branch@,
                        BranchView {
                            tombstones: before.tree()[branch@].tombstones.insert(path@),
                            ..before.tree()[branch@]
                        },
                    ));
                    assert(self.notifiers() =~= before.notifiers());
                    assert forall|b: Seq<char>| #[trigger] self.tree().contains_key(b) implies (
                    self.tree()[b].parent matches Some(p) ==> self.tree().contains_key(p)) by {
                        assert(before.tree().contains_key(b));
                    }
                    let order = self.order();
                    assert(self.tree().dom() =~= before.tree().dom());
                    assert forall|i: int| 0 <= i < order.len() implies (
                    self.tree()[#[trigger] order[i]].parent matches Some(p) ==> exists|j: int|
                        0 <= j < i && order[j] == p) by {
                        assert(before.tree()[order[i]].parent == self.tree()[order[i]].parent) by {
                            assert(order.to_set().contains(order[i]));
                        }
                    }
                }
                Ok(())
            },
            None => Err(BranchError::NotFound(branch.to_owned())),
        }
    }

    /// The chain that a commit or an abort of `branch_name` works on, or the
    /// error with which either is refused.
    pub fn operable_chain(&self, branch_name: &str) -> (r: Result<Vec<String>, BranchError>)
        requires
            self.wf(),
        ensures
            r is Ok <==> branch_name@ != main_name() && self.tree().contains_key(branch_name@),
            match r {
                Ok(names) => chain(self.tree(), branch_name@, self.branch_count()) == Walk::Done(
                    views(names@),
                ) && names@.len() > 0 && names@[0]@ == branch_name@ && forall|i: int|
                    0 <= i < names@.len() ==> self.tree().contains_key(#[trigger] names@[i]@),
                Err(e) => refusal(e, self.tree(), branch_name@),
            },
    {
        if *branch_name == *"main" {
            return Err(BranchError::CannotOperateOnMain);
        }
        let r = self.get_branch_chain(branch_name);
        proof {
            if r is Ok {
                lemma_chain_members(self.tree(), branch_name@, self.branch_count());
                assert(views(r->Ok_0@)[0] == r->Ok_0@[0]@);
            }
        }
        r
    }

    /// Forgets every branch but `main`, and what `main` had deleted.
    pub fn reset_branches(&mut self)
        requires
            old(self).wf(),
        ensures
            final(self).wf(),
            final(self).same_but_tree(old(self)),
            final(self).tree() == main_only(old(self).storage()),
            final(self).order() == seq![main_name()],
            parents_exist(final(self).tree()),
    {
        let ghost before = *self;
        self.branches.clear();
        let main = Branch::new("main", None, self.storage_path.as_str());
        self.branches.insert("main".to_owned(), main);
        proof {
            assert(self.tree() =~= main_only(before.storage()));
            assert(self.notifiers() =~= before.notifiers());
            assert(self.order() =~= seq![main_name()]);
            assert(self.tree().dom() =~= Set::<Seq<char>>::empty().insert(main_name()));
            lemma_orderly_main(self.tree(), self.order());
            law_orderly_parents_exist(self.tree(), self.order());
        }
    }

    /// Commits `branch_name`: the branch tree becomes `main` alone and the
    /// epoch grows by one. What the commit writes to the base directory is
    /// planned by `commit_plan` and has been done by then.
    pub fn commit(&mut self, branch_name: &str) -> (r: Result<(), BranchError>)
        requires
            old(self).wf(),
        ensures
            final(self).wf(),
            final(self).storage() == old(self).storage(),
            final(self).base() == old(self).base(),
            final(self).workspace() == old(self).workspace(),
            final(self).state_path() == old(self).state_path(),
            final(self).notifiers() == old(self).notifiers(),
            forall|b: Seq<char>| final(self).opened(b) == old(self).opened(b),
            r is Ok <==> branch_name@ != main_name() && old(self).tree().contains_key(branch_name@),
            match r {
                Ok(()) => {
                    &&& final(self).epoch() == next_epoch(old(self).epoch())
                    &&& final(self).tree() == main_only(old(self).storage())
                    &&& final(self).order() == seq![main_name()]
                },
                Err(e) => {
                    &&& final(self).epoch() == old(self).epoch()
                    &&& final(self).tree() == old(self).tree()
                    &&& final(self).order() == old(self).order()
                    &&& refusal(e, old(self).tree(), branch_name@)
                },
            },
            parents_exist(final(self).tree()),
    {
        proof {
            self.lemma_tree();
        }
        match self.operable_chain(branch_name) {
            Err(e) => {
                return Err(e);
            },
            Ok(_) => {},
        }
        self.reset_branches();
        self.epoch = if self.epoch == u64::MAX {
            0
        } else {
            self.epoch + 1
        };
        assert(self.notifiers() =~= old(self).notifiers());
        Ok(())
    }

    /// Ends a commit of `branch_name` after its work on the base directory
    /// was tried. When everything was written the branch is committed. When
    /// the work failed the base may hold a part of it: the branches are
    /// forgotten all the same, and the epoch stays as it is.
    pub fn finish_commit(&mut self, branch_name: &str, written: bool) -> (r: Result<
        (),
        BranchError,
    >)
        requires
            old(self).wf(),
        ensures
            final(self).wf(),
            final(self).storage() == old(self).storage(),
            final(self).base() == old(self).base(),
            final(self).workspace() == old(self).workspace(),
            final(self).state_path() == old(self).state_path(),
            final(self).notifiers() == old(self).notifiers(),
            forall|b: Seq<char>| final(self).opened(b) == old(self).opened(b),
            r is Ok <==> branch_name@ != main_name() && old(self).tree().contains_key(branch_name@),
            match r {
                Ok(()) => {
                    &&& final(self).epoch() == if written {
                        next_epoch(old(self).epoch())
                    } else {
                        old(self).epoch()
                    }
                    &&& final(self).tree() == main_only(old(self).storage())
                    &&& final(self).order() == seq![main_name()]
                },
                Err(e) => {
                    &&& final(self).epoch() == old(self).epoch()
                    &&& final(self).tree() == old(self).tree()
                    &&& final(self).order() == old(self).order()
                    &&& refusal(e, old(self).tree(), branch_name@)
                },
            },
            parents_exist(final(self).tree()),
    {
        if written {
            return self.commit(branch_name);
        }
        proof {
            self.lemma_parents();
        }
        match self.operable_chain(branch_name) {
            Err(e) => {
                return Err(e);
            },
            Ok(_) => {},
        }
        self.reset_branches();
        Ok(())
    }

    /// The branches that hang on `top`, in the order of the tree.
    fn hanging(&self, top: &str) -> (r: (Vec<String>, Ghost<Seq<int>>))
        requires
            self.wf(),
            top@ != main_name(),
        ensures
            lists_hanging(
                self.tree(),
                self.order(),
                top@,
                views(r.0@),
                r.1@,
                self.order().len() as int,
            ),
            views(r.0@).no_duplicates(),
            views(r.0@).to_set() == hanging_on(self.tree(), top@),
    {
        let mut fallen: StrMap<()> = StrMap::new();
        let mut victims: Vec<String> = Vec::new();
        let ghost mut at: Seq<int> = Seq::empty();
        let ghost tree = self.tree();
        let ghost order = self.order();
        let mut i: usize = 0;
        proof {
            self.lemma_tree();
            self.branches.lemma_entries();
            assert(views(victims@) =~= Seq::<Seq<char>>::empty());
            assert(fallen@.dom() =~= views(victims@).to_set());
        }
        while i < self.branches.len()
            invariant
                self.wf(),
                top@ != main_name(),
                tree == self.tree(),
                order == self.order(),
                i <= self.branches.size(),
                order.len() == self.branches.size(),
                fallen.wf(),
                fallen@.dom() == views(victims@).to_set(),
                lists_hanging(tree, order, top@, views(victims@), at, i as int),
            decreases self.branches.size() - i,
        {
            let name = self.branches.key(i);
            let b = self.branches.val(i);
            let ghost old_victims = views(victims@);
            proof {
                self.lemma_tree();
                self.branches.lemma_entries();
                assert(order[i as int] == name@);
                assert(self.branches@.contains_key(self.branches.key_at(i as int)));
                assert(tree[order[i as int]].parent == b.parent_name());
                lemma_hanging_next(tree, order, top@, old_victims, at, i as int);
            }
            let hit = *name.as_str() == *top || match b.parent() {
                Some(p) => fallen.contains_key(p),
                None => false,
            };
            if hit {
                fallen.insert(name.clone(), ());
                victims.push(name.clone());
                proof {
                    at = at.push(i as int);
                    assert(views(victims@) =~= old_victims.push(name@));
                    lemma_push_to_set(old_victims, name@);
                    assert(fallen@.dom() =~= views(victims@).to_set());
                }
            }
            i += 1;
        }
        proof {
            self.lemma_tree();
            lemma_hanging_all(tree, order, top@, views(victims@), at);
        }
        (victims, Ghost(at))
    }

    /// Takes the branches `victims`, those that hang on `top`, out of the
    /// tree, the last first.
    fn remove_hanging(&mut self, top: &str, victims: &Vec<String>, Ghost(at): Ghost<Seq<int>>)
        requires
            old(self).wf(),
            top@ != main_name(),
            lists_hanging(
                old(self).tree(),
                old(self).order(),
                top@,
                views(victims@),
                at,
                old(self).order().len() as int,
            ),
        ensures
            final(self).wf(),
            final(self).same_but_tree(old(self)),
            final(self).tree() == old(self).tree().remove_keys(views(victims@).to_set()),
            keeps_order(final(self).order(), old(self).order()),
    {
        let ghost before = *self;
        let ghost gone = views(victims@);
        proof {
            before.lemma_tree();
            lemma_keeps_itself(self.order());
            assert(gone.skip(gone.len() as int) =~= Seq::<Seq<char>>::empty());
            assert(before.tree().remove_keys(gone.skip(gone.len() as int).to_set())
                =~= before.tree());
        }
        let mut t: usize = victims.len();
        while t > 0
            invariant
                t <= victims.len(),
                gone == views(victims@),
                top@ != main_name(),
                orderly(before.tree(), before.order()),
                before.tree().contains_key(main_name()),
                before.tree()[main_name()].parent is None,
                self.wf(),
                self.same_but_tree(&before),
                lists_hanging(
                    before.tree(),
                    before.order(),
                    top@,
                    gone,
                    at,
                    before.order().len() as int,
                ),
                self.tree() == before.tree().remove_keys(gone.skip(t as int).to_set()),
                keeps_order(self.order(), before.order()),
            decreases t,
        {
            t -= 1;
            let ghost mid = *self;
            let ghost name = gone[t as int];
            proof {
                lemma_skip_one_less(gone, t as int);
                lemma_victim_is_leaf(
                    before.tree(),
                    before.order(),
                    top@,
                    gone,
                    at,
                    t as int,
                    mid.tree(),
                );
                assert(name == victims@[t as int]@);
                assert(name == before.order()[at[t as int]]);
                assert(hangs_on(before.tree(), name, top@));
                lemma_hangs_on_step(before.tree(), before.order(), top@, name);
                assert(name != main_name());
            }
            self.remove_leaf(victims[t].as_str());
            proof {
                let k = choose|k: int|
                    0 <= k < mid.order().len() && mid.order()[k] == name && self.order()
                        == mid.order().remove(k);
                lemma_keeps_order_without(mid.order(), before.order(), k);
                assert(mid.tree().remove(name) =~= before.tree().remove_keys(
                    gone.skip(t as int).to_set(),
                ));
            }
        }
        proof {
            assert(gone.skip(0) =~= gone);
        }
    }

    /// Takes the branch `name`, which is the parent of no branch, out of the
    /// tree.
    fn remove_leaf(&mut self, name: &str)
        requires
            old(self).wf(),
            name@ != main_name(),
            old(self).tree().contains_key(name@),
            childless(old(self).tree(), name@),
        ensures
            final(self).wf(),
            final(self).same_but_tree(old(self)),
            final(self).tree() == old(self).tree().remove(name@),
            exists|k: int|
                0 <= k < old(self).order().len() && old(self).order()[k] == name@
                    && final(self).order() == old(self).order().remove(k),
    {
        let ghost before = *self;
        proof {
            before.lemma_tree();
            before.branches.lemma_entries();
            let k = before.branches.slot(name@);
            assert(before.order()[k] == name@);
            lemma_orderly_shrinks(before.tree(), before.order(), k);
        }
        let _gone = self.branches.remove(name);
        proof {
            assert(self.tree() =~= before.tree().remove(name@));
            assert(self.notifiers() =~= before.notifiers());
        }
    }

    /// The branches that an abort of `branch_name` takes out of the tree: the
    /// chain of the branch and every branch that hangs on a branch of the
    /// chain, in the order of the tree.
    pub fn abort_set(&self, branch_name: &str) -> (r: Result<Vec<String>, BranchError>)
        requires
            self.wf(),
        ensures
            r is Ok <==> branch_name@ != main_name() && self.tree().contains_key(branch_name@),
            match r {
                Ok(names) => views(names@).no_duplicates() && views(names@).to_set() == hanging_on(
                    self.tree(),
                    top_of(self.tree(), branch_name@),
                ) && views(names@).contains(branch_name@) && keeps_order(
                    views(names@),
                    self.order(),
                ),
                Err(e) => refusal(e, self.tree(), branch_name@),
            },
    {
        let names = match self.operable_chain(branch_name) {
            Err(e) => {
                return Err(e);
            },
            Ok(names) => names,
        };
        let top = names[names.len() - 1].clone();
        proof {
            self.lemma_count();
            assert(views(names@).last() == top@);
            lemma_chain_members(self.tree(), branch_name@, self.branch_count());
            assert(views(names@).contains(views(names@).last()));
        }
        let (victims, Ghost(at)) = self.hanging(top.as_str());
        proof {
            let listed = views(victims@);
            let order = self.order();
            assert forall|i: int, j: int| 0 <= i < j < listed.len() implies precedes(
                order,
                #[trigger] listed[i],
                #[trigger] listed[j],
            ) by {
                assert(0 <= at[i] < at[j] < order.len() && order[at[i]] == listed[i] && order[at[j]]
                    == listed[j]);
            }
            let chained = views(names@);
            assert(chained[0] == branch_name@);
            assert(chained.contains(chained.last()));
            assert(hangs_on(self.tree(), branch_name@, top@));
            assert(hanging_on(self.tree(), top@).contains(branch_name@));
            assert(views(victims@).to_set().contains(branch_name@));
        }
        Ok(victims)
    }

    /// Aborts `branch_name`: the branches of its chain leave the tree, and
    /// with them every branch that hangs on one of them, so that no branch
    /// is left without its parent. The epoch and every other branch stay as
    /// they are.
    #[verifier::rlimit(40)]
    pub fn abort(&mut self, branch_name: &str) -> (r: Result<(), BranchError>)
        requires
            old(self).wf(),
        ensures
            final(self).wf(),
            final(self).same_but_tree(old(self)),
            r is Ok <==> branch_name@ != main_name() && old(self).tree().contains_key(branch_name@),
            match r {
                Ok(()) => final(self).tree() == old(self).tree().remove_keys(
                    hanging_on(old(self).tree(), top_of(old(self).tree(), branch_name@)),
                ),
                Err(e) => {
                    &&& final(self).tree() == old(self).tree()
                    &&& final(self).order() == old(self).order()
                    &&& refusal(e, old(self).tree(), branch_name@)
                },
            },
            r is Ok ==> forall|i: int|
                0 <= i < chain(
                    old(self).tree(),
                    branch_name@,
                    old(self).branch_count(),
                )->Done_0.len() ==> !final(self).tree().contains_key(
                    #[trigger] chain(
                        old(self).tree(),
                        branch_name@,
                        old(self).branch_count(),
                    )->Done_0[i],
                ),
            forall|b: Seq<char>| #[trigger]
                final(self).tree().contains_key(b) ==> old(self).tree().contains_key(b)
                    && final(self).tree()[b] == old(self).tree()[b],
            keeps_order(final(self).order(), old(self).order()),
            parents_exist(final(self).tree()),
    {
        proof {
            lemma_keeps_itself(self.order());
            self.lemma_parents();
        }
        let names = match self.operable_chain(branch_name) {
            Err(e) => {
                return Err(e);
            },
            Ok(names) => names,
        };
        let top = names[names.len() - 1].clone();
        let ghost before = *self;
        let ghost chained = views(names@);
        proof {
            before.lemma_count();
            assert(chained.last() == top@);
            lemma_chain_members(before.tree(), branch_name@, before.branch_count());
            assert(chained.contains(chained.last()));
        }
        let (victims, Ghost(at)) = self.hanging(top.as_str());
        self.remove_hanging(top.as_str(), &victims, Ghost(at));
        proof {
            lemma_chain_hangs_on_top(before.tree(), branch_name@);
            self.lemma_parents();
        }
        Ok(())
    }

    /// Removes the one branch `branch_name` and says whether it did; nothing
    /// happens for `main`, for a name that is not a branch, and for a branch
    /// that has children.
    pub fn abort_single(&mut self, branch_name: &str) -> (removed: bool)
        requires
            old(self).wf(),
        ensures
            final(self).wf(),
            final(self).same_but_tree(old(self)),
            removed <==> branch_name@ != main_name() && old(self).tree().contains_key(
                branch_name@,
            ) && childless(old(self).tree(), branch_name@),
            final(self).tree() == if removed {
                old(self).tree().remove(branch_name@)
            } else {
                old(self).tree()
            },
            !removed ==> final(self).order() == old(self).order(),
            keeps_order(final(self).order(), old(self).order()),
            parents_exist(final(self).tree()),
    {
        proof {
            lemma_keeps_itself(self.order());
            self.lemma_parents();
        }
        if *branch_name == *"main" {
            return false;
        }
        if !self.branches.contains_key(branch_name) || self.has_children(branch_name) {
            return false;
        }
        let ghost before = *self;
        self.remove_leaf(branch_name);
        proof {
            let k = choose|k: int|
                0 <= k < before.order().len() && before.order()[k] == branch_name@ && self.order()
                    == before.order().remove(k);
            lemma_keeps_order_without(before.order(), before.order(), k);
            self.lemma_parents();
        }
        true
    }

    /// Whether some branch names `name` as its parent.
    fn has_children(&self, name: &str) -> (r: bool)
        requires
            self.wf(),
        ensures
            r == !childless(self.tree(), name@),
    {
        let kids = self.get_children(name);
        proof {
            if kids@.len() > 0 {
                assert(self.tree().contains_key(kids@[0]@));
            } else {
                assert forall|b: Seq<char>| #[trigger]
                    self.tree().contains_key(b) implies self.tree()[b].parent != Some(name@) by {
                    if self.tree()[b].parent == Some(name@) {
                        let i = choose|i: int| 0 <= i < kids@.len() && kids@[i]@ == b;
                    }
                }
            }
        }
        kids.len() > 0
    }

    /// What a commit of `branch_name` does to the base, when `listings` holds
    /// for each member of the branch's chain, from the branch upwards, the
    /// deltas of that member. The paths to delete are those that a member of
    /// the chain has deleted; the deltas to write are those that win, one
    /// for each path.
    pub fn commit_plan(&self, branch_name: &str, listings: &Vec<Vec<(String, String)>>) -> (r:
        Result<CommitPlan, BranchError>)
        requires
            self.wf(),
        ensures
            r is Ok <==> branch_name@ != main_name() && self.tree().contains_key(branch_name@),
            match r {
                Err(e) => refusal(e, self.tree(), branch_name@),
                Ok(plan) => {
                    &&& chain(self.tree(), branch_name@, self.branch_count()) == Walk::Done(
                        views(plan.chain@),
                    )
                    &&& views(plan.deletions@).no_duplicates()
                    &&& views(plan.deletions@).to_set() == deleted_by(
                        self.tree(),
                        plan.chain@,
                        plan.chain@.len() as int,
                    )
                    &&& forall|m: int|
                        0 <= m < plan.files@.len() ==> is_winner(
                            self.tree(),
                            plan.chain@,
                            listings@,
                            #[trigger] plan.files@[m],
                        )
                    &&& forall|i: int, k: int|
                        #![trigger listed_rel(listings@, i, k)]
                        wins(self.tree(), plan.chain@, listings@, i, k) ==> holds_file(
                            plan.files@,
                            listed_rel(listings@, i, k),
                            listed_path(listings@, i, k),
                        )
                    &&& forall|m1: int, m2: int|
                        0 <= m1 < m2 < plan.files@.len() ==> (#[trigger] plan.files@[m1]).0@ != (
                        #[trigger] plan.files@[m2]).0@
                },
            },
    {
        let chain = self.operable_chain(branch_name)?;
        let (deletions, files) = self.collect_changes(&chain, listings);
        Ok(CommitPlan { chain, deletions, files })
    }

    /// Adds to `deletions` what the branch `name` has deleted.
    fn merge_tombstones(&self, deletions: &mut StrMap<()>, name: &str)
        requires
            self.wf(),
            old(deletions).wf(),
            self.tree().contains_key(name@),
        ensures
            final(deletions).wf(),
            final(deletions)@.dom() == old(deletions)@.dom().union(
                self.tree()[name@].tombstones,
            ),
    {
        let ghost start = deletions@.dom();
        let b = match self.branches.get(name) {
            Some(b) => b,
            None => {
                return ;
            },
        };
        let tombs = b.get_tombstones();
        let ghost all = views(tombs@);
        let mut j: usize = 0;
        proof {
            assert(start.union(all.take(0).to_set()) =~= start);
        }
        while j < tombs.len()
            invariant
                j <= tombs.len(),
                all == views(tombs@),
                deletions.wf(),
                deletions@.dom() == start.union(all.take(j as int).to_set()),
            decreases tombs.len() - j,
        {
            deletions.insert(tombs[j].clone(), ());
            proof {
                lemma_take_one_more(all, j as int);
                assert(deletions@.dom() =~= start.union(all.take(j + 1).to_set()));
            }
            j += 1;
        }
        proof {
            assert(all.take(tombs.len() as int) =~= all);
        }
    }

    /// What a commit of the chain `chain` does to the base directory, given
    /// the delta files that each branch of the chain holds: the paths to
    /// delete there, and the deltas to copy there afterwards. A path is
    /// deleted when a branch of the chain has a tombstone for it. A delta is
    /// copied when it `wins`; of two deltas for one path the one nearer to the
    /// start of the chain is copied.
    pub fn collect_changes(
        &self,
        chain: &Vec<String>,
        listings: &Vec<Vec<(String, String)>>,
    ) -> (r: (Vec<String>, Vec<(String, String)>))
        requires
            self.wf(),
            forall|i: int| 0 <= i < chain@.len() ==> self.tree().contains_key(#[trigger] chain@[i]@),
        ensures
            views(r.0@).no_duplicates(),
            views(r.0@).to_set() == deleted_by(self.tree(), chain@, chain@.len() as int),
            forall|m: int|
                0 <= m < r.1@.len() ==> is_winner(self.tree(), chain@, listings@, #[trigger] r.1@[m]),
            forall|i: int, k: int|
                #![trigger listed_rel(listings@, i, k)]
                wins(self.tree(), chain@, listings@, i, k) ==> holds_file(
                    r.1@,
                    listed_rel(listings@, i, k),
                    listed_path(listings@, i, k),
                ),
            forall|m1: int, m2: int|
                0 <= m1 < m2 < r.1@.len() ==> (#[trigger] r.1@[m1]).0@ != (#[trigger] r.1@[m2]).0@,
    {
        let mut deletions: StrMap<()> = StrMap::new();
        let mut seen: StrMap<()> = StrMap::new();
        let mut files: Vec<(String, String)> = Vec::new();
        let ghost mut src: Seq<(int, int)> = Seq::empty();
        let ghost tree = self.tree();
        let mut i: usize = 0;
        proof {
            assert(deletions@.dom() =~= deleted_by(tree, chain@, 0));
        }
        while i < chain.len()
            invariant
                self.wf(),
                tree == self.tree(),
                forall|a: int| 0 <= a < chain@.len() ==> tree.contains_key(#[trigger] chain@[a]@),
                i <= chain.len(),
                deletions.wf(),
                seen.wf(),
                deletions@.dom() == deleted_by(tree, chain@, i as int),
                collected(tree, chain@, listings@, seen@.dom(), files@, src, i as int, 0),
            decreases chain.len() - i,
        {
            let ghost before = deletions@.dom();
            self.merge_tombstones(&mut deletions, chain[i].as_str());
            proof {
                let mine = tree[chain@[i as int]@].tombstones;
                assert forall|p: Seq<char>|
                    before.union(mine).contains(p) <==> deleted_by(tree, chain@, i + 1).contains(
                        p,
                    ) by {
                    if mine.contains(p) {
                        assert(tree[chain@[i as int]@].tombstones.contains(p));
                    }
                    if deleted_by(tree, chain@, i + 1).contains(p) {
                        let j = choose|j: int|
                            0 <= j < i + 1 && j < chain@.len() && tree.contains_key(chain@[j]@)
                                && #[trigger] tree[chain@[j]@].tombstones.contains(p);
                        if j < i {
                            assert(deleted_by(tree, chain@, i as int).contains(p));
                        }
                    }
                }
                assert(deletions@.dom() =~= deleted_by(tree, chain@, i + 1));
            }
            if i < listings.len() {
                let listing = &listings[i];
                let mut k: usize = 0;
                while k < listing.len()
                    invariant
                        i < chain.len(),
                        i < listings.len(),
                        listing == listings@[i as int],
                        k <= listing.len(),
                        deletions.wf(),
                        seen.wf(),
                        deletions@.dom() == deleted_by(tree, chain@, i + 1),
                        collected(tree, chain@, listings@, seen@.dom(), files@, src, i as int, k as int),
                    decreases listing.len() - k,
                {
                    let entry = &listing[k];
                    let ghost rel = entry.0@;
                    let ghost old_seen = seen@.dom();
                    let ghost old_files = files@;
                    let ghost old_src = src;
                    assert(rel == listed_rel(listings@, i as int, k as int));
                    if !seen.contains_key(entry.0.as_str()) && !deletions.contains_key(
                        entry.0.as_str(),
                    ) {
                        seen.insert(entry.0.clone(), ());
                        files.push((entry.0.clone(), entry.1.clone()));
                        proof {
                            src = src.push((i as int, k as int));
                            lemma_take(
                                tree,
                                chain@,
                                listings@,
                                old_seen,
                                old_files,
                                old_src,
                                i as int,
                                k as int,
                                seen@.dom(),
                                files@,
                                src,
                            );
                        }
                    } else {
                        proof {
                            lemma_skip(
                                tree,
                                chain@,
                                listings@,
                                old_seen,
                                old_files,
                                old_src,
                                i as int,
                                k as int,
                            );
                        }
                    }
                    k += 1;
                }
                proof {
                    lemma_next_branch(tree, chain@, listings@, seen@.dom(), files@, src, i as int);
                }
            } else {
                proof {
                    lemma_no_listing(tree, chain@, listings@, seen@.dom(), files@, src, i as int);
                }
            }
            i += 1;
        }
        let gone = deletions.key_list();
        proof {
            deletions.lemma_entries();
            let names = views(gone@);
            assert forall|a: int, b: int| 0 <= a < names.len() && 0 <= b < names.len() && a
                != b implies names[a] != names[b] by {
                assert(deletions.key_at(a) != deletions.key_at(b));
            }
            assert forall|p: Seq<char>| names.to_set().contains(p) <==> deletions@.dom().contains(
                p,
            ) by {
                if names.contains(p) {
                    let a = choose|a: int| 0 <= a < names.len() && names[a] == p;
                    assert(deletions@.contains_key(deletions.key_at(a)));
                }
                if deletions@.dom().contains(p) {
                    let a = deletions.slot(p);
                    assert(names[a] == p);
                }
            }
            assert(names.to_set() =~= deletions@.dom());
            lemma_collected_all(tree, chain@, listings@, seen@.dom(), files@, src, i as int);
        }
        (gone, files)
    }

    /// Position of the notifier of `mountpoint` on `branch_name`.
    fn find_notifier(&self, branch_name: &str, mountpoint: &str) -> (r: Option<usize>)
        ensures
            match r {
                Some(i) => i < self.notifiers@.len() && self.notifiers@[i as int].0@
                    == branch_name@ && self.notifiers@[i as int].1@ == mountpoint@,
                None => !self.notifiers().contains((branch_name@, mountpoint@)),
            },
    {
        let mut i: usize = 0;
        while i < self.notifiers.len()
            invariant
                i <= self.notifiers@.len(),
                forall|j: int|
                    0 <= j < i ==> !(self.notifiers@[j].0@ == branch_name@ && self.notifiers@[j].1@
                        == mountpoint@),
            decreases self.notifiers@.len() - i,
        {
            if *self.notifiers[i].0.as_str() == *branch_name && *self.notifiers[i].1.as_str()
                == *mountpoint {
                return Some(i);
            }
            i += 1;
        }
        None
    }

    /// Notes that the mount at `mountpoint` shows `branch_name` and has a
    /// notifier.
    pub fn register_notifier(&mut self, branch_name: &str, mountpoint: &str)
        requires
            old(self).wf(),
        ensures
            final(self).wf(),
            final(self).tree() == old(self).tree(),
            final(self).order() == old(self).order(),
            final(self).epoch() == old(self).epoch(),
            final(self).storage() == old(self).storage(),
            final(self).base() == old(self).base(),
            final(self).workspace() == old(self).workspace(),
            final(self).state_path() == old(self).state_path(),
            forall|b: Seq<char>| final(self).opened(b) == old(self).opened(b),
            final(self).notifiers() == old(self).notifiers().insert((branch_name@, mountpoint@)),
    {
        let ghost before = *self;
        match self.find_notifier(branch_name, mountpoint) {
            Some(i) => {
                proof {
                    assert(before.notifiers().contains((branch_name@, mountpoint@)));
                    assert(before.notifiers() =~= before.notifiers().insert(
                        (branch_name@, mountpoint@),
                    ));
                }
            },
            None => {
                self.notifiers.push((branch_name.to_owned(), mountpoint.to_owned()));
                proof {
                    let n = before.notifiers@.len() as int;
                    assert forall|i: int, j: int| 0 <= i < j < self.notifiers@.len() implies !(
                    self.notifiers@[i].0@ == self.notifiers@[j].0@ && self.notifiers@[i].1@
                        == self.notifiers@[j].1@) by {
                        if j == n {
                            assert(before.notifiers@[i] == self.notifiers@[i]);
                            if self.notifiers@[i].0@ == branch_name@ && self.notifiers@[i].1@
                                == mountpoint@ {
                                assert(before.notifiers().contains((branch_name@, mountpoint@)));
                            }
                        } else {
                            assert(before.notifiers@[i] == self.notifiers@[i]);
                            assert(before.notifiers@[j] == self.notifiers@[j]);
                        }
                    }
                    assert forall|key: (Seq<char>, Seq<char>)|
                        self.notifiers().contains(key) <==> before.notifiers().insert(
                            (branch_name@, mountpoint@),
                        ).contains(key) by {
                        if self.notifiers().contains(key) {
                            let i = choose|i: int|
                                0 <= i < self.notifiers@.len() && self.notifiers@[i].0@ == key.0
                                    && self.notifiers@[i].1@ == key.1;
                            if i < n {
                                assert(before.notifiers@[i] == self.notifiers@[i]);
                            }
                        }
                        if before.notifiers().contains(key) {
                            let i = choose|i: int|
                                0 <= i < before.notifiers@.len() && before.notifiers@[i].0@ == key.0
                                    && before.notifiers@[i].1@ == key.1;
                            assert(before.notifiers@[i] == self.notifiers@[i]);
                        }
                        if key == (branch_name@, mountpoint@) {
                            assert(self.notifiers@[n].0@ == key.0 && self.notifiers@[n].1@ == key.1);
                        }
                    }
                    assert(self.notifiers() =~= before.notifiers().insert(
                        (branch_name@, mountpoint@),
                    ));
                    assert(self.tree() =~= before.tree());
                }
            },
        }
    }

    /// Notes that the mount at `mountpoint` no longer shows `branch_name`.
    pub fn unregister_notifier(&mut self, branch_name: &str, mountpoint: &str)
        requires
            old(self).wf(),
        ensures
            final(self).wf(),
            final(self).tree() == old(self).tree(),
            final(self).order() == old(self).order(),
            final(self).epoch() == old(self).epoch(),
            final(self).storage() == old(self).storage(),
            final(self).base() == old(self).base(),
            final(self).workspace() == old(self).workspace(),
            final(self).state_path() == old(self).state_path(),
            forall|b: Seq<char>| final(self).opened(b) == old(self).opened(b),
            final(self).notifiers() == old(self).notifiers().remove((branch_name@, mountpoint@)),
    {
        let ghost before = *self;
        match self.find_notifier(branch_name, mountpoint) {
            Some(i) => {
                let _gone = self.notifiers.remove(i);
                proof {
                    assert forall|a: int, b: int| 0 <= a < b < self.notifiers@.len() implies !(
                    self.notifiers@[a].0@ == self.notifiers@[b].0@ && self.notifiers@[a].1@
                        == self.notifiers@[b].1@) by {
                        let a0 = if a < i { a } else { a + 1 };
                        let b0 = if b < i { b } else { b + 1 };
                        assert(self.notifiers@[a] == before.notifiers@[a0]);
                        assert(self.notifiers@[b] == before.notifiers@[b0]);
                    }
                    assert forall|key: (Seq<char>, Seq<char>)|
                        self.notifiers().contains(key) <==> before.notifiers().remove(
                            (branch_name@, mountpoint@),
                        ).contains(key) by {
                        if self.notifiers().contains(key) {
                            let a = choose|a: int|
                                0 <= a < self.notifiers@.len() && self.notifiers@[a].0@ == key.0
                                    && self.notifiers@[a].1@ == key.1;
                            let a0 = if a < i { a } else { a + 1 };
                            assert(self.notifiers@[a] == before.notifiers@[a0]);
                            if a0 < i {
                                assert(!(before.notifiers@[a0].0@ == before.notifiers@[i as int].0@
                                    && before.notifiers@[a0].1@ == before.notifiers@[i as int].1@));
                            } else {
                                assert(!(before.notifiers@[i as int].0@ == before.notifiers@[a0].0@
                                    && before.notifiers@[i as int].1@ == before.notifiers@[a0].1@));
                            }
                        }
                        if before.notifiers().remove((branch_name@, mountpoint@)).contains(key) {
                            let b = choose|b: int|
                                0 <= b < before.notifiers@.len() && before.notifiers@[b].0@ == key.0
                                    && before.notifiers@[b].1@ == key.1;
                            assert(b != i);
                            let b1 = if b < i { b } else { b - 1 };
                            assert(self.notifiers@[b1] == before.notifiers@[b]);
                        }
                    }
                    assert(self.notifiers() =~= before.notifiers().remove(
                        (branch_name@, mountpoint@),
                    ));
                    assert(self.tree() =~= before.tree());
                }
            },
            None => {
                proof {
                    assert(before.notifiers() =~= before.notifiers().remove(
                        (branch_name@, mountpoint@),
                    ));
                }
            },
        }
    }

    /// Notes that inode `ino` was opened through `branch_name`.
    pub fn register_opened_inode(&mut self, branch_name: &str, ino: u64)
        requires
            old(self).wf(),
        ensures
            final(self).wf(),
            final(self).tree() == old(self).tree(),
            final(self).order() == old(self).order(),
            final(self).epoch() == old(self).epoch(),
            final(self).storage() == old(self).storage(),
            final(self).base() == old(self).base(),
            final(self).workspace() == old(self).workspace(),
            final(self).state_path() == old(self).state_path(),
            final(self).notifiers() == old(self).notifiers(),
            forall|b: Seq<char>|
                final(self).opened(b) == if b == branch_name@ {
                    old(self).opened(b).insert(ino)
                } else {
                    old(self).opened(b)
                },
    {
        let ghost before = *self;
        let mut inos: Vec<u64> = match self.opened_inodes.remove(branch_name) {
            Some(v) => v,
            None => Vec::new(),
        };
        let ghost had = inos@;
        assert(had.to_set() =~= before.opened(branch_name@));
        let mut present = false;
        let mut i: usize = 0;
        while i < inos.len()
            invariant
                i <= inos.len(),
                present <==> exists|j: int| 0 <= j < i && inos@[j] == ino,
            decreases inos.len() - i,
        {
            if inos[i] == ino {
                present = true;
            }
            i += 1;
        }
        if !present {
            inos.push(ino);
            proof {
                assert forall|a: int, b: int| 0 <= a < inos@.len() && 0 <= b < inos@.len() && a
                    != b implies inos@[a] != inos@[b] by {
                    if a < had.len() {
                        assert(inos@[a] == had[a]);
                    }
                    if b < had.len() {
                        assert(inos@[b] == had[b]);
                    }
                }
                assert(inos@ =~= had.push(ino));
                lemma_push_to_set(had, ino);
            }
        } else {
            proof {
                let j = choose|j: int| 0 <= j < inos@.len() && inos@[j] == ino;
                assert(had.contains(ino));
                assert(had.to_set() =~= had.to_set().insert(ino));
            }
        }
        self.opened_inodes.insert(branch_name.to_owned(), inos);
        proof {
            assert(self.tree() =~= before.tree());
            assert(self.notifiers() =~= before.notifiers());
            assert forall|b: Seq<char>|
                self.opened(b) == if b == branch_name@ {
                    before.opened(b).insert(ino)
                } else {
                    before.opened(b)
                } by {
                if b != branch_name@ {
                    assert(self.opened_inodes@.contains_key(b) == before.opened_inodes@.contains_key(
                        b,
                    ));
                }
            }
        }
    }

    /// The inodes to invalidate for a mount on `branch`.
    fn inodes_to_drop(&self, branch: &str) -> (r: Vec<u64>)
        requires
            self.wf(),
        ensures
            covers(r@, self.opened(branch@)),
    {
        let mut out: Vec<u64> = Vec::new();
        out.push(ROOT_INO);
        proof {
            assert(out@ =~= Seq::<u64>::empty().push(ROOT_INO));
            lemma_push_to_set(Seq::<u64>::empty(), ROOT_INO);
            assert(Seq::<u64>::empty().to_set() =~= Set::<u64>::empty());
        }
        match self.opened_inodes.get(branch) {
            None => {},
            Some(inos) => {
                let ghost all = inos@;
                let mut i: usize = 0;
                proof {
                    assert(all.take(0).to_set() =~= Set::<u64>::empty());
                }
                while i < inos.len()
                    invariant
                        i <= inos.len(),
                        all == inos@,
                        all.no_duplicates(),
                        out@.len() > 0,
                        out@[0] == ROOT_INO,
                        out@.no_duplicates(),
                        out@.to_set() == all.take(i as int).to_set().insert(ROOT_INO),
                    decreases inos.len() - i,
                {
                    let ghost before = out@;
                    let ino = inos[i];
                    proof {
                        lemma_take_one_more(all, i as int);
                    }
                    if ino != ROOT_INO {
                        proof {
                            if all.take(i as int).contains(ino) {
                                let j = choose|j: int| 0 <= j < i && all.take(i as int)[j] == ino;
                                assert(all[j] == all[i as int]);
                            }
                            assert(!before.to_set().contains(ino));
                            lemma_push_to_set(before, ino);
                        }
                        out.push(ino);
                        proof {
                            assert(out@.to_set() =~= all.take(i + 1).to_set().insert(ROOT_INO));
                        }
                    } else {
                        proof {
                            assert(out@.to_set() =~= all.take(i + 1).to_set().insert(ROOT_INO));
                        }
                    }
                    i += 1;
                }
                proof {
                    assert(all.take(inos.len() as int) =~= all);
                }
            },
        }
        out
    }

    /// The invalidations for the mounts whose branch is wanted.
    fn plan_invalidations(&self, only: Option<&[String]>) -> (r: Vec<Invalidation>)
        requires
            self.wf(),
        ensures
            forall|i: int|
                0 <= i < r@.len() ==> self.notifiers().contains(
                    ((#[trigger] r@[i]).branch@, r@[i].mountpoint@),
                ) && wanted(only, r@[i].branch@) && covers(
                    r@[i].inodes@,
                    self.opened(r@[i].branch@),
                ),
            forall|key: (Seq<char>, Seq<char>)|
                self.notifiers().contains(key) && #[trigger] wanted(only, key.0) ==> exists|i: int|
                    0 <= i < r@.len() && (#[trigger] r@[i]).branch@ == key.0 && r@[i].mountpoint@
                        == key.1,
            forall|i: int, j: int|
                0 <= i < j < r@.len() ==> !((#[trigger] r@[i]).branch@ == (#[trigger] r@[j]).branch@
                    && r@[i].mountpoint@ == r@[j].mountpoint@),
    {
        let mut out: Vec<Invalidation> = Vec::new();
        let ghost mut from: Seq<int> = Seq::empty();
        let mut i: usize = 0;
        while i < self.notifiers.len()
            invariant
                self.wf(),
                i <= self.notifiers@.len(),
                from.len() == out@.len(),
                forall|m: int|
                    0 <= m < out@.len() ==> 0 <= #[trigger] from[m] < i && out@[m].branch@
                        == self.notifiers@[from[m]].0@ && out@[m].mountpoint@
                        == self.notifiers@[from[m]].1@ && wanted(only, out@[m].branch@) && covers(
                        out@[m].inodes@,
                        self.opened(out@[m].branch@),
                    ),
                forall|a: int, b: int| 0 <= a < b < from.len() ==> from[a] < from[b],
                forall|j: int|
                    0 <= j < i && wanted(only, (#[trigger] self.notifiers@[j]).0@) ==> exists|
                        m: int,
                    | 0 <= m < from.len() && from[m] == j,
            decreases self.notifiers@.len() - i,
        {
            let branch = &self.notifiers[i].0;
            let mountpoint = &self.notifiers[i].1;
            let is_wanted = match only {
                None => true,
                Some(names) => {
                    let mut found = false;
                    let mut t: usize = 0;
                    while t < names.len()
                        invariant
                            t <= names.len(),
                            found <==> exists|u: int|
                                0 <= u < t && (#[trigger] names@[u])@ == branch@,
                        decreases names.len() - t,
                    {
                        if *names[t].as_str() == *branch.as_str() {
                            found = true;
                        }
                        t += 1;
                    }
                    found
                },
            };
            assert(is_wanted == wanted(only, branch@));
            let ghost old_from = from;
            let ghost old_out = out@;
            if is_wanted {
                let inodes = self.inodes_to_drop(branch.as_str());
                out.push(
                    Invalidation { branch: branch.clone(), mountpoint: mountpoint.clone(), inodes },
                );
                proof {
                    from = from.push(i as int);
                    assert forall|m: int| 0 <= m < out@.len() implies 0 <= #[trigger] from[m] < i + 1
                        && out@[m].branch@ == self.notifiers@[from[m]].0@ && out@[m].mountpoint@
                        == self.notifiers@[from[m]].1@ && wanted(only, out@[m].branch@) && covers(
                        out@[m].inodes@,
                        self.opened(out@[m].branch@),
                    ) by {
                        if m < old_out.len() {
                            assert(out@[m] == old_out[m]);
                            assert(from[m] == old_from[m]);
                        }
                    }
                }
            }
            proof {
                assert forall|j: int|
                    0 <= j < i + 1 && wanted(
                        only,
                        (#[trigger] self.notifiers@[j]).0@,
                    ) implies exists|m: int| 0 <= m < from.len() && from[m] == j by {
                    if j < i {
                        let m = choose|m: int| 0 <= m < old_from.len() && old_from[m] == j;
                        assert(from[m] == j);
                    } else {
                        assert(from[old_from.len() as int] == j);
                    }
                }
            }
            i += 1;
        }
        proof {
            assert forall|i: int| 0 <= i < out@.len() implies self.notifiers().contains(
                ((#[trigger] out@[i]).branch@, out@[i].mountpoint@),
            ) && wanted(only, out@[i].branch@) && covers(
                out@[i].inodes@,
                self.opened(out@[i].branch@),
            ) by {
                let j = from[i];
                assert(self.notifiers@[j].0@ == out@[i].branch@ && self.notifiers@[j].1@
                    == out@[i].mountpoint@);
            }
            assert forall|key: (Seq<char>, Seq<char>)|
                self.notifiers().contains(key) && #[trigger] wanted(only, key.0) implies exists|
                i: int,
            |
                0 <= i < out@.len() && (#[trigger] out@[i]).branch@ == key.0 && out@[i].mountpoint@
                    == key.1 by {
                let j = choose|j: int|
                    0 <= j < self.notifiers@.len() && self.notifiers@[j].0@ == key.0
                        && self.notifiers@[j].1@ == key.1;
                assert(wanted(only, self.notifiers@[j].0@));
                let m = choose|m: int| 0 <= m < from.len() && from[m] == j;
                assert(out@[m].branch@ == key.0 && out@[m].mountpoint@ == key.1);
            }
            assert forall|a: int, b: int| 0 <= a < b < out@.len() implies !((
            #[trigger] out@[a]).branch@ == (#[trigger] out@[b]).branch@ && out@[a].mountpoint@
                == out@[b].mountpoint@) by {
                assert(from[a] < from[b]);
            }
        }
        out
    }

    /// What to tell the kernel after a commit: one invalidation for every
    /// mount that has a notifier.
    pub fn invalidate_all_mounts(&self) -> (r: Vec<Invalidation>)
        requires
            self.wf(),
        ensures
            forall|i: int|
                0 <= i < r@.len() ==> self.notifiers().contains(
                    ((#[trigger] r@[i]).branch@, r@[i].mountpoint@),
                ) && covers(r@[i].inodes@, self.opened(r@[i].branch@)),
            forall|key: (Seq<char>, Seq<char>)|
                self.notifiers().contains(key) ==> exists|i: int|
                    0 <= i < r@.len() && (#[trigger] r@[i]).branch@ == key.0 && r@[i].mountpoint@
                        == key.1,
            forall|i: int, j: int|
                0 <= i < j < r@.len() ==> !((#[trigger] r@[i]).branch@ == (#[trigger] r@[j]).branch@
                    && r@[i].mountpoint@ == r@[j].mountpoint@),
    {
        let r = self.plan_invalidations(None);
        proof {
            assert forall|key: (Seq<char>, Seq<char>)| self.notifiers().contains(key) implies exists|
                i: int,
            | 0 <= i < r@.len() && (#[trigger] r@[i]).branch@ == key.0 && r@[i].mountpoint@
                == key.1 by {
                assert(wanted(None, key.0));
            }
        }
        r
    }

    /// What to tell the kernel after an abort: one invalidation for every
    /// mount that has a notifier and shows one of `branch_names`.
    pub fn invalidate_branches(&self, branch_names: &[String]) -> (r: Vec<Invalidation>)
        requires
            self.wf(),
        ensures
            forall|i: int|
                0 <= i < r@.len() ==> self.notifiers().contains(
                    ((#[trigger] r@[i]).branch@, r@[i].mountpoint@),
                ) && named(branch_names@, r@[i].branch@) && covers(
                    r@[i].inodes@,
                    self.opened(r@[i].branch@),
                ),
            forall|key: (Seq<char>, Seq<char>)|
                self.notifiers().contains(key) && named(branch_names@, key.0) ==> exists|i: int|
                    0 <= i < r@.len() && (#[trigger] r@[i]).branch@ == key.0 && r@[i].mountpoint@
                        == key.1,
            forall|i: int, j: int|
                0 <= i < j < r@.len() ==> !((#[trigger] r@[i]).branch@ == (#[trigger] r@[j]).branch@
                    && r@[i].mountpoint@ == r@[j].mountpoint@),
    {
        let r = self.plan_invalidations(Some(branch_names));
        proof {
            assert forall|key: (Seq<char>, Seq<char>)|
                self.notifiers().contains(key) && named(branch_names@, key.0) implies exists|
                i: int,
            | 0 <= i < r@.len() && (#[trigger] r@[i]).branch@ == key.0 && r@[i].mountpoint@
                == key.1 by {
                assert(wanted(Some(branch_names), key.0));
            }
        }
        r
    }
}

} // verus!
