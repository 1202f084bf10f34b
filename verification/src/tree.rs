//! The branch tree as a mathematical value, and what walking it means.
//!
//! A tree maps each branch name to the branch's parent, its delta directory
//! and its tombstones. `main` is the root. Walks follow the parent names, one
//! lookup at a time; a walk stops with `Missing` at a name that the tree does
//! not hold, and with `Endless` when it has taken more steps than it was
//! granted: as many as the tree has branches.

use vstd::prelude::*;
use crate::branch::BranchView;
use crate::disk::FileKind;
use crate::paths::join;

verus! {

/// How a walk toward the root ended.
pub enum Walk<T> {
    /// It reached the root.
    Done(T),
    /// It came to a name that the tree does not hold.
    Missing(Seq<char>),
    /// It took more steps than it was granted.
    Endless,
}

/// The name of the root branch.
pub open spec fn main_name() -> Seq<char> {
    "main"@
}

/// `walk` with the names `prefix` put before what it found.
pub open spec fn prepend(prefix: Seq<Seq<char>>, walk: Walk<Seq<Seq<char>>>) -> Walk<
    Seq<Seq<char>>,
> {
    match walk {
        Walk::Done(rest) => Walk::Done(prefix + rest),
        Walk::Missing(n) => Walk::Missing(n),
        Walk::Endless => Walk::Endless,
    }
}

/// The chain of `start`: the branches from `start` toward `main`, `start`
/// first and `main` left out.
pub open spec fn chain(tree: Map<Seq<char>, BranchView>, start: Seq<char>, fuel: nat) -> Walk<
    Seq<Seq<char>>,
>
    decreases fuel,
{
    if start == main_name() {
        Walk::Done(Seq::empty())
    } else if !tree.contains_key(start) {
        Walk::Missing(start)
    } else {
        match tree[start].parent {
            None => Walk::Done(seq![start]),
            Some(p) => if fuel == 0 {
                Walk::Endless
            } else {
                prepend(seq![start], chain(tree, p, (fuel - 1) as nat))
            },
        }
    }
}

/// Where the virtual path `rel` is stored for branch `start`: the walk stops
/// at the first branch that has a tombstone for `rel` (then the path is
/// absent) or a delta for it (then that delta is the answer); a walk that
/// passes the root ends at the base directory.
pub open spec fn resolve(
    tree: Map<Seq<char>, BranchView>,
    disk: Map<Seq<char>, FileKind>,
    base: Seq<char>,
    start: Seq<char>,
    rel: Seq<char>,
    fuel: nat,
) -> Walk<Option<Seq<char>>>
    decreases fuel,
{
    if !tree.contains_key(start) {
        Walk::Missing(start)
    } else if tree[start].tombstones.contains(rel) {
        Walk::Done(None)
    } else if disk.contains_key(join(tree[start].files_dir, rel)) {
        Walk::Done(Some(join(tree[start].files_dir, rel)))
    } else {
        match tree[start].parent {
            None => if disk.contains_key(join(base, rel)) {
                Walk::Done(Some(join(base, rel)))
            } else {
                Walk::Done(None)
            },
            Some(p) => if fuel == 0 {
                Walk::Endless
            } else {
                resolve(tree, disk, base, p, rel, (fuel - 1) as nat)
            },
        }
    }
}

/// The storage paths that decide `resolve`: the delta path of each branch
/// that the walk may visit, in the order of the walk, and the path below the
/// base directory when the walk can pass the root.
pub open spec fn probes(
    tree: Map<Seq<char>, BranchView>,
    base: Seq<char>,
    start: Seq<char>,
    rel: Seq<char>,
    fuel: nat,
) -> Seq<Seq<char>>
    decreases fuel,
{
    if !tree.contains_key(start) {
        Seq::empty()
    } else {
        match tree[start].parent {
            None => seq![join(tree[start].files_dir, rel), join(base, rel)],
            Some(p) => if fuel == 0 {
                seq![join(tree[start].files_dir, rel)]
            } else {
                seq![join(tree[start].files_dir, rel)] + probes(
                    tree,
                    base,
                    p,
                    rel,
                    (fuel - 1) as nat,
                )
            },
        }
    }
}

/// The branches of `order` whose parent is `parent`, in that order.
pub open spec fn children_of(
    tree: Map<Seq<char>, BranchView>,
    order: Seq<Seq<char>>,
    parent: Seq<char>,
) -> Seq<Seq<char>> {
    order.filter(|k: Seq<char>| tree.contains_key(k) && tree[k].parent == Some(parent))
}

/// The branches of `order` other than `main`, in that order.
pub open spec fn side_branches_of(order: Seq<Seq<char>>) -> Seq<Seq<char>> {
    order.filter(|k: Seq<char>| k != main_name())
}

/// Every parent that a branch names is a branch of the tree.
pub open spec fn parents_exist(tree: Map<Seq<char>, BranchView>) -> bool {
    forall|b: Seq<char>| #[trigger]
        tree.contains_key(b) ==> (tree[b].parent matches Some(p) ==> tree.contains_key(p))
}

/// `ancestor` is reached from `start` in `steps` parent steps, and no branch
/// passed on the way, `start` included, decides the fate of `rel`.
pub open spec fn clear_way(
    tree: Map<Seq<char>, BranchView>,
    disk: Map<Seq<char>, FileKind>,
    start: Seq<char>,
    ancestor: Seq<char>,
    rel: Seq<char>,
    steps: nat,
) -> bool
    decreases steps,
{
    if steps == 0 {
        start == ancestor
    } else {
        &&& tree.contains_key(start)
        &&& !tree[start].tombstones.contains(rel)
        &&& !disk.contains_key(join(tree[start].files_dir, rel))
        &&& tree[start].parent matches Some(p)
        &&& clear_way(tree, disk, p, ancestor, rel, (steps - 1) as nat)
    }
}

/// A tombstone hides the path: in a branch that has deleted `rel`, `rel`
/// resolves to nothing, whatever its ancestors or the base hold.
pub proof fn law_tombstone_hides(
    tree: Map<Seq<char>, BranchView>,
    disk: Map<Seq<char>, FileKind>,
    base: Seq<char>,
    branch: Seq<char>,
    rel: Seq<char>,
    fuel: nat,
)
    requires
        tree.contains_key(branch),
        tree[branch].tombstones.contains(rel),
    ensures
        resolve(tree, disk, base, branch, rel, fuel) == Walk::<Option<Seq<char>>>::Done(None),
{
}

/// A delta is what its branch sees: a branch that has a delta for `rel` and
/// no tombstone for it resolves `rel` to that delta.
pub proof fn law_own_delta_wins(
    tree: Map<Seq<char>, BranchView>,
    disk: Map<Seq<char>, FileKind>,
    base: Seq<char>,
    branch: Seq<char>,
    rel: Seq<char>,
    fuel: nat,
)
    requires
        tree.contains_key(branch),
        !tree[branch].tombstones.contains(rel),
        disk.contains_key(join(tree[branch].files_dir, rel)),
    ensures
        resolve(tree, disk, base, branch, rel, fuel) == Walk::Done(
            Some(join(tree[branch].files_dir, rel)),
        ),
{
}

/// A delta is inherited: a branch resolves `rel` to the delta of an ancestor
/// when no branch on the way to that ancestor has a tombstone or a delta of
/// its own for `rel`, and the ancestor has not deleted `rel` itself.
pub proof fn law_delta_inherited(
    tree: Map<Seq<char>, BranchView>,
    disk: Map<Seq<char>, FileKind>,
    base: Seq<char>,
    start: Seq<char>,
    ancestor: Seq<char>,
    rel: Seq<char>,
    steps: nat,
    fuel: nat,
)
    requires
        steps <= fuel,
        clear_way(tree, disk, start, ancestor, rel, steps),
        tree.contains_key(ancestor),
        !tree[ancestor].tombstones.contains(rel),
        disk.contains_key(join(tree[ancestor].files_dir, rel)),
    ensures
        resolve(tree, disk, base, start, rel, fuel) == Walk::Done(
            Some(join(tree[ancestor].files_dir, rel)),
        ),
    decreases steps,
{
    if steps > 0 {
        let p = tree[start].parent->0;
        law_delta_inherited(
            tree,
            disk,
            base,
            p,
            ancestor,
            rel,
            (steps - 1) as nat,
            (fuel - 1) as nat,
        );
    }
}

/// A tombstone is inherited: a branch resolves `rel` to nothing when an
/// ancestor has deleted `rel` and no branch on the way to that ancestor has a
/// tombstone or a delta of its own for `rel`.
pub proof fn law_tombstone_inherited(
    tree: Map<Seq<char>, BranchView>,
    disk: Map<Seq<char>, FileKind>,
    base: Seq<char>,
    start: Seq<char>,
    ancestor: Seq<char>,
    rel: Seq<char>,
    steps: nat,
    fuel: nat,
)
    requires
        steps <= fuel,
        clear_way(tree, disk, start, ancestor, rel, steps),
        tree.contains_key(ancestor),
        tree[ancestor].tombstones.contains(rel),
    ensures
        resolve(tree, disk, base, start, rel, fuel) == Walk::<Option<Seq<char>>>::Done(None),
    decreases steps,
{
    if steps > 0 {
        let p = tree[start].parent->0;
        law_tombstone_inherited(
            tree,
            disk,
            base,
            p,
            ancestor,
            rel,
            (steps - 1) as nat,
            (fuel - 1) as nat,
        );
    }
}

/// A walk that ends with `fuel` steps granted ends alike with more.
pub proof fn lemma_resolve_fuel(
    tree: Map<Seq<char>, BranchView>,
    disk: Map<Seq<char>, FileKind>,
    base: Seq<char>,
    start: Seq<char>,
    rel: Seq<char>,
    fuel: nat,
    more: nat,
)
    requires
        fuel <= more,
        !(resolve(tree, disk, base, start, rel, fuel) is Endless),
    ensures
        resolve(tree, disk, base, start, rel, more) == resolve(tree, disk, base, start, rel, fuel),
    decreases fuel,
{
    if tree.contains_key(start) && !tree[start].tombstones.contains(rel) && !disk.contains_key(
        join(tree[start].files_dir, rel),
    ) {
        if tree[start].parent is Some && fuel > 0 {
            lemma_resolve_fuel(
                tree,
                disk,
                base,
                tree[start].parent->0,
                rel,
                (fuel - 1) as nat,
                (more - 1) as nat,
            );
        }
    }
}

/// Branches that leave do not change what the others see. When `rest` holds
/// some of the branches of `tree`, each as it is there and each with its
/// parent, a branch of `rest` resolves every path in `rest` as in `tree`.
pub proof fn law_resolution_survives_removal(
    tree: Map<Seq<char>, BranchView>,
    rest: Map<Seq<char>, BranchView>,
    disk: Map<Seq<char>, FileKind>,
    base: Seq<char>,
    start: Seq<char>,
    rel: Seq<char>,
    fuel: nat,
)
    requires
        forall|b: Seq<char>| #[trigger]
            rest.contains_key(b) ==> tree.contains_key(b) && rest[b] == tree[b],
        parents_exist(rest),
        rest.contains_key(start),
    ensures
        resolve(rest, disk, base, start, rel, fuel) == resolve(tree, disk, base, start, rel, fuel),
    decreases fuel,
{
    if rest[start].parent is Some && fuel > 0 {
        law_resolution_survives_removal(
            tree,
            rest,
            disk,
            base,
            rest[start].parent->0,
            rel,
            (fuel - 1) as nat,
        );
    }
}

/// What other branches hold does not show in a branch without a parent: two
/// trees that hold such a branch alike resolve every path alike from it.
pub proof fn law_root_resolves_by_itself(
    tree: Map<Seq<char>, BranchView>,
    other: Map<Seq<char>, BranchView>,
    disk: Map<Seq<char>, FileKind>,
    base: Seq<char>,
    root: Seq<char>,
    rel: Seq<char>,
    fuel: nat,
)
    requires
        tree.contains_key(root),
        other.contains_key(root),
        tree[root] == other[root],
        tree[root].parent is None,
    ensures
        resolve(tree, disk, base, root, rel, fuel) == resolve(other, disk, base, root, rel, fuel),
{
}

/// The base shows through: a branch without a parent that has neither
/// deleted `rel` nor a delta for it resolves `rel` to the path below the
/// base directory if something is there, and to nothing if not.
pub proof fn law_base_shows_through(
    tree: Map<Seq<char>, BranchView>,
    disk: Map<Seq<char>, FileKind>,
    base: Seq<char>,
    root: Seq<char>,
    rel: Seq<char>,
    fuel: nat,
)
    requires
        tree.contains_key(root),
        tree[root].parent is None,
        !tree[root].tombstones.contains(rel),
        !disk.contains_key(join(tree[root].files_dir, rel)),
    ensures
        resolve(tree, disk, base, root, rel, fuel) == if disk.contains_key(join(base, rel)) {
            Walk::Done(Some(join(base, rel)))
        } else {
            Walk::<Option<Seq<char>>>::Done(None)
        },
{
}

/// Resolution looks at nothing but its probes: two states of the storage
/// that agree on which of the probes exist resolve `rel` alike.
pub proof fn law_resolve_reads_probes(
    tree: Map<Seq<char>, BranchView>,
    disk: Map<Seq<char>, FileKind>,
    other: Map<Seq<char>, FileKind>,
    base: Seq<char>,
    start: Seq<char>,
    rel: Seq<char>,
    fuel: nat,
)
    requires
        forall|i: int|
            0 <= i < probes(tree, base, start, rel, fuel).len() ==> (disk.contains_key(
                #[trigger] probes(tree, base, start, rel, fuel)[i],
            ) <==> other.contains_key(probes(tree, base, start, rel, fuel)[i])),
    ensures
        resolve(tree, disk, base, start, rel, fuel) == resolve(tree, other, base, start, rel, fuel),
    decreases fuel,
{
    let ps = probes(tree, base, start, rel, fuel);
    if tree.contains_key(start) {
        assert(ps[0] == join(tree[start].files_dir, rel));
        match tree[start].parent {
            None => {
                assert(ps[1] == join(base, rel));
            },
            Some(p) => {
                if fuel > 0 {
                    let sub = probes(tree, base, p, rel, (fuel - 1) as nat);
                    assert forall|i: int| 0 <= i < sub.len() implies (disk.contains_key(
                        #[trigger] sub[i],
                    ) <==> other.contains_key(sub[i])) by {
                        assert(ps[i + 1] == sub[i]);
                    }
                    law_resolve_reads_probes(tree, disk, other, base, p, rel, (fuel - 1) as nat);
                }
            },
        }
    }
}

/// A chain never holds `main`, and `start` is its first member unless it is
/// `main` itself.
pub proof fn lemma_chain_members(tree: Map<Seq<char>, BranchView>, start: Seq<char>, fuel: nat)
    requires
        chain(tree, start, fuel) is Done,
    ensures
        !chain(tree, start, fuel)->Done_0.contains(main_name()),
        forall|i: int|
            0 <= i < chain(tree, start, fuel)->Done_0.len() ==> tree.contains_key(
                #[trigger] chain(tree, start, fuel)->Done_0[i],
            ),
        start != main_name() ==> chain(tree, start, fuel)->Done_0.len() > 0 && chain(
            tree,
            start,
            fuel,
        )->Done_0[0] == start,
    decreases fuel,
{
    if start != main_name() && tree.contains_key(start) {
        match tree[start].parent {
            None => {},
            Some(p) => {
                if fuel > 0 {
                    lemma_chain_members(tree, p, (fuel - 1) as nat);
                    let rest = chain(tree, p, (fuel - 1) as nat)->Done_0;
                    let all = seq![start] + rest;
                    assert forall|i: int| 0 <= i < all.len() implies tree.contains_key(
                        #[trigger] all[i],
                    ) && all[i] != main_name() by {
                        if i > 0 {
                            assert(all[i] == rest[i - 1]);
                            assert(rest.contains(rest[i - 1]));
                        }
                    }
                }
            },
        }
    }
}

/// A chain is linked by parents: each member but the last names the next as
/// its parent, and a chain is no longer than the steps allowed plus one.
pub proof fn lemma_chain_links(tree: Map<Seq<char>, BranchView>, start: Seq<char>, fuel: nat)
    requires
        chain(tree, start, fuel) is Done,
    ensures
        chain(tree, start, fuel)->Done_0.len() <= fuel + 1,
        forall|j: int|
            0 <= j < chain(tree, start, fuel)->Done_0.len() - 1 ==> tree[#[trigger] chain(
                tree,
                start,
                fuel,
            )->Done_0[j]].parent == Some(chain(tree, start, fuel)->Done_0[j + 1]),
        chain(tree, start, fuel)->Done_0.len() > 0 ==> tree[chain(
            tree,
            start,
            fuel,
        )->Done_0.last()].parent is None || tree[chain(tree, start, fuel)->Done_0.last()].parent
            == Some(main_name()),
    decreases fuel,
{
    if start != main_name() && tree.contains_key(start) {
        match tree[start].parent {
            None => {},
            Some(p) => {
                if fuel > 0 {
                    lemma_chain_links(tree, p, (fuel - 1) as nat);
                    lemma_chain_members(tree, p, (fuel - 1) as nat);
                    let rest = chain(tree, p, (fuel - 1) as nat)->Done_0;
                    let all = seq![start] + rest;
                    assert forall|j: int| 0 <= j < all.len() - 1 implies tree[#[trigger] all[j]].parent
                        == Some(all[j + 1]) by {
                        if j == 0 {
                            assert(all[0] == start);
                            assert(all[1] == rest[0]);
                        } else {
                            assert(all[j] == rest[j - 1]);
                            assert(all[j + 1] == rest[j]);
                        }
                    }
                    if rest.len() > 0 {
                        assert(all.last() == rest.last());
                    } else {
                        assert(all.last() == start);
                    }
                }
            },
        }
    }
}

/// Along a chain of parents the way is clear for `rel` from the `j`-th
/// member to the `i`-th when no member from `j` up to `i`, `i` left out, has
/// a tombstone or a delta for `rel`.
pub proof fn lemma_clear_along(
    tree: Map<Seq<char>, BranchView>,
    disk: Map<Seq<char>, FileKind>,
    names: Seq<Seq<char>>,
    rel: Seq<char>,
    j: int,
    i: int,
)
    requires
        0 <= j <= i < names.len(),
        forall|t: int| 0 <= t < names.len() ==> tree.contains_key(#[trigger] names[t]),
        forall|t: int| 0 <= t < names.len() - 1 ==> tree[#[trigger] names[t]].parent == Some(names[t + 1]),
        forall|t: int|
            j <= t < i ==> !tree[#[trigger] names[t]].tombstones.contains(rel) && !disk.contains_key(
                join(tree[names[t]].files_dir, rel),
            ),
    ensures
        clear_way(tree, disk, names[j], names[i], rel, (i - j) as nat),
    decreases i - j,
{
    if j < i {
        lemma_clear_along(tree, disk, names, rel, j + 1, i);
        assert(tree[names[j]].parent == Some(names[j + 1]));
    }
}

/// Whether the branch `name` decides the fate of `rel` by itself: it has
/// deleted the path, or holds a delta for it.
pub open spec fn decides(
    tree: Map<Seq<char>, BranchView>,
    disk: Map<Seq<char>, FileKind>,
    name: Seq<char>,
    rel: Seq<char>,
) -> bool {
    tree[name].tombstones.contains(rel) || disk.contains_key(join(tree[name].files_dir, rel))
}

/// Among the first members of `names`, up to the `i`-th, which decides the
/// fate of `rel`, one is the first to do so.
pub proof fn lemma_first_decider(
    tree: Map<Seq<char>, BranchView>,
    disk: Map<Seq<char>, FileKind>,
    names: Seq<Seq<char>>,
    rel: Seq<char>,
    i: int,
) -> (t: int)
    requires
        0 <= i < names.len(),
        decides(tree, disk, names[i], rel),
    ensures
        0 <= t <= i,
        decides(tree, disk, names[t], rel),
        forall|u: int| 0 <= u < t ==> !decides(tree, disk, #[trigger] names[u], rel),
    decreases i,
{
    if exists|u: int| 0 <= u < i && decides(tree, disk, #[trigger] names[u], rel) {
        let u = choose|u: int| 0 <= u < i && decides(tree, disk, #[trigger] names[u], rel);
        lemma_first_decider(tree, disk, names, rel, u)
    } else {
        i
    }
}

/// Whether the tree is in order: `order` lists its branches, each once, and
/// every branch that has a parent comes after that parent. A tree that is
/// made by creating branches below branches that exist is in order.
pub open spec fn orderly(tree: Map<Seq<char>, BranchView>, order: Seq<Seq<char>>) -> bool {
    &&& order.no_duplicates()
    &&& order.to_set() == tree.dom()
    &&& forall|i: int|
        0 <= i < order.len() ==> (tree[#[trigger] order[i]].parent matches Some(p) ==> exists|
            j: int,
        | 0 <= j < i && order[j] == p)
}

/// `a` comes before `b` in `order`.
pub open spec fn precedes(order: Seq<Seq<char>>, a: Seq<char>, b: Seq<char>) -> bool {
    exists|i: int, j: int| 0 <= i < j < order.len() && order[i] == a && order[j] == b
}

/// `shorter` lists members of `longer` in the order in which `longer` lists
/// them.
pub open spec fn keeps_order(shorter: Seq<Seq<char>>, longer: Seq<Seq<char>>) -> bool {
    forall|i: int, j: int|
        0 <= i < j < shorter.len() ==> precedes(longer, #[trigger] shorter[i], #[trigger] shorter[j])
}

/// A list without repeats keeps its own order.
pub proof fn lemma_keeps_itself(order: Seq<Seq<char>>)
    ensures
        keeps_order(order, order),
{
}

/// A list that loses a member keeps the order of a list whose order it kept.
pub proof fn lemma_keeps_order_without(
    listed: Seq<Seq<char>>,
    order: Seq<Seq<char>>,
    k: int,
)
    requires
        keeps_order(listed, order),
        0 <= k < listed.len(),
    ensures
        keeps_order(listed.remove(k), order),
{
    let shorter = listed.remove(k);
    assert forall|x: int, y: int| 0 <= x < y < shorter.len() implies precedes(
        order,
        #[trigger] shorter[x],
        #[trigger] shorter[y],
    ) by {
        let x0 = if x < k { x } else { x + 1 };
        let y0 = if y < k { y } else { y + 1 };
        assert(shorter[x] == listed[x0]);
        assert(shorter[y] == listed[y0]);
        assert(precedes(order, listed[x0], listed[y0]));
    }
}

/// A tree stays in order when a branch is made below a branch that exists.
pub proof fn lemma_orderly_grows(
    tree: Map<Seq<char>, BranchView>,
    order: Seq<Seq<char>>,
    name: Seq<char>,
    made: BranchView,
)
    requires
        orderly(tree, order),
        !tree.contains_key(name),
        made.parent matches Some(p) ==> tree.contains_key(p),
    ensures
        orderly(tree.insert(name, made), order.push(name)),
{
    let after = tree.insert(name, made);
    let longer = order.push(name);
    crate::text::lemma_push_to_set(order, name);
    assert(!order.contains(name)) by {
        if order.contains(name) {
            assert(order.to_set().contains(name));
        }
    }
    assert(longer.to_set() =~= after.dom());
    assert forall|i: int| 0 <= i < longer.len() implies (
    after[#[trigger] longer[i]].parent matches Some(p) ==> exists|j: int|
        0 <= j < i && longer[j] == p) by {
        if i < order.len() {
            assert(longer[i] == order[i]);
            assert(order.to_set().contains(order[i]));
            if tree[order[i]].parent is Some {
                let p = tree[order[i]].parent->0;
                let j = choose|j: int| 0 <= j < i && order[j] == p;
                assert(longer[j] == p);
            }
        } else {
            if made.parent is Some {
                let p = made.parent->0;
                assert(order.to_set().contains(p));
                let j = choose|j: int| 0 <= j < order.len() && order[j] == p;
                assert(longer[j] == p);
            }
        }
    }
}

/// A tree stays in order when a branch leaves that is the parent of none.
pub proof fn lemma_orderly_shrinks(
    tree: Map<Seq<char>, BranchView>,
    order: Seq<Seq<char>>,
    k: int,
)
    requires
        orderly(tree, order),
        0 <= k < order.len(),
        forall|b: Seq<char>| #[trigger] tree.contains_key(b) ==> tree[b].parent != Some(order[k]),
    ensures
        orderly(tree.remove(order[k]), order.remove(k)),
{
    let gone = order[k];
    let after = tree.remove(gone);
    let shorter = order.remove(k);
    assert forall|a: int, b: int| 0 <= a < shorter.len() && 0 <= b < shorter.len() && a
        != b implies shorter[a] != shorter[b] by {
        let a0 = if a < k { a } else { a + 1 };
        let b0 = if b < k { b } else { b + 1 };
        assert(shorter[a] == order[a0] && shorter[b] == order[b0]);
    }
    assert forall|e: Seq<char>| shorter.to_set().contains(e) <==> after.dom().contains(e) by {
        if shorter.contains(e) {
            let a = choose|a: int| 0 <= a < shorter.len() && shorter[a] == e;
            let a0 = if a < k { a } else { a + 1 };
            assert(order[a0] == e);
            assert(order.to_set().contains(order[a0]));
        }
        if after.dom().contains(e) {
            assert(order.to_set().contains(e));
            let a0 = choose|a0: int| 0 <= a0 < order.len() && order[a0] == e;
            let a = if a0 < k { a0 } else { a0 - 1 };
            assert(shorter[a] == e);
        }
    }
    assert(shorter.to_set() =~= after.dom());
    assert forall|i: int| 0 <= i < shorter.len() implies (
    after[#[trigger] shorter[i]].parent matches Some(p) ==> exists|j: int|
        0 <= j < i && shorter[j] == p) by {
        let i0 = if i < k { i } else { i + 1 };
        assert(shorter[i] == order[i0]);
        assert(order.to_set().contains(order[i0]));
        if tree[order[i0]].parent is Some {
            let p = tree[order[i0]].parent->0;
            let j0 = choose|j0: int| 0 <= j0 < i0 && order[j0] == p;
            assert(j0 != k);
            let j = if j0 < k { j0 } else { j0 - 1 };
            assert(shorter[j] == p);
        }
    }
}

/// A chain that is found with some steps is found, and the same, with more.
pub proof fn lemma_chain_fuel(
    tree: Map<Seq<char>, BranchView>,
    start: Seq<char>,
    fuel: nat,
    more: nat,
)
    requires
        chain(tree, start, fuel) is Done,
        fuel <= more,
    ensures
        chain(tree, start, more) == chain(tree, start, fuel),
    decreases fuel,
{
    if start != main_name() && tree.contains_key(start) {
        match tree[start].parent {
            None => {},
            Some(p) => {
                if fuel > 0 {
                    lemma_chain_fuel(tree, p, (fuel - 1) as nat, (more - 1) as nat);
                }
            },
        }
    }
}

/// The chain of a member of a chain is the rest of that chain.
pub proof fn lemma_chain_suffix(
    tree: Map<Seq<char>, BranchView>,
    start: Seq<char>,
    fuel: nat,
    i: int,
)
    requires
        chain(tree, start, fuel) is Done,
        0 <= i < chain(tree, start, fuel)->Done_0.len(),
    ensures
        chain(tree, chain(tree, start, fuel)->Done_0[i], fuel) == Walk::Done(
            chain(tree, start, fuel)->Done_0.skip(i),
        ),
    decreases i,
{
    let names = chain(tree, start, fuel)->Done_0;
    lemma_chain_members(tree, start, fuel);
    if i == 0 {
        assert(names.skip(0) =~= names);
    } else {
        let p = tree[start].parent->0;
        let rest = chain(tree, p, (fuel - 1) as nat)->Done_0;
        assert(names =~= seq![start] + rest);
        lemma_chain_suffix(tree, p, (fuel - 1) as nat, i - 1);
        lemma_chain_fuel(tree, rest[i - 1], (fuel - 1) as nat, fuel);
        assert(names[i] == rest[i - 1]);
        assert(names.skip(i) =~= rest.skip(i - 1));
    }
}

/// A branch on another line does not hang on the chain of `branch`: when
/// its own chain shares no member with that chain, it is not among the
/// branches that hang on the chain's last member.
pub proof fn law_other_lines_do_not_hang(
    tree: Map<Seq<char>, BranchView>,
    branch: Seq<char>,
    other: Seq<char>,
)
    requires
        chain(tree, branch, tree.dom().len()) is Done,
        chain(tree, branch, tree.dom().len())->Done_0.len() > 0,
        chain(tree, other, tree.dom().len()) matches Walk::Done(others) ==> forall|i: int, j: int|
            0 <= i < others.len() && 0 <= j < chain(tree, branch, tree.dom().len())->Done_0.len()
                ==> others[i] != chain(tree, branch, tree.dom().len())->Done_0[j],
    ensures
        !hanging_on(tree, top_of(tree, branch)).contains(other),
{
    let names = chain(tree, branch, tree.dom().len())->Done_0;
    let top = top_of(tree, branch);
    if hangs_on(tree, other, top) {
        let others = chain(tree, other, tree.dom().len())->Done_0;
        let i = choose|i: int| 0 <= i < others.len() && others[i] == top;
        assert(names[names.len() - 1] == top);
    }
}

/// Every member of a chain hangs on the chain's last member.
pub proof fn lemma_chain_hangs_on_top(tree: Map<Seq<char>, BranchView>, start: Seq<char>)
    requires
        chain(tree, start, tree.dom().len()) is Done,
        chain(tree, start, tree.dom().len())->Done_0.len() > 0,
    ensures
        forall|i: int|
            0 <= i < chain(tree, start, tree.dom().len())->Done_0.len() ==> hanging_on(
                tree,
                top_of(tree, start),
            ).contains(#[trigger] chain(tree, start, tree.dom().len())->Done_0[i]),
{
    let fuel = tree.dom().len();
    let names = chain(tree, start, fuel)->Done_0;
    let top = names.last();
    lemma_chain_members(tree, start, fuel);
    assert forall|i: int| 0 <= i < names.len() implies hanging_on(tree, top).contains(
        #[trigger] names[i],
    ) by {
        lemma_chain_suffix(tree, start, fuel, i);
        let rest = names.skip(i);
        assert(rest[rest.len() - 1] == top);
        assert(rest.contains(top));
        assert(hangs_on(tree, names[i], top));
    }
}

/// Whether `x` hangs on `top`: the chain of `x` passes through `top`, so
/// that `x` is `top` or descends from it.
pub open spec fn hangs_on(tree: Map<Seq<char>, BranchView>, x: Seq<char>, top: Seq<char>) -> bool {
    chain(tree, x, tree.dom().len()) matches Walk::Done(names) && names.contains(top)
}

/// The branches that hang on `top`.
pub open spec fn hanging_on(tree: Map<Seq<char>, BranchView>, top: Seq<char>) -> Set<Seq<char>> {
    Set::new(|x: Seq<char>| tree.contains_key(x) && hangs_on(tree, x, top))
}

/// The branch of the chain of `branch` that is nearest to `main`.
pub open spec fn top_of(tree: Map<Seq<char>, BranchView>, branch: Seq<char>) -> Seq<char> {
    chain(tree, branch, tree.dom().len())->Done_0.last()
}

/// In a tree in order a branch hangs on `top` when it is `top` or its parent
/// hangs on `top`, and only then.
pub proof fn lemma_hangs_on_step(
    tree: Map<Seq<char>, BranchView>,
    order: Seq<Seq<char>>,
    top: Seq<char>,
    x: Seq<char>,
)
    requires
        orderly(tree, order),
        tree.contains_key(x),
    ensures
        hangs_on(tree, x, top) <==> x != main_name() && (x == top || (tree[x].parent matches Some(
            p,
        ) && hangs_on(tree, p, top))),
{
    order.unique_seq_to_set();
    let full = tree.dom().len();
    assert(full == order.len());
    assert(order.to_set().contains(x));
    let i = choose|i: int| 0 <= i < order.len() && order[i] == x;
    if x != main_name() {
        match tree[x].parent {
            None => {
                assert(seq![x][0] == x);
            },
            Some(p) => {
                let j = choose|j: int| 0 <= j < i && order[j] == p;
                law_orderly_walks_end(
                    tree,
                    order,
                    Map::empty(),
                    Seq::empty(),
                    Seq::empty(),
                    j,
                    (full - 1) as nat,
                );
                lemma_chain_fuel(tree, p, (full - 1) as nat, full);
                let rest = chain(tree, p, full)->Done_0;
                let all = seq![x] + rest;
                assert(chain(tree, x, full) == Walk::Done(all));
                if all.contains(top) {
                    let k = choose|k: int| 0 <= k < all.len() && all[k] == top;
                    if k > 0 {
                        assert(rest[k - 1] == top);
                    }
                }
                if rest.contains(top) {
                    let k = choose|k: int| 0 <= k < rest.len() && rest[k] == top;
                    assert(all[k + 1] == top);
                }
                if x == top {
                    assert(all[0] == top);
                }
            },
        }
    }
}

/// The set of the members of `s` from the `t`-th on is the set of those
/// after the `t`-th with the `t`-th added.
pub proof fn lemma_skip_one_less(s: Seq<Seq<char>>, t: int)
    requires
        0 <= t < s.len(),
    ensures
        s.skip(t).to_set() == s.skip(t + 1).to_set().insert(s[t]),
{
    let a = s.skip(t);
    let b = s.skip(t + 1);
    assert forall|e: Seq<char>| a.to_set().contains(e) <==> b.to_set().insert(s[t]).contains(e) by {
        if a.contains(e) {
            let j = choose|j: int| 0 <= j < a.len() && a[j] == e;
            if j > 0 {
                assert(b[j - 1] == e);
            }
        }
        if b.contains(e) {
            let j = choose|j: int| 0 <= j < b.len() && b[j] == e;
            assert(a[j + 1] == e);
        }
        if e == s[t] {
            assert(a[0] == e);
        }
    }
    assert(a.to_set() =~= b.to_set().insert(s[t]));
}

/// What is known of the branches found to hang on `top`: `victims` lists
/// them in the order of the tree, and `at` says where each stands there.
pub open spec fn lists_hanging(
    tree: Map<Seq<char>, BranchView>,
    order: Seq<Seq<char>>,
    top: Seq<char>,
    victims: Seq<Seq<char>>,
    at: Seq<int>,
    upto: int,
) -> bool {
    &&& victims.len() == at.len()
    &&& forall|t: int|
        0 <= t < at.len() ==> 0 <= #[trigger] at[t] < upto && victims[t] == order[at[t]]
            && hangs_on(tree, order[at[t]], top)
    &&& forall|a: int, b: int| 0 <= a < b < at.len() ==> at[a] < at[b]
    &&& forall|j: int|
        0 <= j < upto && hangs_on(tree, #[trigger] order[j], top) ==> exists|t: int|
            0 <= t < at.len() && at[t] == j
}

/// What the next branch of the order adds to the list of those that hang on
/// `top`: it hangs when it is `top` or its parent is listed.
pub proof fn lemma_hanging_next(
    tree: Map<Seq<char>, BranchView>,
    order: Seq<Seq<char>>,
    top: Seq<char>,
    victims: Seq<Seq<char>>,
    at: Seq<int>,
    i: int,
)
    requires
        orderly(tree, order),
        top != main_name(),
        tree.contains_key(main_name()) ==> tree[main_name()].parent is None,
        0 <= i < order.len(),
        lists_hanging(tree, order, top, victims, at, i),
    ensures
        hangs_on(tree, order[i], top) <==> order[i] == top || (tree[order[i]].parent matches Some(
            p,
        ) && victims.contains(p)),
        hangs_on(tree, order[i], top) ==> lists_hanging(
            tree,
            order,
            top,
            victims.push(order[i]),
            at.push(i),
            i + 1,
        ),
        !hangs_on(tree, order[i], top) ==> lists_hanging(tree, order, top, victims, at, i + 1),
{
    let x = order[i];
    assert(order.to_set().contains(x));
    lemma_hangs_on_step(tree, order, top, x);
    if tree[x].parent is Some {
        let p = tree[x].parent->0;
        let j = choose|j: int| 0 <= j < i && order[j] == p;
        if hangs_on(tree, p, top) {
            let t = choose|t: int| 0 <= t < at.len() && at[t] == j;
            assert(victims[t] == p);
        }
        if victims.contains(p) {
            let t = choose|t: int| 0 <= t < victims.len() && victims[t] == p;
            assert(victims[t] == order[at[t]]);
        }
    }
    if hangs_on(tree, x, top) {
        let vs = victims.push(x);
        let ps = at.push(i);
        assert forall|t: int| 0 <= t < ps.len() implies 0 <= #[trigger] ps[t] < i + 1 && vs[t]
            == order[ps[t]] && hangs_on(tree, order[ps[t]], top) by {
            if t < at.len() {
                assert(ps[t] == at[t]);
            }
        }
        assert forall|a: int, b: int| 0 <= a < b < ps.len() implies ps[a] < ps[b] by {
            if b < at.len() {
                assert(at[a] < at[b]);
            } else {
                assert(ps[a] == at[a]);
            }
        }
        assert forall|j: int|
            0 <= j < i + 1 && hangs_on(tree, #[trigger] order[j], top) implies exists|t: int|
            0 <= t < ps.len() && ps[t] == j by {
            if j < i {
                let t = choose|t: int| 0 <= t < at.len() && at[t] == j;
                assert(ps[t] == j);
            } else {
                assert(ps[at.len() as int] == j);
            }
        }
    } else {
        assert forall|j: int|
            0 <= j < i + 1 && hangs_on(tree, #[trigger] order[j], top) implies exists|t: int|
            0 <= t < at.len() && at[t] == j by {
            let t = choose|t: int| 0 <= t < at.len() && at[t] == j;
        }
        assert forall|t: int| 0 <= t < at.len() implies 0 <= #[trigger] at[t] < i + 1 by {}
    }
}

/// A complete list of the branches that hang on `top` names each once, and
/// names exactly those.
pub proof fn lemma_hanging_all(
    tree: Map<Seq<char>, BranchView>,
    order: Seq<Seq<char>>,
    top: Seq<char>,
    victims: Seq<Seq<char>>,
    at: Seq<int>,
)
    requires
        orderly(tree, order),
        lists_hanging(tree, order, top, victims, at, order.len() as int),
    ensures
        victims.no_duplicates(),
        victims.to_set() == hanging_on(tree, top),
{
    assert forall|a: int, b: int| 0 <= a < victims.len() && 0 <= b < victims.len() && a
        != b implies victims[a] != victims[b] by {
        if a < b {
            assert(at[a] < at[b]);
        } else {
            assert(at[b] < at[a]);
        }
    }
    assert forall|k: Seq<char>| victims.to_set().contains(k) <==> hanging_on(tree, top).contains(
        k,
    ) by {
        if victims.contains(k) {
            let t = choose|t: int| 0 <= t < victims.len() && victims[t] == k;
            assert(order.to_set().contains(order[at[t]]));
        }
        if hanging_on(tree, top).contains(k) {
            assert(order.to_set().contains(k));
            let j = choose|j: int| 0 <= j < order.len() && order[j] == k;
            let t = choose|t: int| 0 <= t < at.len() && at[t] == j;
            assert(victims[t] == k);
        }
    }
    assert(victims.to_set() =~= hanging_on(tree, top));
}

/// The tree that holds `main` alone is in order.
pub proof fn lemma_orderly_main(tree: Map<Seq<char>, BranchView>, order: Seq<Seq<char>>)
    requires
        order == seq![main_name()],
        tree.dom() == Set::<Seq<char>>::empty().insert(main_name()),
        tree[main_name()].parent is None,
    ensures
        orderly(tree, order),
{
    assert forall|k: Seq<char>| order.to_set().contains(k) <==> tree.dom().contains(k) by {
        if order.contains(k) {
            let i = choose|i: int| 0 <= i < order.len() && order[i] == k;
        }
        if k == main_name() {
            assert(order[0] == k);
        }
    }
    assert(order.to_set() =~= tree.dom());
}

/// Whether no branch of `tree` names `name` as its parent.
pub open spec fn childless(tree: Map<Seq<char>, BranchView>, name: Seq<char>) -> bool {
    forall|b: Seq<char>| #[trigger] tree.contains_key(b) ==> tree[b].parent != Some(name)
}

/// When the branches that hang on `top` leave the tree last first, the one
/// that leaves is the parent of none that is still there.
pub proof fn lemma_victim_is_leaf(
    tree: Map<Seq<char>, BranchView>,
    order: Seq<Seq<char>>,
    top: Seq<char>,
    victims: Seq<Seq<char>>,
    at: Seq<int>,
    t: int,
    now: Map<Seq<char>, BranchView>,
)
    requires
        orderly(tree, order),
        lists_hanging(tree, order, top, victims, at, order.len() as int),
        0 <= t < victims.len(),
        now == tree.remove_keys(victims.skip(t + 1).to_set()),
        tree.contains_key(main_name()) ==> tree[main_name()].parent is None,
    ensures
        now.contains_key(victims[t]),
        forall|b: Seq<char>| #[trigger] now.contains_key(b) ==> now[b].parent != Some(victims[t]),
{
    let v = victims[t];
    let later = victims.skip(t + 1);
    assert(order.to_set().contains(order[at[t]]));
    assert(!later.contains(v)) by {
        if later.contains(v) {
            let u = choose|u: int| 0 <= u < later.len() && later[u] == v;
            assert(victims[t + 1 + u] == v);
            assert(at[t] < at[t + 1 + u]);
        }
    }
    assert forall|b: Seq<char>| #[trigger] now.contains_key(b) implies now[b].parent != Some(
        v,
    ) by {
        if now[b].parent == Some(v) {
            assert(tree.contains_key(b) && tree[b] == now[b]);
            lemma_hangs_on_step(tree, order, top, b);
            lemma_hangs_on_step(tree, order, top, v);
            assert(order.to_set().contains(b));
            let jb = choose|jb: int| 0 <= jb < order.len() && order[jb] == b;
            let jp = choose|jp: int| 0 <= jp < jb && order[jp] == v;
            assert(jp == at[t]);
            assert(hangs_on(tree, v, top));
            assert(hangs_on(tree, order[jb], top));
            let u = choose|u: int| 0 <= u < at.len() && at[u] == jb;
            assert(u > t) by {
                if u <= t {
                    if u < t {
                        assert(at[u] < at[t]);
                    }
                }
            }
            assert(later[u - t - 1] == b);
            assert(later.to_set().contains(b));
        }
    }
}

/// In a tree that is in order every parent exists.
pub proof fn law_orderly_parents_exist(tree: Map<Seq<char>, BranchView>, order: Seq<Seq<char>>)
    requires
        orderly(tree, order),
    ensures
        parents_exist(tree),
{
    assert forall|b: Seq<char>| #[trigger] tree.contains_key(b) implies (
    tree[b].parent matches Some(p) ==> tree.contains_key(p)) by {
        assert(order.to_set().contains(b));
        let i = choose|i: int| 0 <= i < order.len() && order[i] == b;
        if tree[order[i]].parent is Some {
            let p = tree[order[i]].parent->0;
            let j = choose|j: int| 0 <= j < i && order[j] == p;
            assert(order.to_set().contains(order[j]));
        }
    }
}

/// In a tree that is in order every walk ends: the chain of a branch is
/// found, and every path resolves, to a storage path or to nothing, when as
/// many steps are granted as the tree has branches.
pub proof fn law_orderly_walks_end(
    tree: Map<Seq<char>, BranchView>,
    order: Seq<Seq<char>>,
    disk: Map<Seq<char>, FileKind>,
    base: Seq<char>,
    rel: Seq<char>,
    i: int,
    fuel: nat,
)
    requires
        orderly(tree, order),
        0 <= i < order.len(),
        i <= fuel,
    ensures
        chain(tree, order[i], fuel) is Done,
        resolve(tree, disk, base, order[i], rel, fuel) is Done,
    decreases i,
{
    let b = order[i];
    assert(order.to_set().contains(b));
    if tree[b].parent is Some {
        let p = tree[b].parent->0;
        let j = choose|j: int| 0 <= j < i && order[j] == p;
        law_orderly_walks_end(tree, order, disk, base, rel, j, (fuel - 1) as nat);
    }
}

/// Two prefixes put before a walk one after the other are their
/// concatenation put before it.
pub proof fn lemma_prepend_twice(
    a: Seq<Seq<char>>,
    b: Seq<Seq<char>>,
    walk: Walk<Seq<Seq<char>>>,
)
    ensures
        prepend(a, prepend(b, walk)) == prepend(a + b, walk),
{
    match walk {
        Walk::Done(rest) => {
            assert(a + (b + rest) =~= (a + b) + rest);
        },
        _ => {},
    }
}

} // verus!
