//! The inode table of one mount: a two-way mapping between virtual paths and
//! inode numbers.
//!
//! Regular inode numbers are handed out densely from 2 upwards (1 is the
//! filesystem root) and are never handed out again, not even after the path
//! they named has been removed or the table has been cleared.

use vstd::prelude::*;
use crate::table::StrMap;

verus! {

/// Inode number of the filesystem root.
pub const ROOT_INO: u64 = 1;

/// Regular inode numbers stay below this bound. The numbers from here up are
/// left to the synthetic control files.
pub const DENSE_END: u64 = 0x8000_0000_0000_0000;

/// What the table records for one inode.
#[derive(Debug, Clone)]
pub struct InodeInfo {
    pub ino: u64,
    pub path: String,
    pub is_dir: bool,
}

/// What the table records under one path.
#[derive(Clone, Copy, Debug, PartialEq, Eq, Structural)]
pub struct InodeSlot {
    pub ino: u64,
    pub is_dir: bool,
}

/// The table as a mathematical value: the next number to hand out, and the
/// slot recorded under each path.
pub struct InodeState {
    pub next: u64,
    pub entries: Map<Seq<char>, InodeSlot>,
}

/// One change to the table.
pub enum InodeOp {
    /// `get_or_create(path, is_dir)`
    Create(Seq<char>, bool),
    /// `remove(path)`
    Remove(Seq<char>),
    /// `clear_prefix(prefix)`
    ClearPrefix(Seq<char>),
    /// `clear()`
    Clear,
}

impl InodeState {
    /// The table of a fresh mount: only the root.
    pub open spec fn initial() -> InodeState {
        InodeState {
            next: 2,
            entries: Map::<Seq<char>, InodeSlot>::empty().insert(
                seq!['/'],
                InodeSlot { ino: ROOT_INO, is_dir: true },
            ),
        }
    }

    /// Numbers in the table are below `next` and name one path each.
    pub open spec fn wf(self) -> bool {
        &&& 2 <= self.next <= DENSE_END
        &&& forall|p: Seq<char>| #[trigger]
            self.entries.contains_key(p) ==> 1 <= self.entries[p].ino < self.next
        &&& forall|p: Seq<char>, q: Seq<char>|
            #![trigger self.entries[p], self.entries[q]]
            self.entries.contains_key(p) && self.entries.contains_key(q) && self.entries[p].ino
                == self.entries[q].ino ==> p == q
    }

    /// Whether some path is recorded under number `ino`.
    pub open spec fn has_ino(self, ino: u64) -> bool {
        exists|p: Seq<char>| #[trigger] self.entries.contains_key(p) && self.entries[p].ino == ino
    }

    /// The path recorded under number `ino`.
    pub open spec fn path_of(self, ino: u64) -> Seq<char>
        recommends
            self.has_ino(ino),
    {
        choose|p: Seq<char>| #[trigger] self.entries.contains_key(p) && self.entries[p].ino == ino
    }

    /// Whether a number is left for a new path.
    pub open spec fn has_room(self) -> bool {
        self.next < DENSE_END
    }

    /// The number that `get_or_create` returns for `path`.
    pub open spec fn ino_for(self, path: Seq<char>) -> u64 {
        if self.entries.contains_key(path) {
            self.entries[path].ino
        } else {
            self.next
        }
    }

    /// The table after `get_or_create(path, is_dir)`.
    pub open spec fn create(self, path: Seq<char>, is_dir: bool) -> InodeState {
        if self.entries.contains_key(path) {
            self
        } else {
            InodeState {
                next: (self.next + 1) as u64,
                entries: self.entries.insert(path, InodeSlot { ino: self.next, is_dir }),
            }
        }
    }

    /// The table after `remove(path)`.
    pub open spec fn remove(self, path: Seq<char>) -> InodeState {
        InodeState { next: self.next, entries: self.entries.remove(path) }
    }

    /// The table after `clear_prefix(prefix)`.
    pub open spec fn clear_prefix(self, prefix: Seq<char>) -> InodeState {
        InodeState {
            next: self.next,
            entries: Map::new(
                |p: Seq<char>| self.entries.contains_key(p) && !prefix.is_prefix_of(p),
                |p: Seq<char>| self.entries[p],
            ),
        }
    }

    /// The table after `clear()`.
    pub open spec fn clear(self) -> InodeState {
        InodeState { next: self.next, entries: InodeState::initial().entries }
    }

    /// The table after one change.
    pub open spec fn apply(self, op: InodeOp) -> InodeState {
        match op {
            InodeOp::Create(path, is_dir) => self.create(path, is_dir),
            InodeOp::Remove(path) => self.remove(path),
            InodeOp::ClearPrefix(prefix) => self.clear_prefix(prefix),
            InodeOp::Clear => self.clear(),
        }
    }

    /// The number that a change hands out, if it hands one out.
    pub open spec fn allocated(self, op: InodeOp) -> Option<u64> {
        match op {
            InodeOp::Create(path, _) => if self.entries.contains_key(path) {
                None
            } else {
                Some(self.next)
            },
            _ => None,
        }
    }

    /// Whether a change can be made: a new path needs a free number.
    pub open spec fn admits(self, op: InodeOp) -> bool {
        match op {
            InodeOp::Create(path, _) => self.entries.contains_key(path) || self.has_room(),
            _ => true,
        }
    }

    /// The table after the first `n` changes of `ops`.
    pub open spec fn run(self, ops: Seq<InodeOp>, n: nat) -> InodeState
        decreases n,
    {
        if n == 0 {
            self
        } else {
            self.run(ops, (n - 1) as nat).apply(ops[n - 1])
        }
    }

    /// Every change that the table admits keeps it well formed and never
    /// lowers the next number.
    pub proof fn lemma_apply(self, op: InodeOp)
        requires
            self.wf(),
            self.admits(op),
        ensures
            self.apply(op).wf(),
            self.apply(op).next >= self.next,
            self.allocated(op) is Some ==> self.apply(op).next > self.next,
    {
        let after = self.apply(op);
        match op {
            InodeOp::Create(path, is_dir) => {
                if !self.entries.contains_key(path) {
                    assert forall|p: Seq<char>, q: Seq<char>|
                        #![trigger after.entries[p], after.entries[q]]
                        after.entries.contains_key(p) && after.entries.contains_key(q)
                            && after.entries[p].ino == after.entries[q].ino implies p == q by {
                        if p != path && q != path {
                            assert(self.entries.contains_key(p));
                            assert(self.entries.contains_key(q));
                        } else if p != path {
                            assert(self.entries.contains_key(p));
                        } else if q != path {
                            assert(self.entries.contains_key(q));
                        }
                    }
                }
            },
            InodeOp::Remove(path) => {},
            InodeOp::ClearPrefix(prefix) => {},
            InodeOp::Clear => {},
        }
    }

    /// Along any admitted sequence of changes the next number only grows.
    pub proof fn lemma_run(self, ops: Seq<InodeOp>, i: nat, j: nat)
        requires
            self.wf(),
            i <= j <= ops.len(),
            forall|k: nat| k < j ==> #[trigger] self.run(ops, k).admits(ops[k as int]),
        ensures
            self.run(ops, i).wf(),
            self.run(ops, j).wf(),
            self.run(ops, i).next <= self.run(ops, j).next,
        decreases j,
    {
        if j == 0 {
        } else if i == j {
            self.lemma_run(ops, (j - 1) as nat, (j - 1) as nat);
            self.run(ops, (j - 1) as nat).lemma_apply(ops[j - 1]);
        } else {
            self.lemma_run(ops, i, (j - 1) as nat);
            assert(self.run(ops, (j - 1) as nat).admits(ops[j - 1]));
            self.run(ops, (j - 1) as nat).lemma_apply(ops[j - 1]);
        }
    }

    /// No inode number is handed out twice. Whatever changes are made to a
    /// table, in whatever order, two of them that each hand out a number hand
    /// out different numbers: the later one is the larger.
    pub proof fn law_numbers_never_repeat(self, ops: Seq<InodeOp>, i: nat, j: nat)
        requires
            self.wf(),
            i < j < ops.len(),
            forall|k: nat| k < ops.len() ==> #[trigger] self.run(ops, k).admits(ops[k as int]),
            self.run(ops, i).allocated(ops[i as int]) is Some,
            self.run(ops, j).allocated(ops[j as int]) is Some,
        ensures
            self.run(ops, i).allocated(ops[i as int])->0 < self.run(ops, j).allocated(
                ops[j as int],
            )->0,
    {
        self.lemma_run(ops, i, i);
        assert(self.run(ops, i).admits(ops[i as int]));
        self.run(ops, i).lemma_apply(ops[i as int]);
        assert(self.run(ops, i + 1) == self.run(ops, i).apply(ops[i as int]));
        self.lemma_run(ops, i + 1, j);
    }

    /// A number that is handed out names no path of the table it is handed
    /// out from.
    pub proof fn law_new_number_is_unused(self, path: Seq<char>)
        requires
            self.wf(),
            !self.entries.contains_key(path),
        ensures
            !self.has_ino(self.ino_for(path)),
    {
    }
}

/// The inode table of one mount.
pub struct InodeManager {
    next_ino: u64,
    table: StrMap<InodeSlot>,
}

impl View for InodeManager {
    type V = InodeState;

    closed spec fn view(&self) -> InodeState {
        InodeState { next: self.next_ino, entries: self.table@ }
    }
}

impl InodeManager {
    /// The table is well formed.
    pub closed spec fn wf(&self) -> bool {
        &&& self.table.wf()
        &&& self@.wf()
    }

    /// A well-formed table stands for a well-formed state: the laws of
    /// `InodeState` hold of what the table holds.
    pub proof fn lemma_state_wf(&self)
        requires
            self.wf(),
        ensures
            self@.wf(),
    {
    }

    /// The table of a fresh mount: only the root.
    pub fn new() -> (m: Self)
        ensures
            m.wf(),
            m@ == InodeState::initial(),
    {
        let mut table: StrMap<InodeSlot> = StrMap::new();
        proof {
            reveal_strlit("/");
            assert("/"@ =~= seq!['/']);
        }
        table.insert("/".to_owned(), InodeSlot { ino: ROOT_INO, is_dir: true });
        InodeManager { next_ino: ROOT_INO + 1, table }
    }

    /// Whether a number is left for a new path.
    pub fn has_room(&self) -> (r: bool)
        ensures
            r == self@.has_room(),
    {
        self.next_ino < DENSE_END
    }

    /// The inode number of `path`; a path not yet in the table gets the next
    /// free number, which is above every number in the table.
    pub fn get_or_create(&mut self, path: &str, is_dir: bool) -> (ino: u64)
        requires
            old(self).wf(),
            old(self)@.entries.contains_key(path@) || old(self)@.has_room(),
        ensures
            final(self).wf(),
            ino == old(self)@.ino_for(path@),
            final(self)@ == old(self)@.create(path@, is_dir),
            final(self)@.entries.contains_key(path@) && final(self)@.entries[path@].ino == ino,
            !old(self)@.entries.contains_key(path@) ==> 2 <= ino < DENSE_END && forall|
                p: Seq<char>,
            | #[trigger]
                old(self)@.entries.contains_key(p) ==> old(self)@.entries[p].ino < ino,
    {
        match self.table.get(path) {
            Some(slot) => {
                return slot.ino;
            },
            None => {},
        }
        let ino = self.next_ino;
        proof {
            self@.lemma_apply(InodeOp::Create(path@, is_dir));
        }
        self.table.insert(path.to_owned(), InodeSlot { ino, is_dir });
        self.next_ino = ino + 1;
        ino
    }

    /// Position of the entry numbered `ino`.
    fn find_ino(&self, ino: u64) -> (r: Option<usize>)
        requires
            self.wf(),
        ensures
            match r {
                Some(i) => i < self.table.size() && self.table.val_at(i as int).ino == ino
                    && self@.has_ino(ino) && self@.path_of(ino) == self.table.key_at(i as int)
                    && self@.entries[self@.path_of(ino)] == self.table.val_at(i as int),
                None => !self@.has_ino(ino),
            },
    {
        let mut i: usize = 0;
        proof {
            self.table.lemma_entries();
        }
        while i < self.table.len()
            invariant
                self.wf(),
                i <= self.table.size(),
                forall|j: int| 0 <= j < i ==> self.table.val_at(j).ino != ino,
            decreases self.table.size() - i,
        {
            if self.table.val(i).ino == ino {
                proof {
                    self.table.lemma_entries();
                    let k = self.table.key_at(i as int);
                    assert(self@.entries.contains_key(k) && self@.entries[k].ino == ino);
                    let p = self@.path_of(ino);
                    assert(self@.entries.contains_key(p) && self@.entries[p].ino == ino);
                    assert(self@.entries[p].ino == self@.entries[k].ino);
                }
                return Some(i);
            }
            i += 1;
        }
        proof {
            self.table.lemma_entries();
            if self@.has_ino(ino) {
                let p = self@.path_of(ino);
                assert(self@.entries.contains_key(p) && self@.entries[p].ino == ino);
                let j = self.table.slot(p);
                assert(self.table.val_at(j).ino == ino);
            }
        }
        None
    }

    /// The path recorded under `ino`.
    pub fn get_path(&self, ino: u64) -> (r: Option<String>)
        requires
            self.wf(),
        ensures
            match r {
                Some(p) => self@.has_ino(ino) && p@ == self@.path_of(ino),
                None => !self@.has_ino(ino),
            },
    {
        match self.find_ino(ino) {
            Some(i) => Some(self.table.key(i).clone()),
            None => None,
        }
    }

    /// The number recorded for `path`.
    pub fn get_ino(&self, path: &str) -> (r: Option<u64>)
        requires
            self.wf(),
        ensures
            match r {
                Some(ino) => self@.entries.contains_key(path@) && ino == self@.entries[path@].ino,
                None => !self@.entries.contains_key(path@),
            },
    {
        match self.table.get(path) {
            Some(slot) => Some(slot.ino),
            None => None,
        }
    }

    /// The whole record of `ino`.
    pub fn get_info(&self, ino: u64) -> (r: Option<InodeInfo>)
        requires
            self.wf(),
        ensures
            match r {
                Some(info) => self@.has_ino(ino) && info.ino == ino && info.path@ == self@.path_of(
                    ino,
                ) && info.is_dir == self@.entries[self@.path_of(ino)].is_dir,
                None => !self@.has_ino(ino),
            },
    {
        match self.find_ino(ino) {
            Some(i) => {
                let slot = self.table.val(i);
                Some(InodeInfo { ino, path: self.table.key(i).clone(), is_dir: slot.is_dir })
            },
            None => None,
        }
    }

    /// Forgets `path` and its number; the number is not handed out again.
    pub fn remove(&mut self, path: &str)
        requires
            old(self).wf(),
        ensures
            final(self).wf(),
            final(self)@ == old(self)@.remove(path@),
    {
        proof {
            self@.lemma_apply(InodeOp::Remove(path@));
        }
        let _gone = self.table.remove(path);
    }

    /// The numbers of all entries, each once.
    pub fn all_inos(&self) -> (r: Vec<u64>)
        requires
            self.wf(),
        ensures
            r@.no_duplicates(),
            forall|ino: u64| r@.contains(ino) <==> self@.has_ino(ino),
    {
        let mut out: Vec<u64> = Vec::new();
        let mut i: usize = 0;
        proof {
            self.table.lemma_entries();
        }
        while i < self.table.len()
            invariant
                self.wf(),
                i <= self.table.size(),
                out@.len() == i,
                forall|j: int| 0 <= j < i ==> out@[j] == self.table.val_at(j).ino,
            decreases self.table.size() - i,
        {
            out.push(self.table.val(i).ino);
            i += 1;
        }
        proof {
            self.table.lemma_entries();
            assert forall|a: int, b: int| 0 <= a < out@.len() && 0 <= b < out@.len() && a
                != b implies out@[a] != out@[b] by {
                let p = self.table.key_at(a);
                let q = self.table.key_at(b);
                assert(self@.entries.contains_key(p) && self@.entries.contains_key(q));
                assert(self@.entries[p] == self.table.val_at(a));
                assert(self@.entries[q] == self.table.val_at(b));
            }
            assert forall|ino: u64| out@.contains(ino) <==> self@.has_ino(ino) by {
                if out@.contains(ino) {
                    let j = choose|j: int| 0 <= j < out@.len() && out@[j] == ino;
                    let p = self.table.key_at(j);
                    assert(0 <= j < self.table.size());
                    assert(out@[j] == ino);
                    assert(self.table@.contains_key(p));
                    assert(self.table@[p] == self.table.val_at(j));
                    assert(self@.entries.contains_key(p) && self@.entries[p].ino == ino);
                }
                if self@.has_ino(ino) {
                    let p = self@.path_of(ino);
                    assert(self@.entries.contains_key(p) && self@.entries[p].ino == ino);
                    let j = self.table.slot(p);
                    assert(out@[j] == ino);
                }
            }
        }
        out
    }

    /// Forgets every path that begins with `prefix`.
    pub fn clear_prefix(&mut self, prefix: &str)
        requires
            old(self).wf(),
        ensures
            final(self).wf(),
            final(self)@ == old(self)@.clear_prefix(prefix@),
    {
        let pre = crate::text::str_chars(prefix);
        let mut kept: StrMap<InodeSlot> = StrMap::new();
        let mut i: usize = 0;
        proof {
            self.table.lemma_entries();
        }
        while i < self.table.len()
            invariant
                self.wf(),
                kept.wf(),
                pre@ == prefix@,
                i <= self.table.size(),
                forall|k: Seq<char>| #[trigger]
                    kept@.contains_key(k) <==> self.table@.contains_key(k) && self.table.slot(k) < i
                        && !prefix@.is_prefix_of(k),
                forall|k: Seq<char>| #[trigger]
                    kept@.contains_key(k) ==> kept@[k] == self.table@[k],
            decreases self.table.size() - i,
        {
            proof {
                self.table.lemma_entries();
            }
            let key = self.table.key(i);
            let chars = crate::text::str_chars(key.as_str());
            let ghost before = kept@;
            if !crate::text::chars_start_with(&chars, &pre) {
                kept.insert(key.clone(), *self.table.val(i));
            }
            proof {
                let here = self.table.key_at(i as int);
                assert(self.table@.contains_key(here) && self.table.slot(here) == i
                    && self.table@[here] == self.table.val_at(i as int));
                assert forall|k: Seq<char>| #[trigger]
                    kept@.contains_key(k) <==> self.table@.contains_key(k) && self.table.slot(k)
                        < i + 1 && !prefix@.is_prefix_of(k) by {
                    if k != here && self.table@.contains_key(k) {
                        assert(self.table.key_at(self.table.slot(k)) == k);
                        assert(before.contains_key(k) <==> kept@.contains_key(k));
                    }
                }
                assert forall|k: Seq<char>| #[trigger] kept@.contains_key(k) implies kept@[k]
                    == self.table@[k] by {
                    if k != here {
                        assert(before.contains_key(k));
                    }
                }
            }
            i += 1;
        }
        proof {
            self.table.lemma_entries();
            self@.lemma_apply(InodeOp::ClearPrefix(prefix@));
            assert(kept@ =~= self@.clear_prefix(prefix@).entries);
        }
        self.table = kept;
    }

    /// Forgets every path but the root. Numbers handed out before are not
    /// handed out again.
    pub fn clear(&mut self)
        requires
            old(self).wf(),
        ensures
            final(self).wf(),
            final(self)@ == old(self)@.clear(),
    {
        proof {
            reveal_strlit("/");
            assert("/"@ =~= seq!['/']);
            self@.lemma_apply(InodeOp::Clear);
        }
        self.table.clear();
        self.table.insert("/".to_owned(), InodeSlot { ino: ROOT_INO, is_dir: true });
    }
}

impl Default for InodeManager {
    fn default() -> (m: Self)
        ensures
            m.wf(),
            m@ == InodeState::initial(),
    {
        InodeManager::new()
    }
}

} // verus!
