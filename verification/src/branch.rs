//! One branch: its name, its parent, where its files live, and the set of
//! virtual paths it has deleted.
//!
//! A deleted path is recorded as a tombstone. Tombstones are only added while
//! the branch lives; each new one is also appended to the branch's log file,
//! one path per line, from which the set is rebuilt when the branch is loaded.

use vstd::prelude::*;
use vstd::utf8::encode_utf8;
use crate::disk::Snapshot;
use crate::paths::{join, join_path};
use crate::table::StrMap;
use crate::text::{chars_to_string, concat, str_chars, views};

verus! {

/// Whether `name` can name a branch: it is not empty, not `.` or `..`, holds
/// neither `/` nor NUL, does not begin with `@`, and takes at most 255 bytes.
pub open spec fn valid_name(name: Seq<char>) -> bool {
    &&& name.len() > 0
    &&& name != "."@
    &&& name != ".."@
    &&& !name.contains('/')
    &&& !name.contains('\0')
    &&& name[0] != '@'
    &&& encode_utf8(name).len() <= 255
}

/// Whether `name` can name a branch.
pub fn is_valid_name(name: &str) -> (r: bool)
    ensures
        r == valid_name(name@),
{
    let bytes = name.as_bytes();
    if bytes.len() > 255 {
        return false;
    }
    if *name == *"." || *name == *".." {
        return false;
    }
    let v = str_chars(name);
    if v.len() == 0 {
        return false;
    }
    if v[0] == '@' {
        return false;
    }
    let mut i: usize = 0;
    while i < v.len()
        invariant
            i <= v.len(),
            v@ == name@,
            forall|j: int| 0 <= j < i ==> v@[j] != '/' && v@[j] != '\0',
        decreases v.len() - i,
    {
        if v[i] == '/' || v[i] == '\0' {
            assert(name@[i as int] == v@[i as int]);
            return false;
        }
        i += 1;
    }
    true
}

/// Number of characters of `s` before its first line feed.
pub open spec fn line_len(s: Seq<char>) -> nat
    decreases s.len(),
{
    if s.len() == 0 || s[0] == '\n' {
        0
    } else {
        1 + line_len(s.drop_first())
    }
}

/// A line as it is read from a log: without the carriage return that stood
/// before its line feed.
pub open spec fn without_cr(line: Seq<char>, ended: bool) -> Seq<char> {
    if ended && line.len() > 0 && line.last() == '\r' {
        line.drop_last()
    } else {
        line
    }
}

/// The lines of a log: the text between line feeds. A last line needs no line
/// feed, and text that ends with a line feed has no empty line after it.
pub open spec fn log_lines(s: Seq<char>) -> Seq<Seq<char>>
    decreases s.len(),
{
    if s.len() == 0 {
        Seq::empty()
    } else {
        let n = line_len(s);
        if n >= s.len() {
            seq![s]
        } else {
            seq![without_cr(s.take(n as int), true)] + log_lines(s.skip(n as int + 1))
        }
    }
}

/// The tombstones that a log records: its lines, but for the empty ones.
pub open spec fn log_tombstones(s: Seq<char>) -> Set<Seq<char>> {
    Set::new(|p: Seq<char>| p.len() > 0 && log_lines(s).contains(p))
}

proof fn lemma_line_len(s: Seq<char>, k: nat)
    requires
        0 <= k <= s.len(),
        forall|j: int| 0 <= j < k ==> s[j] != '\n',
        k == s.len() || s[k as int] == '\n',
    ensures
        line_len(s) == k,
    decreases k,
{
    if k > 0 {
        let t = s.drop_first();
        assert forall|j: int| 0 <= j < k - 1 implies t[j] != '\n' by {
            assert(t[j] == s[j + 1]);
        }
        lemma_line_len(t, (k - 1) as nat);
    }
}

/// Splits the text of a log into its lines.
pub fn split_log(content: &str) -> (r: Vec<String>)
    ensures
        r@.len() == log_lines(content@).len(),
        forall|i: int| 0 <= i < r@.len() ==> r@[i]@ == log_lines(content@)[i],
{
    let v = str_chars(content);
    let mut out: Vec<String> = Vec::new();
    let ghost mut done: Seq<Seq<char>> = Seq::empty();
    let mut start: usize = 0;
    assert(v@.skip(0) =~= v@);
    while start < v.len()
        invariant
            start <= v.len(),
            v@ == content@,
            out@.len() == done.len(),
            forall|i: int| 0 <= i < out@.len() ==> out@[i]@ == done[i],
            log_lines(v@) == done + log_lines(v@.skip(start as int)),
        decreases v.len() - start,
    {
        let mut end: usize = start;
        while end < v.len() && v[end] != '\n'
            invariant
                start <= end <= v.len(),
                forall|j: int| start <= j < end ==> v@[j] != '\n',
            decreases v.len() - end,
        {
            end += 1;
        }
        let ghost rest = v@.skip(start as int);
        proof {
            assert forall|j: int| 0 <= j < end - start implies rest[j] != '\n' by {
                assert(rest[j] == v@[start + j]);
            }
            lemma_line_len(rest, (end - start) as nat);
        }
        if end == v.len() {
            let line = chars_to_string(&v, start, end);
            proof {
                assert(v@.subrange(start as int, end as int) =~= rest);
                assert(log_lines(rest) =~= seq![rest]);
                assert(rest.skip(rest.len() as int) =~= v@.skip(end as int));
                done = done.push(line@);
                assert(log_lines(v@.skip(end as int)) =~= Seq::<Seq<char>>::empty());
                assert(log_lines(v@) =~= done + log_lines(v@.skip(end as int)));
            }
            out.push(line);
            start = end;
        } else {
            let stop = if end > start && v[end - 1] == '\r' {
                end - 1
            } else {
                end
            };
            let line = chars_to_string(&v, start, stop);
            proof {
                let raw = rest.take(end - start);
                assert(raw =~= v@.subrange(start as int, end as int));
                assert(line@ =~= without_cr(raw, true));
                assert(rest.skip(end - start + 1) =~= v@.skip(end + 1));
                let old_done = done;
                done = done.push(line@);
                assert(log_lines(rest) == seq![line@] + log_lines(v@.skip(end + 1)));
                assert(old_done + (seq![line@] + log_lines(v@.skip(end + 1))) =~= done + log_lines(
                    v@.skip(end + 1),
                ));
            }
            out.push(line);
            start = end + 1;
        }
    }
    proof {
        assert(log_lines(v@.skip(start as int)) =~= Seq::<Seq<char>>::empty());
        assert(done + Seq::<Seq<char>>::empty() =~= done);
    }
    out
}

/// A branch as a mathematical value.
pub struct BranchView {
    pub parent: Option<Seq<char>>,
    pub files_dir: Seq<char>,
    pub log_file: Seq<char>,
    pub tombstones: Set<Seq<char>>,
}

/// Deleting a path twice is deleting it once: the second tombstone changes
/// nothing, and a set that holds the path needs no line in the log for it.
pub proof fn law_tombstone_twice(before: Set<Seq<char>>, path: Seq<char>)
    ensures
        before.insert(path).insert(path) == before.insert(path),
        before.insert(path).contains(path),
{
    assert(before.insert(path).insert(path) =~= before.insert(path));
}

/// A branch: a name, a parent, a delta directory and a set of tombstones.
pub struct Branch {
    pub name: String,
    pub parent: Option<String>,
    pub files_dir: String,
    pub tombstones_file: String,
    tombstones: StrMap<()>,
}

/// The directory that holds everything of branch `name`.
pub open spec fn branch_dir(storage: Seq<char>, name: Seq<char>) -> Seq<char> {
    join(join(storage, "branches"@), name)
}

/// The directory that holds the delta files of branch `name`.
pub open spec fn files_dir_of(storage: Seq<char>, name: Seq<char>) -> Seq<char> {
    join(branch_dir(storage, name), "files"@)
}

/// The tombstone log of branch `name`.
pub open spec fn tombstones_file_of(storage: Seq<char>, name: Seq<char>) -> Seq<char> {
    join(branch_dir(storage, name), "tombstones"@)
}

/// The directory that holds everything of branch `name`.
pub fn branch_dir_path(storage: &str, name: &str) -> (r: String)
    ensures
        r@ == branch_dir(storage@, name@),
{
    let branches = join_path(storage, "branches");
    join_path(branches.as_str(), name)
}

impl Branch {
    /// The paths that this branch has deleted.
    pub closed spec fn tombstones(&self) -> Set<Seq<char>> {
        self.tombstones@.dom()
    }

    /// The tombstones are kept without repeats.
    pub closed spec fn wf(&self) -> bool {
        self.tombstones.wf()
    }

    /// The branch's name.
    pub closed spec fn name_view(&self) -> Seq<char> {
        self.name@
    }

    /// The name of the parent, if there is one.
    pub closed spec fn parent_name(&self) -> Option<Seq<char>> {
        match self.parent {
            Some(p) => Some(p@),
            None => None,
        }
    }

    /// The directory of the branch's delta files.
    pub closed spec fn files_root(&self) -> Seq<char> {
        self.files_dir@
    }

    /// The branch's tombstone log.
    pub closed spec fn log_file(&self) -> Seq<char> {
        self.tombstones_file@
    }

    /// The storage path of this branch's delta for the virtual path `rel`.
    pub open spec fn delta_of(&self, rel: Seq<char>) -> Seq<char> {
        join(self.files_root(), rel)
    }

    /// The branch as a mathematical value.
    pub open spec fn model(&self) -> BranchView {
        BranchView {
            parent: self.parent_name(),
            files_dir: self.files_root(),
            log_file: self.log_file(),
            tombstones: self.tombstones(),
        }
    }

    /// Same name, parent and places on disk.
    pub open spec fn same_identity(&self, other: &Branch) -> bool {
        &&& self.name_view() == other.name_view()
        &&& self.parent_name() == other.parent_name()
        &&& self.files_root() == other.files_root()
        &&& self.log_file() == other.log_file()
    }

    /// The branch's name.
    pub fn name(&self) -> (r: &str)
        ensures
            r@ == self.name_view(),
    {
        self.name.as_str()
    }

    /// The name of the parent; `main` has none.
    pub fn parent(&self) -> (r: Option<&str>)
        ensures
            match r {
                Some(p) => self.parent_name() == Some(p@),
                None => self.parent_name() is None,
            },
    {
        match &self.parent {
            Some(p) => Some(p.as_str()),
            None => None,
        }
    }

    /// The directory of the branch's delta files.
    pub fn files_dir(&self) -> (r: &str)
        ensures
            r@ == self.files_root(),
    {
        self.files_dir.as_str()
    }

    /// The branch's tombstone log.
    pub fn tombstones_file(&self) -> (r: &str)
        ensures
            r@ == self.log_file(),
    {
        self.tombstones_file.as_str()
    }

    /// A branch that has deleted nothing yet, stored below `storage_path`.
    pub fn new(name: &str, parent: Option<&str>, storage_path: &str) -> (b: Self)
        ensures
            b.wf(),
            b.name_view() == name@,
            b.parent_name() == match parent {
                Some(p) => Some(p@),
                None => None,
            },
            b.files_root() == files_dir_of(storage_path@, name@),
            b.log_file() == tombstones_file_of(storage_path@, name@),
            b.tombstones() == Set::<Seq<char>>::empty(),
    {
        let dir = branch_dir_path(storage_path, name);
        let parent = match parent {
            Some(p) => Some(p.to_owned()),
            None => None,
        };
        let b = Branch {
            name: name.to_owned(),
            parent,
            files_dir: join_path(dir.as_str(), "files"),
            tombstones_file: join_path(dir.as_str(), "tombstones"),
            tombstones: StrMap::new(),
        };
        assert(b.tombstones() =~= Set::<Seq<char>>::empty());
        b
    }

    /// A branch whose tombstones are those that the text of its log records.
    pub fn load(name: &str, parent: Option<&str>, storage_path: &str, log: &str) -> (b: Self)
        ensures
            b.wf(),
            b.name_view() == name@,
            b.parent_name() == match parent {
                Some(p) => Some(p@),
                None => None,
            },
            b.files_root() == files_dir_of(storage_path@, name@),
            b.log_file() == tombstones_file_of(storage_path@, name@),
            b.tombstones() == log_tombstones(log@),
    {
        let mut b = Branch::new(name, parent, storage_path);
        let lines = split_log(log);
        let mut i: usize = 0;
        while i < lines.len()
            invariant
                i <= lines.len(),
                b.wf(),
                b.name_view() == name@,
                b.parent_name() == match parent {
                    Some(p) => Some(p@),
                    None => None,
                },
                b.files_root() == files_dir_of(storage_path@, name@),
                b.log_file() == tombstones_file_of(storage_path@, name@),
                lines@.len() == log_lines(log@).len(),
                forall|j: int| 0 <= j < lines@.len() ==> lines@[j]@ == log_lines(log@)[j],
                forall|p: Seq<char>|
                    b.tombstones().contains(p) <==> p.len() > 0 && exists|j: int|
                        0 <= j < i && log_lines(log@)[j] == p,
            decreases lines.len() - i,
        {
            let line = &lines[i];
            let ghost before = b.tombstones();
            if !line.as_str().is_empty() {
                b.add_tombstone(line.as_str());
            }
            proof {
                let here = log_lines(log@)[i as int];
                assert forall|p: Seq<char>|
                    b.tombstones().contains(p) <==> p.len() > 0 && exists|j: int|
                        0 <= j < i + 1 && log_lines(log@)[j] == p by {
                    if p.len() > 0 && (exists|j: int| 0 <= j < i + 1 && log_lines(log@)[j] == p) {
                        let j = choose|j: int| 0 <= j < i + 1 && log_lines(log@)[j] == p;
                        if j < i {
                            assert(before.contains(p));
                        }
                    }
                    if b.tombstones().contains(p) && p != here {
                        assert(before.contains(p));
                    }
                }
            }
            i += 1;
        }
        assert(b.tombstones() =~= log_tombstones(log@));
        b
    }

    /// Whether the branch has deleted `path`.
    pub fn is_deleted(&self, path: &str) -> (r: bool)
        requires
            self.wf(),
        ensures
            r == self.tombstones().contains(path@),
    {
        self.tombstones.contains_key(path)
    }

    /// The line to append to the log before `path` is added: its text and a
    /// line feed. A path that is a tombstone already needs none.
    pub fn log_entry(&self, path: &str) -> (r: Option<String>)
        requires
            self.wf(),
        ensures
            match r {
                Some(line) => !self.tombstones().contains(path@) && line@ == path@ + seq!['\n'],
                None => self.tombstones().contains(path@),
            },
    {
        if self.tombstones.contains_key(path) {
            None
        } else {
            proof {
                reveal_strlit("\n");
                assert("\n"@ =~= seq!['\n']);
            }
            Some(concat(path, "\n"))
        }
    }

    /// Records `path` as deleted. Adding a path twice is the same as adding it
    /// once.
    pub fn add_tombstone(&mut self, path: &str)
        requires
            old(self).wf(),
        ensures
            final(self).wf(),
            final(self).tombstones() == old(self).tombstones().insert(path@),
            final(self).same_identity(old(self)),
    {
        self.tombstones.insert(path.to_owned(), ());
        assert(self.tombstones() =~= old(self).tombstones().insert(path@));
    }

    /// Takes `path` out of the set of deleted paths. The log keeps its line.
    pub fn remove_tombstone(&mut self, path: &str)
        requires
            old(self).wf(),
        ensures
            final(self).wf(),
            final(self).tombstones() == old(self).tombstones().remove(path@),
            final(self).same_identity(old(self)),
    {
        let _gone = self.tombstones.remove(path);
        assert(self.tombstones() =~= old(self).tombstones().remove(path@));
    }

    /// The deleted paths, each once.
    pub fn get_tombstones(&self) -> (r: Vec<String>)
        requires
            self.wf(),
        ensures
            views(r@).no_duplicates(),
            views(r@).to_set() == self.tombstones(),
    {
        let out = self.tombstones.key_list();
        proof {
            self.tombstones.lemma_entries();
            let names = views(out@);
            assert forall|i: int, j: int| 0 <= i < names.len() && 0 <= j < names.len() && i
                != j implies names[i] != names[j] by {
                assert(self.tombstones.key_at(i) != self.tombstones.key_at(j));
            }
            assert forall|p: Seq<char>| names.to_set().contains(p) <==> self.tombstones().contains(
                p,
            ) by {
                if names.contains(p) {
                    let i = choose|i: int| 0 <= i < names.len() && names[i] == p;
                    assert(self.tombstones@.contains_key(self.tombstones.key_at(i)));
                }
                if self.tombstones().contains(p) {
                    let j = self.tombstones.slot(p);
                    assert(names[j] == p);
                }
            }
            assert(names.to_set() =~= self.tombstones());
        }
        out
    }

    /// The storage path of this branch's delta for `rel_path`.
    pub fn delta_path(&self, rel_path: &str) -> (r: String)
        ensures
            r@ == self.delta_of(rel_path@),
    {
        join_path(self.files_dir.as_str(), rel_path)
    }

    /// Whether the storage holds a delta of this branch for `rel_path`.
    pub fn has_delta(&self, rel_path: &str, disk: &Snapshot) -> (r: bool)
        requires
            disk.wf(),
        ensures
            r == disk@.contains_key(self.delta_of(rel_path@)),
    {
        let delta = self.delta_path(rel_path);
        disk.contains(delta.as_str())
    }
}

} // verus!
