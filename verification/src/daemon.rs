//! The daemon's side of the control protocol: the requests and responses,
//! the table of mounts, and what each request asks of the process that owns
//! the mounts.
//!
//! The daemon itself listens on a socket and mounts filesystems, which this
//! library does not do. It decides here and acts there: `handle_request` says
//! what a request asks for, and the registry functions record what was done.

use vstd::prelude::*;
use std::collections::hash_map::DefaultHasher;
use std::hash::Hasher;
use vstd::std_specs::hash::DefaultHasherAdditionalSpecFns;
use crate::branch::valid_name;
use crate::error::{mount_not_found_text, BranchError};
use crate::manager::{fresh_branch, BranchManager};
use crate::paths::{join, join_path};
use crate::table::StrMap;
use crate::text::chars_to_string;

verus! {

/// What an answer carries besides its outcome: nothing, a text, a list of
/// such values, or a record of named values.
#[derive(Debug, PartialEq, Eq)]
pub enum Data {
    Null,
    Text(String),
    List(Vec<Data>),
    Record(Vec<(String, Data)>),
}

/// The text that `d` is, if it is one.
pub open spec fn text_of(d: Data) -> Option<Seq<char>> {
    match d {
        Data::Text(t) => Some(t@),
        _ => None,
    }
}

/// The text of the first of `members` that is named `key`, if there is such
/// a member and it is a text.
pub open spec fn text_among(members: Seq<(String, Data)>, key: Seq<char>) -> Option<Seq<char>>
    decreases members.len(),
{
    if members.len() == 0 {
        None
    } else if members[0].0@ == key {
        text_of(members[0].1)
    } else {
        text_among(members.drop_first(), key)
    }
}

/// The text of the member `key` of the record `d`: `None` where `d` is no
/// record, has no such member, or has one that is no text.
pub open spec fn member_text(d: Data, key: Seq<char>) -> Option<Seq<char>> {
    match d {
        Data::Record(members) => text_among(members@, key),
        _ => None,
    }
}

/// What a list of records says of branches: for each item its members
/// `name` and `parent`, as far as they are texts.
pub open spec fn listed_pairs(items: Seq<Data>) -> Seq<(Option<Seq<char>>, Option<Seq<char>>)> {
    items.map_values(|d: Data| (member_text(d, "name"@), member_text(d, "parent"@)))
}

/// Whether `d` is the record that the list of branches holds for the branch
/// `name` with the parent `parent`: the member `name` with the name, then
/// the member `parent` with the parent's name, or with nothing where the
/// branch has none.
pub open spec fn is_entry(d: Data, name: Seq<char>, parent: Option<Seq<char>>) -> bool {
    d matches Data::Record(members) && members@.len() == 2 && members@[0].0@ == "name"@ && text_of(
        members@[0].1,
    ) == Some(name) && members@[1].0@ == "parent"@ && match parent {
        Some(p) => text_of(members@[1].1) == Some(p),
        None => members@[1].1 is Null,
    }
}

/// A record of the list of branches is read back as what it was made from.
pub proof fn law_entry_reads_back(d: Data, name: Seq<char>, parent: Option<Seq<char>>)
    requires
        is_entry(d, name, parent),
    ensures
        member_text(d, "name"@) == Some(name),
        member_text(d, "parent"@) == parent,
{
    reveal_strlit("name");
    reveal_strlit("parent");
    let members = d->Record_0@;
    assert("name"@[0] != "parent"@[0]);
    assert(members.drop_first()[0] == members[1]);
    reveal_with_fuel(text_among, 3);
}

/// A list of such records is read back as the names and parents it was made
/// from.
pub proof fn law_list_reads_back(items: Seq<Data>, branches: Seq<(Seq<char>, Option<Seq<char>>)>)
    requires
        items.len() == branches.len(),
        forall|i: int|
            0 <= i < items.len() ==> is_entry(#[trigger] items[i], branches[i].0, branches[i].1),
    ensures
        listed_pairs(items) == branches.map_values(
            |b: (Seq<char>, Option<Seq<char>>)| (Some(b.0), b.1),
        ),
{
    let named = branches.map_values(|b: (Seq<char>, Option<Seq<char>>)| (Some(b.0), b.1));
    assert forall|i: int| 0 <= i < items.len() implies listed_pairs(items)[i] == named[i] by {
        law_entry_reads_back(items[i], branches[i].0, branches[i].1);
    }
    assert(listed_pairs(items) =~= named);
}

impl Data {
    /// The text that this value is, if it is one.
    pub fn as_text(&self) -> (r: Option<String>)
        ensures
            match r {
                Some(t) => text_of(*self) == Some(t@),
                None => text_of(*self) is None,
            },
    {
        match self {
            Data::Text(t) => Some(t.clone()),
            _ => None,
        }
    }

    /// The text of the member `key`, if this is a record with such a member
    /// and the member is a text.
    pub fn member_text(&self, key: &str) -> (r: Option<String>)
        ensures
            match r {
                Some(t) => member_text(*self, key@) == Some(t@),
                None => member_text(*self, key@) is None,
            },
    {
        match self {
            Data::Record(members) => {
                let ghost all = members@;
                let mut i: usize = 0;
                assert(all.skip(0) =~= all);
                while i < members.len()
                    invariant
                        i <= members.len(),
                        all == members@,
                        member_text(*self, key@) == text_among(all, key@),
                        text_among(all, key@) == text_among(all.skip(i as int), key@),
                    decreases members.len() - i,
                {
                    proof {
                        assert(all.skip(i as int)[0] == all[i as int]);
                        assert(all.skip(i as int).drop_first() =~= all.skip(i + 1));
                    }
                    if *members[i].0.as_str() == *key {
                        return members[i].1.as_text();
                    }
                    i += 1;
                }
                None
            },
            _ => None,
        }
    }
}

/// A request to the daemon.
#[derive(Debug)]
pub enum Request {
    Mount { branch: String, mountpoint: String },
    Unmount { mountpoint: String },
    Create { name: String, parent: String, mountpoint: String },
    NotifySwitch { mountpoint: String, branch: String },
    List { mountpoint: String },
    Shutdown,
}

/// The daemon's answer to a request.
#[derive(Debug)]
pub struct Response {
    pub ok: bool,
    pub error: Option<String>,
    pub data: Option<Data>,
}

impl Response {
    /// The answer to a request that was carried out.
    pub fn success() -> (r: Self)
        ensures
            r.ok,
            r.error is None,
            r.data is None,
    {
        Response { ok: true, error: None, data: None }
    }

    /// The answer to a request that was carried out and has something to tell.
    pub fn success_with_data(data: Data) -> (r: Self)
        ensures
            r.ok,
            r.error is None,
            r.data == Some(data),
    {
        Response { ok: true, error: None, data: Some(data) }
    }

    /// The answer to a request that failed, with the reason.
    pub fn error(msg: &str) -> (r: Self)
        ensures
            !r.ok,
            r.error matches Some(m) && m@ == msg@,
            r.data is None,
    {
        Response { ok: false, error: Some(msg.to_owned()), data: None }
    }

    /// The answer to a request that was carried out with the result `done`:
    /// success, or the text of the error.
    pub fn from_result(done: &Result<(), BranchError>) -> (r: Self)
        ensures
            r.data is None,
            match done {
                Ok(()) => r.ok && r.error is None,
                Err(e) => !r.ok && (r.error matches Some(m) && m@ == e.message_spec()),
            },
    {
        match done {
            Ok(()) => Response::success(),
            Err(e) => {
                let text = e.message();
                Response::error(text.as_str())
            },
        }
    }
}

/// The character for the hexadecimal digit `d`.
pub open spec fn hex_char(d: int) -> char {
    if d == 0 {
        '0'
    } else if d == 1 {
        '1'
    } else if d == 2 {
        '2'
    } else if d == 3 {
        '3'
    } else if d == 4 {
        '4'
    } else if d == 5 {
        '5'
    } else if d == 6 {
        '6'
    } else if d == 7 {
        '7'
    } else if d == 8 {
        '8'
    } else if d == 9 {
        '9'
    } else if d == 10 {
        'a'
    } else if d == 11 {
        'b'
    } else if d == 12 {
        'c'
    } else if d == 13 {
        'd'
    } else if d == 14 {
        'e'
    } else {
        'f'
    }
}

/// The last `n` hexadecimal digits of `h`, the most significant first.
pub open spec fn hex_digits(h: int, n: nat) -> Seq<char>
    decreases n,
{
    if n == 0 {
        Seq::empty()
    } else {
        hex_digits(h / 16, (n - 1) as nat).push(hex_char(h % 16))
    }
}

fn hex_digit(d: u64) -> (c: char)
    requires
        d < 16,
    ensures
        c == hex_char(d as int),
{
    if d == 0 {
        '0'
    } else if d == 1 {
        '1'
    } else if d == 2 {
        '2'
    } else if d == 3 {
        '3'
    } else if d == 4 {
        '4'
    } else if d == 5 {
        '5'
    } else if d == 6 {
        '6'
    } else if d == 7 {
        '7'
    } else if d == 8 {
        '8'
    } else if d == 9 {
        '9'
    } else if d == 10 {
        'a'
    } else if d == 11 {
        'b'
    } else if d == 12 {
        'c'
    } else if d == 13 {
        'd'
    } else if d == 14 {
        'e'
    } else {
        'f'
    }
}

/// `h` as sixteen hexadecimal digits in lower case, with leading zeros.
pub fn hex16(h: u64) -> (r: String)
    ensures
        r@ == hex_digits(h as int, 16),
{
    let mut low_first: Vec<char> = Vec::new();
    let mut cur: u64 = h;
    let mut k: usize = 0;
    assert(hex_digits(h as int, 16) =~= hex_digits(cur as int, 16) + low_first@.reverse());
    while k < 16
        invariant
            k <= 16,
            low_first@.len() == k,
            hex_digits(h as int, 16) == hex_digits(cur as int, (16 - k) as nat)
                + low_first@.reverse(),
        decreases 16 - k,
    {
        let c = hex_digit(cur % 16);
        let ghost before = low_first@;
        let ghost head = hex_digits(cur as int / 16, (16 - k - 1) as nat);
        low_first.push(c);
        proof {
            assert(low_first@.reverse() =~= seq![c] + before.reverse());
            assert(head.push(c) + before.reverse() =~= head + (seq![c] + before.reverse()));
        }
        cur = cur / 16;
        k += 1;
    }
    let mut digits: Vec<char> = Vec::new();
    let mut j: usize = 16;
    assert(hex_digits(cur as int, 0) + low_first@.reverse() =~= low_first@.reverse());
    assert(digits@ =~= low_first@.reverse().take(0));
    while j > 0
        invariant
            j <= 16,
            low_first@.len() == 16,
            digits@ == low_first@.reverse().take(16 - j),
        decreases j,
    {
        j -= 1;
        digits.push(low_first[j]);
        assert(digits@ =~= low_first@.reverse().take(16 - j));
    }
    assert(low_first@.reverse().take(16) =~= low_first@.reverse());
    let r = chars_to_string(&digits, 0, 16);
    assert(digits@.subrange(0, 16) =~= digits@);
    r
}

/// What hashing `path`, taken as a path, feeds a hasher: the byte strings
/// written to it, in order. Paths that are equal feed the same.
pub uninterp spec fn path_feed(path: Seq<char>) -> Seq<Seq<u8>>;

/// Hashing a path (std, `Hash` for `Path`): feeds `mountpoint`, taken as a
/// path, to the hasher. What is fed is `path_feed` of the path; it comes
/// after what the hasher was fed before.
#[verifier::external_body]
fn hash_path(mountpoint: &str, state: &mut DefaultHasher)
    ensures
        final(state)@ == old(state)@ + path_feed(mountpoint@),
{
    std::hash::Hash::hash(std::path::Path::new(mountpoint), state)
}

/// The number from which the storage of the mount at `path` is named: what
/// a fresh hasher makes of the path.
pub open spec fn mount_number(path: Seq<char>) -> u64 {
    DefaultHasher::spec_finish(path_feed(path))
}

/// The name of the directory that holds the storage of the mount at
/// `mountpoint`: the hash of the path as sixteen hexadecimal digits. The
/// same path gives the same name.
pub fn mount_hash(mountpoint: &str) -> (r: String)
    ensures
        r@ == hex_digits(mount_number(mountpoint@) as int, 16),
{
    let mut hasher = DefaultHasher::new();
    hash_path(mountpoint, &mut hasher);
    assert(hasher@ =~= path_feed(mountpoint@));
    let h = hasher.finish();
    hex16(h)
}

/// The socket on which the daemon of `storage` listens.
pub fn get_socket_path(storage: &str) -> (r: String)
    ensures
        r@ == join(storage@, "daemon.sock"@),
{
    join_path(storage, "daemon.sock")
}

/// The parent of `current` among `branches`, pairs of a name and a parent:
/// the first pair named `current` decides; `main` when it has no parent, when
/// there is no such pair, and when `current` is `main`.
pub open spec fn parent_among(
    current: Seq<char>,
    branches: Seq<(Option<Seq<char>>, Option<Seq<char>>)>,
) -> Seq<char>
    decreases branches.len(),
{
    if current == "main"@ || branches.len() == 0 {
        "main"@
    } else if branches[0].0 == Some(current) {
        match branches[0].1 {
            Some(p) => p,
            None => "main"@,
        }
    } else {
        parent_among(current, branches.drop_first())
    }
}

/// Pairs of optional strings, over character sequences.
pub open spec fn pairs_view(pairs: Seq<(Option<String>, Option<String>)>) -> Seq<
    (Option<Seq<char>>, Option<Seq<char>>),
> {
    pairs.map_values(
        |p: (Option<String>, Option<String>)|
            (
                match p.0 {
                    Some(s) => Some(s@),
                    None => None,
                },
                match p.1 {
                    Some(s) => Some(s@),
                    None => None,
                },
            ),
    )
}

/// The branch to which a mount on `current` moves when its branch is
/// committed or aborted, given the daemon's list of branches.
pub fn parent_in_list(current: &str, branches: &Vec<(Option<String>, Option<String>)>) -> (r:
    String)
    ensures
        r@ == parent_among(current@, pairs_view(branches@)),
{
    if *current == *"main" {
        return "main".to_owned();
    }
    let ghost all = pairs_view(branches@);
    let mut i: usize = 0;
    assert(all.skip(0) =~= all);
    while i < branches.len()
        invariant
            i <= branches.len(),
            current@ != "main"@,
            all == pairs_view(branches@),
            parent_among(current@, all) == parent_among(current@, all.skip(i as int)),
        decreases branches.len() - i,
    {
        let ghost rest = all.skip(i as int);
        proof {
            assert(rest[0] == all[i as int]);
            assert(rest.drop_first() =~= all.skip(i + 1));
        }
        let named = match &branches[i].0 {
            Some(n) => *n.as_str() == *current,
            None => false,
        };
        if named {
            return match &branches[i].1 {
                Some(p) => p.clone(),
                None => "main".to_owned(),
            };
        }
        i += 1;
    }
    "main".to_owned()
}

/// The branch that an answer to the question which branch a mount shows
/// names: the text it carries, `main` where it carries none.
pub open spec fn shown_in(current: Response) -> Seq<char> {
    match current.data {
        Some(d) => match text_of(d) {
            Some(t) => t,
            None => "main"@,
        },
        None => "main"@,
    }
}

/// The branch to which a mount moves when its branch is committed or
/// aborted, from the daemon's two answers: without both in order `main`;
/// else the parent, among the pairs that the second lists, of the branch
/// that the first names.
pub open spec fn parent_from(current: Option<Response>, listing: Option<Response>) -> Seq<char> {
    if current is None || !current->0.ok {
        "main"@
    } else if shown_in(current->0) == "main"@ {
        "main"@
    } else if listing is None || !listing->0.ok {
        "main"@
    } else {
        match listing->0.data {
            Some(Data::List(items)) => parent_among(shown_in(current->0), listed_pairs(items@)),
            _ => "main"@,
        }
    }
}

/// The branch to which the mount moves when its current branch is committed
/// or aborted. `current` is the daemon's answer to the question which branch
/// the mount shows, `listing` its answer to the request for the list of
/// branches; `None` stands for a request that failed. Without both answers
/// the mount moves to `main`.
pub fn get_parent_branch(current: Option<&Response>, listing: Option<&Response>) -> (r: String)
    ensures
        r@ == parent_from(
            match current {
                Some(c) => Some(*c),
                None => None,
            },
            match listing {
                Some(l) => Some(*l),
                None => None,
            },
        ),
{
    let shown = match current {
        Some(resp) => {
            if !resp.ok {
                return "main".to_owned();
            }
            match &resp.data {
                Some(d) => match d.as_text() {
                    Some(t) => t,
                    None => "main".to_owned(),
                },
                None => "main".to_owned(),
            }
        },
        None => {
            return "main".to_owned();
        },
    };
    if *shown.as_str() == *"main" {
        return "main".to_owned();
    }
    let data = match listing {
        Some(resp) => {
            if !resp.ok {
                return "main".to_owned();
            }
            &resp.data
        },
        None => {
            return "main".to_owned();
        },
    };
    let items = match data {
        Some(Data::List(items)) => items,
        _ => {
            return "main".to_owned();
        },
    };
    let mut pairs: Vec<(Option<String>, Option<String>)> = Vec::new();
    let mut i: usize = 0;
    while i < items.len()
        invariant
            i <= items.len(),
            pairs@.len() == i,
            pairs_view(pairs@) =~= listed_pairs(items@.take(i as int)),
        decreases items.len() - i,
    {
        let name = items[i].member_text("name");
        let parent = items[i].member_text("parent");
        let ghost before = pairs@;
        pairs.push((name, parent));
        proof {
            let was = items@.take(i as int);
            let now = items@.take(i + 1);
            assert(now =~= was.push(items@[i as int]));
            assert forall|k: int| 0 <= k < i + 1 implies pairs_view(pairs@)[k] == listed_pairs(
                now,
            )[k] by {
                if k < i {
                    assert(pairs_view(pairs@)[k] == pairs_view(before)[k]);
                    assert(listed_pairs(now)[k] == listed_pairs(was)[k]);
                } else {
                    assert(pairs@[k] == (name, parent));
                }
            }
            assert(pairs_view(pairs@) =~= listed_pairs(now));
        }
        i += 1;
    }
    assert(items@.take(i as int) =~= items@);
    parent_in_list(shown.as_str(), &pairs)
}

/// The directory for the storage of the mount at `mountpoint`, below
/// `mounts` in the daemon's storage.
pub open spec fn storage_for(storage: Seq<char>, mountpoint: Seq<char>) -> Seq<char> {
    join(join(storage, "mounts"@), hex_digits(mount_number(mountpoint) as int, 16))
}

/// What the daemon keeps for one mount.
#[derive(Debug, Clone, PartialEq, Eq)]
pub struct MountInfo {
    current_branch: String,
    mount_storage: String,
}

impl MountInfo {
    /// The branch that the mount shows.
    pub closed spec fn branch(&self) -> Seq<char> {
        self.current_branch@
    }

    /// The directory that holds the mount's storage.
    pub closed spec fn storage(&self) -> Seq<char> {
        self.mount_storage@
    }

    /// The branch that the mount shows.
    pub fn current_branch(&self) -> (r: &str)
        ensures
            r@ == self.branch(),
    {
        self.current_branch.as_str()
    }

    /// The directory that holds the mount's storage.
    pub fn mount_storage(&self) -> (r: &str)
        ensures
            r@ == self.storage(),
    {
        self.mount_storage.as_str()
    }
}

/// What a request asks of the process that owns the mounts.
#[derive(Debug)]
pub enum DaemonAction {
    /// Mount `branch` at `mountpoint`, with its storage below `storage`, and
    /// then record the mount with `spawn_mount`.
    Mount { branch: String, mountpoint: String, storage: String },
    /// The mount at `mountpoint` is forgotten: end it and remove `storage`.
    /// `last` says that no mount is left, so that the daemon ends.
    Unmount { mountpoint: String, branch: String, storage: String, last: bool },
    /// Create branch `name` below `parent` in the manager of `mountpoint`.
    Create { name: String, parent: String, mountpoint: String },
    /// The mount at `mountpoint` shows `branch` now and showed `before`: move
    /// its notifier.
    Switched { mountpoint: String, before: String, branch: String },
    /// Answer with the branches of the manager of `mountpoint`.
    List { mountpoint: String },
    /// Answer with success and end.
    Shutdown,
    /// Answer with this; nothing else is to be done.
    Reply(Response),
}

/// Whether `r` is the answer for the mount point `mountpoint` that the
/// daemon does not know: a failure with the text of that error.
pub open spec fn unknown_mount_reply(r: DaemonAction, mountpoint: Seq<char>) -> bool {
    &&& r matches DaemonAction::Reply(resp)
    &&& !resp.ok
    &&& resp.data is None
    &&& resp.error matches Some(m)
    &&& m@ == mount_not_found_text(mountpoint)
}

/// The daemon's table of mounts and the places it works in.
pub struct Daemon {
    base_path: String,
    storage_path: String,
    mounts: StrMap<MountInfo>,
    socket_path: String,
    shutdown: bool,
}

impl Daemon {
    /// The mounts, by mount point.
    pub closed spec fn mounts(&self) -> Map<Seq<char>, MountInfo> {
        self.mounts@
    }

    /// Whether the daemon is to end.
    pub closed spec fn stopping(&self) -> bool {
        self.shutdown
    }

    /// The base directory.
    pub closed spec fn base(&self) -> Seq<char> {
        self.base_path@
    }

    /// The directory below which the daemon keeps what it stores.
    pub closed spec fn storage(&self) -> Seq<char> {
        self.storage_path@
    }

    /// The socket on which the daemon listens.
    pub closed spec fn socket(&self) -> Seq<char> {
        self.socket_path@
    }

    /// The table holds each mount point once.
    pub closed spec fn wf(&self) -> bool {
        self.mounts.wf()
    }

    /// Everything but the mounts and the wish to end is as in `other`.
    pub open spec fn same_places(&self, other: &Daemon) -> bool {
        &&& self.base() == other.base()
        &&& self.storage() == other.storage()
        &&& self.socket() == other.socket()
    }

    /// A daemon without mounts.
    pub fn new(base_path: String, storage_path: String, _workspace_path: String) -> (d: Self)
        ensures
            d.wf(),
            d.mounts() == Map::<Seq<char>, MountInfo>::empty(),
            !d.stopping(),
            d.base() == base_path@,
            d.storage() == storage_path@,
            d.socket() == join(storage_path@, "daemon.sock"@),
    {
        let socket_path = get_socket_path(storage_path.as_str());
        Daemon { base_path, storage_path, mounts: StrMap::new(), socket_path, shutdown: false }
    }

    /// The socket on which the daemon listens.
    pub fn socket_path(&self) -> (r: &str)
        ensures
            r@ == self.socket(),
    {
        self.socket_path.as_str()
    }

    /// The base directory.
    pub fn base_path(&self) -> (r: &str)
        ensures
            r@ == self.base(),
    {
        self.base_path.as_str()
    }

    /// Whether the daemon is to end.
    pub fn is_shutdown(&self) -> (r: bool)
        ensures
            r == self.stopping(),
    {
        self.shutdown
    }

    /// The directory for the storage of a mount at `mountpoint`: a directory
    /// of its own below `mounts` in the daemon's storage.
    pub fn mount_storage(&self, mountpoint: &str) -> (r: String)
        ensures
            r@ == storage_for(self.storage(), mountpoint@),
    {
        let all = join_path(self.storage_path.as_str(), "mounts");
        let name = mount_hash(mountpoint);
        join_path(all.as_str(), name.as_str())
    }

    /// Records that `branch_name` is mounted at `mountpoint` with its storage
    /// in `mount_storage`.
    pub fn spawn_mount(&mut self, branch_name: &str, mountpoint: &str, mount_storage: String)
        requires
            old(self).wf(),
        ensures
            final(self).wf(),
            final(self).same_places(old(self)),
            final(self).stopping() == old(self).stopping(),
            final(self).mounts().dom() == old(self).mounts().dom().insert(mountpoint@),
            final(self).mounts()[mountpoint@].branch() == branch_name@,
            final(self).mounts()[mountpoint@].storage() == mount_storage@,
            forall|m: Seq<char>|
                m != mountpoint@ && old(self).mounts().contains_key(m) ==> final(self).mounts()[m]
                    == old(self).mounts()[m],
    {
        let info = MountInfo { current_branch: branch_name.to_owned(), mount_storage };
        self.mounts.insert(mountpoint.to_owned(), info);
        assert(self.mounts().dom() =~= old(self).mounts().dom().insert(mountpoint@));
    }

    /// Forgets the mount at `mountpoint` and hands back what was kept for it.
    /// When it was the last mount the daemon is to end.
    pub fn unmount(&mut self, mountpoint: &str) -> (r: Result<MountInfo, BranchError>)
        requires
            old(self).wf(),
        ensures
            final(self).wf(),
            final(self).same_places(old(self)),
            final(self).mounts() == old(self).mounts().remove(mountpoint@),
            match r {
                Ok(info) => old(self).mounts().contains_key(mountpoint@) && info == old(
                    self,
                ).mounts()[mountpoint@] && final(self).stopping() == (old(self).stopping()
                    || final(self).mounts().dom() == Set::<Seq<char>>::empty()),
                Err(BranchError::MountNotFound(m)) => !old(self).mounts().contains_key(mountpoint@)
                    && m@ == mountpoint@ && final(self).stopping() == old(self).stopping(),
                Err(_) => false,
            },
    {
        match self.mounts.remove(mountpoint) {
            Some(info) => {
                proof {
                    self.mounts.lemma_entries();
                    if self.mounts.size() == 0 {
                        assert(self.mounts().dom().len() == 0);
                        assert(self.mounts().dom() =~= Set::<Seq<char>>::empty());
                    } else {
                        assert(self.mounts@.contains_key(self.mounts.key_at(0)));
                    }
                }
                if self.mounts.len() == 0 {
                    self.shutdown = true;
                }
                Ok(info)
            },
            None => Err(BranchError::MountNotFound(mountpoint.to_owned())),
        }
    }

    /// The number of mounts.
    pub fn mount_count(&self) -> (n: usize)
        requires
            self.wf(),
        ensures
            n == self.mounts().dom().len(),
    {
        proof {
            self.mounts.lemma_entries();
        }
        self.mounts.len()
    }

    /// Makes the branch `name` below `parent` in `manager`, the manager of
    /// the mount at `mountpoint`. Fails when the daemon does not know the
    /// mount, and as the manager fails.
    pub fn create_branch(
        &self,
        manager: &mut BranchManager,
        name: &str,
        parent: &str,
        mountpoint: &str,
    ) -> (r: Result<(), BranchError>)
        requires
            self.wf(),
            old(manager).wf(),
        ensures
            final(manager).wf(),
            final(manager).same_but_tree(old(manager)),
            if self.mounts().contains_key(mountpoint@) {
                &&& r is Ok <==> valid_name(name@) && !old(manager).tree().contains_key(name@)
                    && old(manager).tree().contains_key(parent@)
                &&& final(manager).tree() == if r is Ok {
                    old(manager).tree().insert(
                        name@,
                        fresh_branch(old(manager).storage(), name@, parent@),
                    )
                } else {
                    old(manager).tree()
                }
                &&& !(r matches Err(BranchError::MountNotFound(_)))
            } else {
                &&& r matches Err(BranchError::MountNotFound(m))
                &&& m@ == mountpoint@
                &&& final(manager).tree() == old(manager).tree()
                &&& final(manager).order() == old(manager).order()
            },
    {
        if !self.mounts.contains_key(mountpoint) {
            return Err(BranchError::MountNotFound(mountpoint.to_owned()));
        }
        manager.create_branch(name, parent)
    }

    /// The branches of `manager`, the manager of the mount at `mountpoint`,
    /// each with its parent. Fails when the daemon does not know the mount.
    pub fn list_branches(&self, manager: &BranchManager, mountpoint: &str) -> (r: Result<
        Vec<(String, Option<String>)>,
        BranchError,
    >)
        requires
            self.wf(),
            manager.wf(),
        ensures
            match r {
                Ok(list) => {
                    &&& self.mounts().contains_key(mountpoint@)
                    &&& list@.len() == manager.order().len()
                    &&& forall|i: int|
                        0 <= i < list@.len() ==> (#[trigger] list@[i]).0@ == manager.order()[i]
                            && manager.tree().contains_key(list@[i].0@) && (match list@[i].1 {
                            Some(p) => manager.tree()[list@[i].0@].parent == Some(p@),
                            None => manager.tree()[list@[i].0@].parent is None,
                        })
                },
                Err(BranchError::MountNotFound(m)) => !self.mounts().contains_key(mountpoint@)
                    && m@ == mountpoint@,
                Err(_) => false,
            },
    {
        if !self.mounts.contains_key(mountpoint) {
            return Err(BranchError::MountNotFound(mountpoint.to_owned()));
        }
        Ok(manager.list_branches())
    }

    /// The branch that the mount at `mountpoint` shows.
    pub fn current_branch(&self, mountpoint: &str) -> (r: Option<String>)
        requires
            self.wf(),
        ensures
            match r {
                Some(b) => self.mounts().contains_key(mountpoint@) && b@
                    == self.mounts()[mountpoint@].branch(),
                None => !self.mounts().contains_key(mountpoint@),
            },
    {
        match self.mounts.get(mountpoint) {
            Some(info) => Some(info.current_branch.clone()),
            None => None,
        }
    }

    /// Records that the mount at `mountpoint` shows `branch` now, and says
    /// which branch it showed before.
    pub fn notify_switch(&mut self, mountpoint: &str, branch: &str) -> (r: Option<String>)
        requires
            old(self).wf(),
        ensures
            final(self).wf(),
            final(self).same_places(old(self)),
            final(self).stopping() == old(self).stopping(),
            final(self).mounts().dom() == old(self).mounts().dom(),
            forall|m: Seq<char>|
                m != mountpoint@ && old(self).mounts().contains_key(m) ==> final(self).mounts()[m]
                    == old(self).mounts()[m],
            match r {
                Some(before) => old(self).mounts().contains_key(mountpoint@) && before@ == old(
                    self,
                ).mounts()[mountpoint@].branch() && final(self).mounts()[mountpoint@].branch()
                    == branch@ && final(self).mounts()[mountpoint@].storage() == old(
                    self,
                ).mounts()[mountpoint@].storage(),
                None => !old(self).mounts().contains_key(mountpoint@) && final(self).mounts()
                    == old(self).mounts(),
            },
    {
        match self.mounts.remove(mountpoint) {
            Some(info) => {
                let before = info.current_branch;
                self.mounts.insert(
                    mountpoint.to_owned(),
                    MountInfo { current_branch: branch.to_owned(), mount_storage: info.mount_storage },
                );
                assert(self.mounts().dom() =~= old(self).mounts().dom());
                Some(before)
            },
            None => {
                assert(self.mounts() =~= old(self).mounts());
                None
            },
        }
    }

    /// The answer that lists `branches`, pairs of a name and a parent: a
    /// list with one record for each, in their order, which has the members
    /// `name` and `parent`; the parent of a branch without one is null.
    pub fn list_response(branches: &Vec<(String, Option<String>)>) -> (r: Response)
        ensures
            r.ok,
            r.error is None,
            r.data matches Some(Data::List(items)) && items@.len() == branches@.len() && forall|
                i: int,
            |
                0 <= i < branches@.len() ==> is_entry(
                    #[trigger] items@[i],
                    branches@[i].0@,
                    match branches@[i].1 {
                        Some(p) => Some(p@),
                        None => None,
                    },
                ),
    {
        let mut items: Vec<Data> = Vec::new();
        let mut i: usize = 0;
        while i < branches.len()
            invariant
                i <= branches.len(),
                items@.len() == i,
                forall|k: int|
                    0 <= k < i ==> is_entry(
                        #[trigger] items@[k],
                        branches@[k].0@,
                        match branches@[k].1 {
                            Some(p) => Some(p@),
                            None => None,
                        },
                    ),
            decreases branches.len() - i,
        {
            let name = Data::Text(branches[i].0.clone());
            let parent = match &branches[i].1 {
                Some(p) => Data::Text(p.clone()),
                None => Data::Null,
            };
            let mut members: Vec<(String, Data)> = Vec::new();
            members.push(("name".to_owned(), name));
            members.push(("parent".to_owned(), parent));
            items.push(Data::Record(members));
            i += 1;
        }
        Response::success_with_data(Data::List(items))
    }

    /// The answer for a mount point that the daemon does not know.
    fn unknown_mount(mountpoint: &str) -> (r: DaemonAction)
        ensures
            unknown_mount_reply(r, mountpoint@),
    {
        let e = BranchError::MountNotFound(mountpoint.to_owned());
        let text = e.message();
        DaemonAction::Reply(Response::error(text.as_str()))
    }

    /// What `request` asks for. A request that names a mount point which the
    /// daemon does not know is answered at once; an unmount and a switch are
    /// recorded at once; everything else is handed to the process that owns
    /// the mounts.
    pub fn handle_request(&mut self, request: &Request) -> (r: DaemonAction)
        requires
            old(self).wf(),
        ensures
            final(self).wf(),
            final(self).same_places(old(self)),
            match request {
                Request::Mount { branch, mountpoint } => {
                    &&& final(self).mounts() == old(self).mounts()
                    &&& final(self).stopping() == old(self).stopping()
                    &&& r matches DaemonAction::Mount { branch: b, mountpoint: m, storage: s }
                    &&& b@ == branch@
                    &&& m@ == mountpoint@
                    &&& s@ == storage_for(old(self).storage(), mountpoint@)
                },
                Request::Unmount { mountpoint } => {
                    &&& final(self).mounts() == old(self).mounts().remove(mountpoint@)
                    &&& if old(self).mounts().contains_key(mountpoint@) {
                        &&& r matches DaemonAction::Unmount {
                            mountpoint: m,
                            branch: b,
                            storage: s,
                            last,
                        }
                        &&& m@ == mountpoint@
                        &&& b@ == old(self).mounts()[mountpoint@].branch()
                        &&& s@ == old(self).mounts()[mountpoint@].storage()
                        &&& last == (final(self).mounts().dom() == Set::<Seq<char>>::empty())
                        &&& final(self).stopping() == (old(self).stopping() || last)
                    } else {
                        &&& unknown_mount_reply(r, mountpoint@)
                        &&& final(self).stopping() == old(self).stopping()
                    }
                },
                Request::Create { name, parent, mountpoint } => {
                    &&& final(self).mounts() == old(self).mounts()
                    &&& final(self).stopping() == old(self).stopping()
                    &&& if old(self).mounts().contains_key(mountpoint@) {
                        &&& r matches DaemonAction::Create { name: n, parent: p, mountpoint: m }
                        &&& n@ == name@
                        &&& p@ == parent@
                        &&& m@ == mountpoint@
                    } else {
                        unknown_mount_reply(r, mountpoint@)
                    }
                },
                Request::NotifySwitch { mountpoint, branch } => {
                    &&& final(self).stopping() == old(self).stopping()
                    &&& final(self).mounts().dom() == old(self).mounts().dom()
                    &&& if old(self).mounts().contains_key(mountpoint@) {
                        &&& r matches DaemonAction::Switched {
                            mountpoint: m,
                            before,
                            branch: b,
                        }
                        &&& m@ == mountpoint@
                        &&& b@ == branch@
                        &&& before@ == old(self).mounts()[mountpoint@].branch()
                        &&& final(self).mounts()[mountpoint@].branch() == branch@
                        &&& final(self).mounts()[mountpoint@].storage() == old(
                            self,
                        ).mounts()[mountpoint@].storage()
                        &&& forall|other: Seq<char>|
                            other != mountpoint@ && old(self).mounts().contains_key(other)
                                ==> final(self).mounts()[other] == old(self).mounts()[other]
                    } else {
                        unknown_mount_reply(r, mountpoint@) && final(self).mounts() == old(
                            self,
                        ).mounts()
                    }
                },
                Request::List { mountpoint } => {
                    &&& final(self).mounts() == old(self).mounts()
                    &&& final(self).stopping() == old(self).stopping()
                    &&& if old(self).mounts().contains_key(mountpoint@) {
                        r matches DaemonAction::List { mountpoint: m } && m@ == mountpoint@
                    } else {
                        unknown_mount_reply(r, mountpoint@)
                    }
                },
                Request::Shutdown => {
                    &&& final(self).mounts() == old(self).mounts()
                    &&& final(self).stopping() == old(self).stopping()
                    &&& r is Shutdown
                },
            },
    {
        match request {
            Request::Mount { branch, mountpoint } => {
                let storage = self.mount_storage(mountpoint.as_str());
                DaemonAction::Mount { branch: branch.clone(), mountpoint: mountpoint.clone(), storage }
            },
            Request::Unmount { mountpoint } => {
                match self.unmount(mountpoint.as_str()) {
                    Ok(info) => {
                        let last = self.mounts.len() == 0;
                        proof {
                            self.mounts.lemma_entries();
                            if self.mounts.size() == 0 {
                                assert(self.mounts().dom().len() == 0);
                                assert(self.mounts().dom() =~= Set::<Seq<char>>::empty());
                            } else {
                                assert(self.mounts@.contains_key(self.mounts.key_at(0)));
                            }
                        }
                        DaemonAction::Unmount {
                            mountpoint: mountpoint.clone(),
                            branch: info.current_branch,
                            storage: info.mount_storage,
                            last,
                        }
                    },
                    Err(_) => Self::unknown_mount(mountpoint.as_str()),
                }
            },
            Request::Create { name, parent, mountpoint } => {
                if self.mounts.contains_key(mountpoint.as_str()) {
                    DaemonAction::Create {
                        name: name.clone(),
                        parent: parent.clone(),
                        mountpoint: mountpoint.clone(),
                    }
                } else {
                    Self::unknown_mount(mountpoint.as_str())
                }
            },
            Request::NotifySwitch { mountpoint, branch } => {
                match self.notify_switch(mountpoint.as_str(), branch.as_str()) {
                    Some(before) => DaemonAction::Switched {
                        mountpoint: mountpoint.clone(),
                        before,
                        branch: branch.clone(),
                    },
                    None => Self::unknown_mount(mountpoint.as_str()),
                }
            },
            Request::List { mountpoint } => {
                if self.mounts.contains_key(mountpoint.as_str()) {
                    DaemonAction::List { mountpoint: mountpoint.clone() }
                } else {
                    Self::unknown_mount(mountpoint.as_str())
                }
            },
            Request::Shutdown => DaemonAction::Shutdown,
        }
    }
}

} // verus!
