//! The control protocol: what is written to a control file, and the ioctl
//! numbers that mean the same.
//!
//! A command is text: `commit`, `abort` or `switch:<branch>`, in any mix of
//! upper and lower case, with the white space of Unicode around it ignored.

use vstd::prelude::*;
use crate::error::Errno;
use crate::text::{chars_to_string, str_chars};

verus! {

/// The ioctl that commits the mount's current branch.
pub const BRANCHFS_IOC_COMMIT: u32 = 0x4201;

/// The ioctl that aborts the mount's current branch.
pub const BRANCHFS_IOC_ABORT: u32 = 0x4202;

/// A command of the control protocol.
#[derive(Debug, Clone, PartialEq, Eq)]
pub enum CtlCommand {
    Commit,
    Abort,
    Switch(String),
}

/// A command, or the finding that the text is none, over character sequences.
pub enum Parsed {
    Commit,
    Abort,
    Switch(Seq<char>),
    Malformed,
}

/// What `r` says, as a `Parsed`.
pub open spec fn parsed_of(r: Result<CtlCommand, Errno>) -> Parsed {
    match r {
        Ok(CtlCommand::Commit) => Parsed::Commit,
        Ok(CtlCommand::Abort) => Parsed::Abort,
        Ok(CtlCommand::Switch(name)) => Parsed::Switch(name@),
        Err(_) => Parsed::Malformed,
    }
}

/// The characters that are ignored around a command: the white space of
/// Unicode, which is the space, the controls from tab to carriage return,
/// the next-line control, the no-break spaces, the spaces of fixed width,
/// and the line and paragraph separators.
pub open spec fn is_space(c: char) -> bool {
    c == ' ' || c == '\t' || c == '\n' || c == '\r' || c == '\x0b' || c == '\x0c' || c == '\u{85}'
        || c == '\u{a0}' || c == '\u{1680}' || c == '\u{2000}' || c == '\u{2001}' || c
        == '\u{2002}' || c == '\u{2003}' || c == '\u{2004}' || c == '\u{2005}' || c == '\u{2006}'
        || c == '\u{2007}' || c == '\u{2008}' || c == '\u{2009}' || c == '\u{200a}' || c
        == '\u{2028}' || c == '\u{2029}' || c == '\u{202f}' || c == '\u{205f}' || c == '\u{3000}'
}

/// `s` without the spaces at its start.
pub open spec fn skip_spaces(s: Seq<char>) -> Seq<char>
    decreases s.len(),
{
    if s.len() > 0 && is_space(s[0]) {
        skip_spaces(s.drop_first())
    } else {
        s
    }
}

/// `s` without the spaces at its end.
pub open spec fn drop_spaces(s: Seq<char>) -> Seq<char>
    decreases s.len(),
{
    if s.len() > 0 && is_space(s.last()) {
        drop_spaces(s.drop_last())
    } else {
        s
    }
}

/// `s` without the spaces at its start and at its end.
pub open spec fn trim(s: Seq<char>) -> Seq<char> {
    drop_spaces(skip_spaces(s))
}

/// Whether `s` is the verb written `lower` in lower case and `upper` in upper
/// case, each letter in either case.
pub open spec fn is_verb(s: Seq<char>, lower: Seq<char>, upper: Seq<char>) -> bool {
    &&& s.len() == lower.len()
    &&& forall|i: int| 0 <= i < s.len() ==> s[i] == lower[i] || s[i] == upper[i]
}

/// The command that `text` holds.
pub open spec fn parse(text: Seq<char>) -> Parsed {
    let cmd = trim(text);
    if cmd.len() >= 7 && is_verb(cmd.take(7), "switch:"@, "SWITCH:"@) {
        let name = trim(cmd.skip(7));
        if name.len() == 0 {
            Parsed::Malformed
        } else {
            Parsed::Switch(name)
        }
    } else if is_verb(cmd, "commit"@, "COMMIT"@) {
        Parsed::Commit
    } else if is_verb(cmd, "abort"@, "ABORT"@) {
        Parsed::Abort
    } else {
        Parsed::Malformed
    }
}

/// What the bytes written to a control file say as text: the text that they
/// encode in UTF-8, with each ill-formed stretch replaced by U+FFFD.
pub uninterp spec fn utf8_lossy(bytes: Seq<u8>) -> Seq<char>;

/// `String::from_utf8_lossy` (std): the text that the bytes encode; bytes
/// that are not UTF-8 are replaced as `utf8_lossy` says.
#[verifier::external_body]
fn decode_lossy(data: &[u8]) -> (r: String)
    ensures
        r@ == utf8_lossy(data@),
{
    String::from_utf8_lossy(data).into_owned()
}

/// Whether `c` is ignored around a command.
pub fn is_space_char(c: char) -> (r: bool)
    ensures
        r == is_space(c),
{
    c == ' ' || c == '\t' || c == '\n' || c == '\r' || c == '\x0b' || c == '\x0c' || c == '\u{85}'
        || c == '\u{a0}' || c == '\u{1680}' || c == '\u{2000}' || c == '\u{2001}' || c
        == '\u{2002}' || c == '\u{2003}' || c == '\u{2004}' || c == '\u{2005}' || c == '\u{2006}'
        || c == '\u{2007}' || c == '\u{2008}' || c == '\u{2009}' || c == '\u{200a}' || c
        == '\u{2028}' || c == '\u{2029}' || c == '\u{202f}' || c == '\u{205f}' || c == '\u{3000}'
}

proof fn lemma_skip_spaces(s: Seq<char>, k: int)
    requires
        0 <= k <= s.len(),
        forall|j: int| 0 <= j < k ==> is_space(s[j]),
        k == s.len() || !is_space(s[k]),
    ensures
        skip_spaces(s) == s.subrange(k, s.len() as int),
    decreases k,
{
    if k == 0 {
        assert(s.subrange(0, s.len() as int) =~= s);
    } else {
        let t = s.drop_first();
        assert forall|j: int| 0 <= j < k - 1 implies is_space(t[j]) by {
            assert(t[j] == s[j + 1]);
        }
        lemma_skip_spaces(t, k - 1);
        assert(t.subrange(k - 1, t.len() as int) =~= s.subrange(k, s.len() as int));
    }
}

proof fn lemma_drop_spaces(s: Seq<char>, k: int)
    requires
        0 <= k <= s.len(),
        forall|j: int| k <= j < s.len() ==> is_space(s[j]),
        k == 0 || !is_space(s[k - 1]),
    ensures
        drop_spaces(s) == s.subrange(0, k),
    decreases s.len() - k,
{
    if k == s.len() {
        assert(s.subrange(0, s.len() as int) =~= s);
    } else {
        let t = s.drop_last();
        lemma_drop_spaces(t, k);
        assert(t.subrange(0, k) =~= s.subrange(0, k));
    }
}

/// The part of `v[from..to]` that is left when the spaces at both ends are
/// taken away.
fn trim_range(v: &Vec<char>, from: usize, to: usize) -> (r: (usize, usize))
    requires
        from <= to <= v.len(),
    ensures
        from <= r.0 <= r.1 <= to,
        v@.subrange(r.0 as int, r.1 as int) == trim(v@.subrange(from as int, to as int)),
{
    let ghost whole = v@.subrange(from as int, to as int);
    let mut a: usize = from;
    while a < to && is_space_char(v[a])
        invariant
            from <= a <= to <= v.len(),
            forall|j: int| from <= j < a ==> is_space(v@[j]),
        decreases to - a,
    {
        a += 1;
    }
    let mut b: usize = to;
    while b > a && is_space_char(v[b - 1])
        invariant
            a <= b <= to <= v.len(),
            forall|j: int| b <= j < to ==> is_space(v@[j]),
        decreases b - a,
    {
        b -= 1;
    }
    proof {
        assert forall|j: int| 0 <= j < a - from implies is_space(whole[j]) by {
            assert(whole[j] == v@[from + j]);
        }
        if a < to {
            assert(whole[a - from] == v@[a as int]);
        }
        lemma_skip_spaces(whole, a - from);
        let rest = whole.subrange(a - from, whole.len() as int);
        assert(rest =~= v@.subrange(a as int, to as int));
        assert forall|j: int| b - a <= j < rest.len() implies is_space(rest[j]) by {
            assert(rest[j] == v@[a + j]);
        }
        if b > a {
            assert(rest[b - a - 1] == v@[b - 1]);
        }
        lemma_drop_spaces(rest, b - a);
        assert(rest.subrange(0, b - a) =~= v@.subrange(a as int, b as int));
    }
    (a, b)
}

/// Whether `v[from..to]` is the verb written `lower` and `upper`.
fn verb_at(v: &Vec<char>, from: usize, to: usize, lower: &str, upper: &str) -> (r: bool)
    requires
        from <= to <= v.len(),
        lower@.len() == upper@.len(),
    ensures
        r == is_verb(v@.subrange(from as int, to as int), lower@, upper@),
{
    let lo = str_chars(lower);
    let up = str_chars(upper);
    if to - from != lo.len() {
        return false;
    }
    let ghost s = v@.subrange(from as int, to as int);
    let mut i: usize = 0;
    while i < lo.len()
        invariant
            i <= lo.len(),
            lo.len() == up.len(),
            lo.len() == to - from,
            from <= to <= v.len(),
            s == v@.subrange(from as int, to as int),
            lo@ == lower@,
            up@ == upper@,
            forall|j: int| 0 <= j < i ==> s[j] == lo@[j] || s[j] == up@[j],
        decreases lo.len() - i,
    {
        let c = v[from + i];
        assert(s[i as int] == c);
        if c != lo[i] && c != up[i] {
            return false;
        }
        i += 1;
    }
    true
}

/// The command that `text` holds; text that holds none is refused as
/// malformed.
pub fn parse_text(text: &str) -> (r: Result<CtlCommand, Errno>)
    ensures
        parsed_of(r) == parse(text@),
        r is Err ==> r == Err::<CtlCommand, Errno>(Errno::Inval),
{
    let v = str_chars(text);
    let (a, b) = trim_range(&v, 0, v.len());
    assert(v@.subrange(0, v.len() as int) =~= v@);
    let ghost cmd = v@.subrange(a as int, b as int);
    proof {
        reveal_strlit("switch:");
        reveal_strlit("SWITCH:");
        reveal_strlit("commit");
        reveal_strlit("COMMIT");
        reveal_strlit("abort");
        reveal_strlit("ABORT");
    }
    if b - a >= 7 && verb_at(&v, a, a + 7, "switch:", "SWITCH:") {
        assert(v@.subrange(a as int, a + 7) =~= cmd.take(7));
        let (c, d) = trim_range(&v, a + 7, b);
        assert(v@.subrange(a + 7, b as int) =~= cmd.skip(7));
        if c == d {
            return Err(Errno::Inval);
        }
        return Ok(CtlCommand::Switch(chars_to_string(&v, c, d)));
    }
    proof {
        if b - a >= 7 {
            assert(v@.subrange(a as int, a + 7) =~= cmd.take(7));
        }
    }
    if verb_at(&v, a, b, "commit", "COMMIT") {
        Ok(CtlCommand::Commit)
    } else if verb_at(&v, a, b, "abort", "ABORT") {
        Ok(CtlCommand::Abort)
    } else {
        Err(Errno::Inval)
    }
}

/// The command that the bytes written to a control file hold.
pub fn parse_command(data: &[u8]) -> (r: Result<CtlCommand, Errno>)
    ensures
        parsed_of(r) == parse(utf8_lossy(data@)),
        r is Err ==> r == Err::<CtlCommand, Errno>(Errno::Inval),
{
    let text = decode_lossy(data);
    parse_text(text.as_str())
}

} // verus!
