//! String helpers shared by the path and protocol code.
//!
//! Strings are viewed as sequences of characters. The functions here move
//! between `&str` and `Vec<char>` and build new strings, each with an exact
//! contract over those sequences.

use vstd::prelude::*;
use vstd::string::StringExecFns;

verus! {

/// `str`'s `==` (std): true exactly when both hold the same characters in the
/// same order.
pub assume_specification[ <str as PartialEq>::eq ](a: &str, b: &str) -> (r: bool)
    ensures
        r == (a@ == b@),
;

/// `String::push` (std): appends one character to the end of the string.
pub assume_specification[ String::push ](s: &mut String, c: char)
    ensures
        final(s)@ == old(s)@.push(c),
;

/// The strings of `v` as character sequences.
pub open spec fn views(v: Seq<String>) -> Seq<Seq<char>> {
    v.map_values(|s: String| s@)
}

/// The set of the first `n + 1` members of `s` is the set of the first `n`
/// with the member at `n` added.
pub proof fn lemma_take_one_more<A>(s: Seq<A>, n: int)
    requires
        0 <= n < s.len(),
    ensures
        s.take(n + 1).to_set() == s.take(n).to_set().insert(s[n]),
{
    let shorter = s.take(n);
    let longer = s.take(n + 1);
    assert forall|e: A|
        longer.to_set().contains(e) <==> shorter.to_set().insert(s[n]).contains(e) by {
        if longer.contains(e) {
            let j = choose|j: int| 0 <= j < longer.len() && longer[j] == e;
            if j < n {
                assert(shorter[j] == e);
            }
        }
        if shorter.contains(e) {
            let j = choose|j: int| 0 <= j < shorter.len() && shorter[j] == e;
            assert(longer[j] == e);
        }
        if e == s[n] {
            assert(longer[n] == e);
        }
    }
    assert(longer.to_set() =~= shorter.to_set().insert(s[n]));
}

/// The members of a sequence with one more pushed are its members and that
/// one; pushing a new member keeps the sequence free of repeats.
pub proof fn lemma_push_to_set<A>(s: Seq<A>, x: A)
    ensures
        s.push(x).to_set() == s.to_set().insert(x),
        s.no_duplicates() && !s.contains(x) ==> s.push(x).no_duplicates(),
{
    let t = s.push(x);
    assert forall|e: A| t.to_set().contains(e) <==> s.to_set().insert(x).contains(e) by {
        if t.contains(e) {
            let j = choose|j: int| 0 <= j < t.len() && t[j] == e;
            if j < s.len() {
                assert(s[j] == e);
            }
        }
        if s.contains(e) {
            let j = choose|j: int| 0 <= j < s.len() && s[j] == e;
            assert(t[j] == e);
        }
        if e == x {
            assert(t[s.len() as int] == e);
        }
    }
    assert(t.to_set() =~= s.to_set().insert(x));
    if s.no_duplicates() && !s.contains(x) {
        assert forall|a: int, b: int| 0 <= a < t.len() && 0 <= b < t.len() && a != b implies t[a]
            != t[b] by {
            if a < s.len() {
                assert(s[a] == t[a]);
                assert(s.contains(s[a]));
            }
            if b < s.len() {
                assert(s[b] == t[b]);
                assert(s.contains(s[b]));
            }
        }
    }
}

/// The characters of `s`, in order.
pub fn str_chars(s: &str) -> (r: Vec<char>)
    ensures
        r@ == s@,
{
    let mut out: Vec<char> = Vec::new();
    for c in it: s.chars()
        invariant
            out@ == it.seq().take(it.index() as int),
            it.seq() == s@,
    {
        out.push(c);
    }
    out
}

/// The string made of `v[from..to]`.
pub fn chars_to_string(v: &Vec<char>, from: usize, to: usize) -> (r: String)
    requires
        from <= to <= v.len(),
    ensures
        r@ == v@.subrange(from as int, to as int),
{
    let mut out = String::new();
    let mut i: usize = from;
    while i < to
        invariant
            from <= i <= to <= v.len(),
            out@ == v@.subrange(from as int, i as int),
        decreases to - i,
    {
        out.push(v[i]);
        i += 1;
        assert(v@.subrange(from as int, i as int) == v@.subrange(from as int, i - 1).push(
            v@[i - 1],
        ));
    }
    out
}

/// `a` followed by `b`.
pub fn concat(a: &str, b: &str) -> (r: String)
    ensures
        r@ == a@ + b@,
{
    let mut out = a.to_owned();
    out.append(b);
    out
}

/// `a`, then `b`, then `c`.
pub fn concat3(a: &str, b: &str, c: &str) -> (r: String)
    ensures
        r@ == a@ + b@ + c@,
{
    let mut out = a.to_owned();
    out.append(b);
    out.append(c);
    out
}

/// Number of characters of `s` before the first `c`; the length of `s` when
/// it holds no `c`.
pub open spec fn find_char(s: Seq<char>, c: char) -> nat
    decreases s.len(),
{
    if s.len() == 0 || s[0] == c {
        0
    } else {
        1 + find_char(s.drop_first(), c)
    }
}

/// `find_char` is the first position that holds `c`.
pub proof fn lemma_find_char(s: Seq<char>, c: char, k: nat)
    requires
        k <= s.len(),
        forall|j: int| 0 <= j < k ==> s[j] != c,
        k == s.len() || s[k as int] == c,
    ensures
        find_char(s, c) == k,
    decreases k,
{
    if k > 0 {
        let t = s.drop_first();
        assert forall|j: int| 0 <= j < k - 1 implies t[j] != c by {
            assert(t[j] == s[j + 1]);
        }
        lemma_find_char(t, c, (k - 1) as nat);
    }
}

/// The first position at or after `from` where `v` holds `c`; the length of
/// `v` when there is none.
pub fn chars_find(v: &Vec<char>, from: usize, c: char) -> (r: usize)
    requires
        from <= v.len(),
    ensures
        from <= r <= v.len(),
        r - from == find_char(v@.skip(from as int), c),
        r < v.len() ==> v@[r as int] == c,
        forall|j: int| from <= j < r ==> v@[j] != c,
{
    let mut end: usize = from;
    while end < v.len() && v[end] != c
        invariant
            from <= end <= v.len(),
            forall|j: int| from <= j < end ==> v@[j] != c,
        decreases v.len() - end,
    {
        end += 1;
    }
    proof {
        let rest = v@.skip(from as int);
        assert forall|j: int| 0 <= j < end - from implies rest[j] != c by {
            assert(rest[j] == v@[from + j]);
        }
        lemma_find_char(rest, c, (end - from) as nat);
    }
    end
}

/// Whether `v` begins with the characters of `prefix`.
pub fn chars_start_with(v: &Vec<char>, prefix: &Vec<char>) -> (r: bool)
    ensures
        r == prefix@.is_prefix_of(v@),
{
    if prefix.len() > v.len() {
        return false;
    }
    let mut i: usize = 0;
    while i < prefix.len()
        invariant
            i <= prefix.len() <= v.len(),
            forall|j: int| 0 <= j < i ==> v@[j] == prefix@[j],
        decreases prefix.len() - i,
    {
        if v[i] != prefix[i] {
            assert(v@.subrange(0, prefix@.len() as int)[i as int] != prefix@[i as int]);
            return false;
        }
        i += 1;
    }
    assert(v@.subrange(0, prefix@.len() as int) =~= prefix@);
    true
}

} // verus!
