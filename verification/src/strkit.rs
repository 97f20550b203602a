//! Small string helpers shared by the whole library.
//!
//! Verified code here works on `Vec<char>` with `Seq<char>` views; the two
//! trusted shims at the top only move between `str` and `Vec<char>`.

use vstd::prelude::*;

verus! {

/// Relies on `str::chars`: yields exactly the characters of the string, in order.
#[verifier::external_body]
pub fn chars_of(s: &str) -> (r: Vec<char>)
    ensures
        r@ == s@,
{
    s.chars().collect()
}

/// Relies on `String: FromIterator<char>`: collecting characters builds the
/// string with exactly those characters, in order.
#[verifier::external_body]
pub fn string_of(cs: Vec<char>) -> (r: String)
    ensures
        r@ == cs@,
{
    cs.into_iter().collect()
}

/// Equality of two string slices, by content.
pub fn str_eq(a: &str, b: &str) -> (r: bool)
    ensures
        r == (a@ == b@),
{
    a.to_owned() == b.to_owned()
}

/// `a` with `b` appended.
pub fn concat_str(a: &str, b: &str) -> (r: String)
    ensures
        r@ == a@ + b@,
{
    let mut cs = chars_of(a);
    let more = chars_of(b);
    let n = more.len();
    for i in 0..n
        invariant
            n == more@.len(),
            cs@ == a@ + more@.subrange(0, i as int),
    {
        cs.push(more[i]);
        proof {
            assert(more@.subrange(0, i as int).push(more@[i as int]) =~= more@.subrange(
                0,
                i + 1 as int,
            ));
        }
    }
    proof {
        assert(more@.subrange(0, n as int) =~= b@);
    }
    string_of(cs)
}

/// Does `s` end with `suffix`?
pub open spec fn spec_ends_with(s: Seq<char>, suffix: Seq<char>) -> bool {
    s.len() >= suffix.len() && s.subrange(s.len() - suffix.len(), s.len() as int) == suffix
}

/// Does `s` start with `prefix`?
pub open spec fn spec_starts_with(s: Seq<char>, prefix: Seq<char>) -> bool {
    s.len() >= prefix.len() && s.subrange(0, prefix.len() as int) == prefix
}

/// Does `needle` occur in `s` at position `i`?
pub open spec fn spec_match_at(s: Seq<char>, needle: Seq<char>, i: int) -> bool {
    0 <= i && i + needle.len() <= s.len() && s.subrange(i, i + needle.len()) == needle
}

/// Does `needle` occur anywhere in `s`?
pub open spec fn spec_contains(s: Seq<char>, needle: Seq<char>) -> bool {
    exists|i: int| spec_match_at(s, needle, i)
}

/// Do the characters of `a` starting at `off` continue with all of `b`?
fn match_at(a: &Vec<char>, b: &Vec<char>, off: usize) -> (r: bool)
    requires
        off + b@.len() <= a@.len(),
        a@.len() <= usize::MAX,
    ensures
        r == spec_match_at(a@, b@, off as int),
{
    let n = b.len();
    for j in 0..n
        invariant
            n == b@.len(),
            off + n <= a@.len(),
            a@.len() <= usize::MAX,
            forall|k: int| 0 <= k < j ==> a@[off + k] == b@[k],
    {
        if a[off + j] != b[j] {
            proof {
                assert(a@.subrange(off as int, off + b@.len()) != b@) by {
                    assert(a@.subrange(off as int, off + b@.len())[j as int] != b@[j as int]);
                }
            }
            return false;
        }
    }
    proof {
        assert(a@.subrange(off as int, off + b@.len()) =~= b@);
    }
    true
}

/// Does `needle` occur anywhere in `hay`?
pub fn contains_sub(hay: &str, needle: &str) -> (r: bool)
    ensures
        r == spec_contains(hay@, needle@),
{
    let h = chars_of(hay);
    let n = chars_of(needle);
    if n.len() == 0 {
        proof {
            assert(spec_match_at(hay@, needle@, 0)) by {
                assert(hay@.subrange(0, 0) =~= needle@);
            }
        }
        return true;
    }
    if n.len() > h.len() {
        proof {
            assert forall|i: int| !spec_match_at(hay@, needle@, i) by {}
        }
        return false;
    }
    let last = h.len() - n.len();
    for i in 0..last + 1
        invariant
            h@ == hay@,
            n@ == needle@,
            n@.len() <= h@.len(),
            h@.len() <= usize::MAX,
            last == h@.len() - n@.len(),
            forall|k: int| 0 <= k < i ==> !spec_match_at(hay@, needle@, k),
    {
        if match_at(&h, &n, i) {
            return true;
        }
    }
    proof {
        assert forall|k: int| !spec_match_at(hay@, needle@, k) by {
            if 0 <= k <= last as int {
                assert(!spec_match_at(hay@, needle@, k));
            }
        }
    }
    false
}

/// Does `s` end with `suffix`?
pub fn ends_with(s: &str, suffix: &str) -> (r: bool)
    ensures
        r == spec_ends_with(s@, suffix@),
{
    let a = chars_of(s);
    let b = chars_of(suffix);
    if b.len() > a.len() {
        return false;
    }
    match_at(&a, &b, a.len() - b.len())
}

/// Does `s` start with `prefix`?
pub fn starts_with(s: &str, prefix: &str) -> (r: bool)
    ensures
        r == spec_starts_with(s@, prefix@),
{
    let a = chars_of(s);
    let b = chars_of(prefix);
    if b.len() > a.len() {
        return false;
    }
    match_at(&a, &b, 0)
}

} // verus!
