//! Character-level helpers shared by the chunker and the response logic.
use vstd::prelude::*;

verus! {

/// Whether `c` has the Unicode `White_Space` property (what `char::is_whitespace` tests).
pub open spec fn is_ws(c: char) -> bool {
    ('\u{9}' <= c && c <= '\u{d}') || c == ' ' || c == '\u{85}' || c == '\u{a0}' || c == '\u{1680}'
        || ('\u{2000}' <= c && c <= '\u{200a}') || c == '\u{2028}' || c == '\u{2029}'
        || c == '\u{202f}' || c == '\u{205f}' || c == '\u{3000}'
}

/// Executable form of [`is_ws`].
pub fn is_whitespace(c: char) -> (r: bool)
    ensures
        r == is_ws(c),
{
    ('\u{9}' <= c && c <= '\u{d}') || c == ' ' || c == '\u{85}' || c == '\u{a0}' || c == '\u{1680}'
        || ('\u{2000}' <= c && c <= '\u{200a}') || c == '\u{2028}' || c == '\u{2029}'
        || c == '\u{202f}' || c == '\u{205f}' || c == '\u{3000}'
}

/// Whether every character of `s` is whitespace.
pub open spec fn is_blank(s: Seq<char>) -> bool {
    forall|i: int| 0 <= i < s.len() ==> is_ws(#[trigger] s[i])
}

/// Number of leading whitespace characters of `s`.
pub open spec fn lead_ws(s: Seq<char>) -> nat
    decreases s.len(),
{
    if s.len() > 0 && is_ws(s[0]) {
        1 + lead_ws(s.drop_first())
    } else {
        0
    }
}

/// Number of trailing whitespace characters of `s`.
pub open spec fn trail_ws(s: Seq<char>) -> nat
    decreases s.len(),
{
    if s.len() > 0 && is_ws(s.last()) {
        1 + trail_ws(s.drop_last())
    } else {
        0
    }
}

/// `s` without its leading and trailing whitespace.
pub open spec fn trim(s: Seq<char>) -> Seq<char> {
    let a = lead_ws(s) as int;
    if a == s.len() {
        Seq::empty()
    } else {
        s.subrange(a, s.len() - trail_ws(s) as int)
    }
}

/// Whether `p` occurs in `s` at position `at`.
pub open spec fn occurs_at(s: Seq<char>, p: Seq<char>, at: int) -> bool {
    0 <= at && at + p.len() <= s.len() && s.subrange(at, at + p.len()) == p
}

/// Whether `s` begins with `p`.
pub open spec fn starts_with(s: Seq<char>, p: Seq<char>) -> bool {
    occurs_at(s, p, 0)
}

/// Whether `p` occurs anywhere in `s`.
pub open spec fn contains(s: Seq<char>, p: Seq<char>) -> bool {
    exists|at: int| occurs_at(s, p, at)
}

/// Relies on `str::chars` collected into a `Vec`: the characters of `s` in order.
#[verifier::external_body]
pub(crate) fn chars_of(s: &str) -> (r: Vec<char>)
    ensures
        r@ == s@,
{
    s.chars().collect()
}

/// Relies on `String`'s `FromIterator<&char>`: the string of the characters of `cs` in order.
#[verifier::external_body]
pub(crate) fn string_of(cs: &[char]) -> (r: String)
    ensures
        r@ == cs@,
{
    cs.iter().collect()
}

proof fn lemma_lead_ws_bound(s: Seq<char>)
    ensures
        lead_ws(s) <= s.len(),
        forall|i: int| 0 <= i < lead_ws(s) ==> is_ws(#[trigger] s[i]),
        lead_ws(s) < s.len() ==> !is_ws(s[lead_ws(s) as int]),
    decreases s.len(),
{
    if s.len() > 0 && is_ws(s[0]) {
        lemma_lead_ws_bound(s.drop_first());
        assert forall|i: int| 0 <= i < lead_ws(s) implies is_ws(#[trigger] s[i]) by {
            if i > 0 {
                assert(s[i] == s.drop_first()[i - 1]);
            }
        }
    }
}

proof fn lemma_trail_ws_bound(s: Seq<char>)
    ensures
        trail_ws(s) <= s.len(),
        forall|i: int| s.len() - trail_ws(s) <= i < s.len() ==> is_ws(#[trigger] s[i]),
        trail_ws(s) < s.len() ==> !is_ws(s[s.len() - 1 - trail_ws(s)]),
    decreases s.len(),
{
    if s.len() > 0 && is_ws(s.last()) {
        lemma_trail_ws_bound(s.drop_last());
        assert forall|i: int| s.len() - trail_ws(s) <= i < s.len() implies is_ws(#[trigger] s[i]) by {
            if i < s.len() - 1 {
                assert(s[i] == s.drop_last()[i]);
            }
        }
    }
}

/// The trimmed part of `s[lo..hi]`, as bounds into `s`: leading and trailing
/// whitespace dropped, an empty range where the part is blank.
pub fn trim_bounds(s: &Vec<char>, lo: usize, hi: usize) -> (r: (usize, usize))
    requires
        lo <= hi <= s.len(),
    ensures
        lo <= r.0 <= r.1 <= hi,
        s@.subrange(r.0 as int, r.1 as int) == trim(s@.subrange(lo as int, hi as int)),
{
    let ghost t = s@.subrange(lo as int, hi as int);
    proof {
        lemma_lead_ws_bound(t);
        lemma_trail_ws_bound(t);
    }
    let mut a: usize = lo;
    while a < hi && is_whitespace(s[a])
        invariant
            lo <= a <= hi <= s.len(),
            t == s@.subrange(lo as int, hi as int),
            forall|i: int| lo <= i < a ==> is_ws(#[trigger] s@[i]),
            a - lo <= lead_ws(t),
            lead_ws(t) <= t.len(),
            forall|i: int| 0 <= i < lead_ws(t) ==> is_ws(#[trigger] t[i]),
            lead_ws(t) < t.len() ==> !is_ws(t[lead_ws(t) as int]),
        decreases hi - a,
    {
        assert(t[a - lo] == s@[a as int]);
        a = a + 1;
    }
    assert(a - lo == lead_ws(t)) by {
        if a < hi {
            assert(t[a - lo] == s@[a as int]);
        }
    }
    if a == hi {
        assert(s@.subrange(a as int, a as int) =~= Seq::<char>::empty());
        return (a, a);
    }
    let mut b: usize = hi;
    while b > a && is_whitespace(s[b - 1])
        invariant
            lo <= a < hi <= s.len(),
            a <= b <= hi,
            t == s@.subrange(lo as int, hi as int),
            a - lo == lead_ws(t),
            hi - b <= trail_ws(t),
            trail_ws(t) <= t.len(),
            forall|i: int| t.len() - trail_ws(t) <= i < t.len() ==> is_ws(#[trigger] t[i]),
            trail_ws(t) < t.len() ==> !is_ws(t[t.len() - 1 - trail_ws(t)]),
            !is_ws(t[lead_ws(t) as int]),
        decreases b - a,
    {
        assert(t[b - 1 - lo] == s@[b - 1]);
        b = b - 1;
    }
    assert(hi - b == trail_ws(t)) by {
        assert(t[a - lo] == s@[a as int]);
        if b > a {
            assert(t[b - 1 - lo] == s@[b - 1]);
        }
    }
    assert(s@.subrange(a as int, b as int) =~= t.subrange(a - lo, t.len() - trail_ws(t) as int));
    (a, b)
}

/// A non-empty trimmed text is not blank: it begins with a non-whitespace character.
pub proof fn lemma_trim_not_blank(s: Seq<char>)
    ensures
        trim(s).len() > 0 ==> !is_blank(trim(s)),
{
    lemma_lead_ws_bound(s);
    lemma_trail_ws_bound(s);
    if trim(s).len() > 0 {
        let a = lead_ws(s) as int;
        assert(a < s.len());
        assert(!is_ws(s[a]));
        assert(a < s.len() - trail_ws(s));
        assert(trim(s)[0] == s[a]);
    }
}

/// Whether `p` occurs in `s` at position `at` (`at + p.len() <= s.len()`).
pub(crate) fn occurs_here(s: &Vec<char>, p: &Vec<char>, at: usize) -> (r: bool)
    requires
        at + p.len() <= s.len(),
    ensures
        r == occurs_at(s@, p@, at as int),
{
    let mut i: usize = 0;
    while i < p.len()
        invariant
            i <= p.len(),
            at + p.len() <= s.len(),
            forall|k: int| 0 <= k < i ==> s@[at + k] == p@[k],
        decreases p.len() - i,
    {
        if s[at + i] != p[i] {
            assert(s@.subrange(at as int, at + p@.len())[i as int] == s@[at + i]);
            return false;
        }
        i = i + 1;
    }
    assert(s@.subrange(at as int, at + p@.len()) =~= p@);
    true
}

/// A text whose trimmed form is empty is blank.
pub proof fn lemma_trim_empty_blank(s: Seq<char>)
    ensures
        trim(s).len() == 0 ==> is_blank(s),
{
    lemma_lead_ws_bound(s);
    lemma_trail_ws_bound(s);
    if trim(s).len() == 0 && lead_ws(s) < s.len() {
        let a = lead_ws(s) as int;
        assert(!is_ws(s[a]));
        assert(a >= s.len() - trail_ws(s));
    }
}

/// A text that begins and ends with non-whitespace is its own trimmed form,
/// and so not empty when trimmed.
pub proof fn lemma_trim_keeps_ends(s: Seq<char>)
    requires
        s.len() > 0,
        !is_ws(s[0]),
    ensures
        trim(s).len() > 0,
{
    lemma_trail_ws_bound(s);
    assert(lead_ws(s) == 0);
}

} // verus!
