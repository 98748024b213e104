//! Character and string primitives: the whitespace predicate, trimming,
//! and small helpers for building strings.

use vstd::prelude::*;

verus! {

/// Whether `c` has the Unicode `White_Space` property, the set of characters
/// that `str::trim` removes.
pub open spec fn is_space_char(c: char) -> bool {
    c == '\u{0009}' || c == '\u{000A}' || c == '\u{000B}' || c == '\u{000C}' || c == '\u{000D}'
        || c == '\u{0020}' || c == '\u{0085}' || c == '\u{00A0}' || c == '\u{1680}'
        || c == '\u{2000}' || c == '\u{2001}' || c == '\u{2002}' || c == '\u{2003}'
        || c == '\u{2004}' || c == '\u{2005}' || c == '\u{2006}' || c == '\u{2007}'
        || c == '\u{2008}' || c == '\u{2009}' || c == '\u{200A}' || c == '\u{2028}'
        || c == '\u{2029}' || c == '\u{202F}' || c == '\u{205F}' || c == '\u{3000}'
}

/// Runtime check for `is_space_char`.
pub fn is_space(c: char) -> (r: bool)
    ensures
        r == is_space_char(c),
{
    match c {
        '\u{0009}' | '\u{000A}' | '\u{000B}' | '\u{000C}' | '\u{000D}' | '\u{0020}'
        | '\u{0085}' | '\u{00A0}' | '\u{1680}' | '\u{2000}' | '\u{2001}' | '\u{2002}'
        | '\u{2003}' | '\u{2004}' | '\u{2005}' | '\u{2006}' | '\u{2007}' | '\u{2008}'
        | '\u{2009}' | '\u{200A}' | '\u{2028}' | '\u{2029}' | '\u{202F}' | '\u{205F}'
        | '\u{3000}' => true,
        _ => false,
    }
}

/// `s` with leading whitespace removed.
pub open spec fn spec_trim_front(s: Seq<char>) -> Seq<char>
    decreases s.len(),
{
    if s.len() > 0 && is_space_char(s[0]) {
        spec_trim_front(s.drop_first())
    } else {
        s
    }
}

/// `s` with trailing whitespace removed.
pub open spec fn spec_trim_back(s: Seq<char>) -> Seq<char>
    decreases s.len(),
{
    if s.len() > 0 && is_space_char(s.last()) {
        spec_trim_back(s.drop_last())
    } else {
        s
    }
}

/// `s` with leading and trailing whitespace removed, as `str::trim` leaves it.
pub open spec fn spec_trim(s: Seq<char>) -> Seq<char> {
    spec_trim_back(spec_trim_front(s))
}

proof fn lemma_trim_front_subrange(s: Seq<char>, lo: int)
    requires
        0 <= lo <= s.len(),
        forall|k: int| 0 <= k < lo ==> is_space_char(s[k]),
        lo < s.len() ==> !is_space_char(s[lo]),
    ensures
        spec_trim_front(s) == s.subrange(lo, s.len() as int),
    decreases lo,
{
    if lo == 0 {
        if s.len() > 0 && is_space_char(s[0]) {
            assert(false);
        }
        assert(s.subrange(0, s.len() as int) =~= s);
    } else {
        let t = s.drop_first();
        assert(forall|k: int| 0 <= k < lo - 1 ==> is_space_char(#[trigger] t[k]));
        lemma_trim_front_subrange(t, lo - 1);
        assert(t.subrange(lo - 1, t.len() as int) =~= s.subrange(lo, s.len() as int));
    }
}

proof fn lemma_trim_back_subrange(s: Seq<char>, hi: int)
    requires
        0 <= hi <= s.len(),
        forall|k: int| hi <= k < s.len() ==> is_space_char(s[k]),
        hi > 0 ==> !is_space_char(s[hi - 1]),
    ensures
        spec_trim_back(s) == s.subrange(0, hi),
    decreases s.len() - hi,
{
    if hi == s.len() {
        if s.len() > 0 && is_space_char(s.last()) {
            assert(false);
        }
        assert(s.subrange(0, s.len() as int) =~= s);
    } else {
        let t = s.drop_last();
        lemma_trim_back_subrange(t, hi);
        assert(t.subrange(0, hi) =~= s.subrange(0, hi));
    }
}

/// Trimming a second time changes nothing.
pub proof fn lemma_trim_idempotent(s: Seq<char>)
    ensures
        spec_trim(spec_trim(s)) == spec_trim(s),
{
    lemma_trim_front_all_space(s);
    let f = spec_trim_front(s);
    let t = spec_trim_back(f);
    lemma_trim_back_all_space(f);
    if t.len() > 0 {
        assert(!is_space_char(f[0]));
        assert(t[0] == f[0]);
        lemma_trim_front_subrange(t, 0);
        assert(spec_trim_front(t) == t.subrange(0, t.len() as int));
        assert(t.subrange(0, t.len() as int) =~= t);
        assert(spec_trim_back(t) == t);
    } else {
        assert(spec_trim_front(t) == t);
        assert(spec_trim_back(t) == t);
    }
}

/// After `spec_trim_front`, either the result is empty or it starts with a
/// non-space character; and it is a suffix of `s`.
proof fn lemma_trim_front_all_space(s: Seq<char>)
    ensures
        spec_trim_front(s).len() > 0 ==> !is_space_char(spec_trim_front(s)[0]),
        spec_trim_front(s).len() <= s.len(),
        forall|k: int|
            0 <= k < spec_trim_front(s).len() ==> spec_trim_front(s)[k] == s[k + s.len()
                - spec_trim_front(s).len()],
    decreases s.len(),
{
    if s.len() > 0 && is_space_char(s[0]) {
        lemma_trim_front_all_space(s.drop_first());
    }
}

/// After `spec_trim_back`, either the result is empty or it ends with a
/// non-space character; and it is a prefix of `s`.
proof fn lemma_trim_back_all_space(s: Seq<char>)
    ensures
        spec_trim_back(s).len() > 0 ==> !is_space_char(spec_trim_back(s).last()),
        spec_trim_back(s).len() <= s.len(),
        forall|k: int| 0 <= k < spec_trim_back(s).len() ==> spec_trim_back(s)[k] == s[k],
    decreases s.len(),
{
    if s.len() > 0 && is_space_char(s.last()) {
        let t = s.drop_last();
        lemma_trim_back_all_space(t);
        assert(forall|k: int| 0 <= k < t.len() ==> t[k] == s[k]);
    }
}

/// Remove leading and trailing whitespace from `s`.
pub fn trim_str(s: &str) -> (r: String)
    ensures
        r@ == spec_trim(s@),
{
    let n = s.unicode_len();
    let mut lo: usize = 0;
    while lo < n && is_space(s.get_char(lo))
        invariant
            0 <= lo <= n,
            n == s@.len(),
            forall|k: int| 0 <= k < lo ==> is_space_char(s@[k]),
        decreases n - lo,
    {
        lo = lo + 1;
    }
    let mut hi: usize = n;
    while hi > lo && is_space(s.get_char(hi - 1))
        invariant
            lo <= hi <= n,
            n == s@.len(),
            forall|k: int| 0 <= k < lo ==> is_space_char(s@[k]),
            lo < s@.len() ==> !is_space_char(s@[lo as int]),
            forall|k: int| hi <= k < n ==> is_space_char(s@[k]),
        decreases hi,
    {
        hi = hi - 1;
    }
    let sub = s.substring_char(lo, hi);
    let r = sub.to_owned();
    proof {
        lemma_trim_front_subrange(s@, lo as int);
        let f = spec_trim_front(s@);
        if hi == lo {
            lemma_trim_back_subrange(f, 0);
            assert(r@ =~= f.subrange(0, 0));
        } else {
            assert(!is_space_char(s@[hi - 1]));
            lemma_trim_back_subrange(f, hi - lo);
            assert(r@ =~= f.subrange(0, hi - lo));
        }
    }
    r
}

/// The views of a sequence of strings: each item as its character sequence.
pub open spec fn views(items: Seq<String>) -> Seq<Seq<char>> {
    items.map_values(|s: String| s@)
}

/// Index of the first occurrence of `c` in `s`, or `s.len()` if absent.
pub open spec fn find_char(s: Seq<char>, c: char) -> int
    decreases s.len(),
{
    if s.len() == 0 {
        0
    } else if s[0] == c {
        0
    } else {
        1 + find_char(s.drop_first(), c)
    }
}

/// What `find_char` returns: in range, nothing before it matches, and it
/// points at a match unless `c` is absent.
pub proof fn lemma_find_char(s: Seq<char>, c: char)
    ensures
        0 <= find_char(s, c) <= s.len(),
        forall|k: int| 0 <= k < find_char(s, c) ==> s[k] != c,
        find_char(s, c) < s.len() ==> s[find_char(s, c)] == c,
    decreases s.len(),
{
    if s.len() > 0 && s[0] != c {
        let t = s.drop_first();
        lemma_find_char(t, c);
        assert(forall|k: int| 1 <= k < find_char(s, c) ==> s[k] == t[k - 1]);
    }
}

/// `find_char` is pinned by any position that is a first occurrence.
pub proof fn lemma_find_char_is(s: Seq<char>, c: char, j: int)
    requires
        0 <= j <= s.len(),
        forall|k: int| 0 <= k < j ==> s[k] != c,
        j < s.len() ==> s[j] == c,
    ensures
        find_char(s, c) == j,
    decreases s.len(),
{
    if s.len() > 0 && s[0] != c {
        let t = s.drop_first();
        assert(forall|k: int| 0 <= k < j - 1 ==> t[k] != c);
        lemma_find_char_is(t, c, j - 1);
    }
}

/// Appends one character to a string.
///
/// Relies on `String::push`: appends the character to the end of the string.
#[verifier::external_body]
pub fn push_char(s: &mut String, c: char)
    ensures
        final(s)@ == old(s)@.push(c),
{
    s.push(c);
}

/// Removing later duplicates, keeping the first occurrence of each value.
pub open spec fn spec_dedup<A>(m: Seq<A>) -> Seq<A>
    decreases m.len(),
{
    if m.len() == 0 {
        m
    } else {
        let p = spec_dedup(m.drop_last());
        if m.drop_last().contains(m.last()) {
            p
        } else {
            p.push(m.last())
        }
    }
}

/// Deduplication keeps exactly the values of the input, removes all
/// duplicates, and never grows the sequence.
pub proof fn lemma_dedup_props<A>(m: Seq<A>)
    ensures
        forall|x: A| #[trigger] spec_dedup(m).contains(x) <==> m.contains(x),
        spec_dedup(m).no_duplicates(),
        spec_dedup(m).len() <= m.len(),
    decreases m.len(),
{
    if m.len() == 0 {
    } else {
        let d = m.drop_last();
        let x = m.last();
        lemma_dedup_props(d);
        let p = spec_dedup(d);
        assert forall|y: A| #[trigger] spec_dedup(m).contains(y) <==> m.contains(y) by {
            if m.contains(y) {
                let i = choose|i: int| 0 <= i < m.len() && m[i] == y;
                if i < m.len() - 1 {
                    assert(d[i] == y);
                    assert(d.contains(y));
                } else {
                    assert(y == x);
                }
                if d.contains(x) {
                    if !d.contains(y) {
                        assert(y == x);
                        let w = choose|w: int| 0 <= w < d.len() && d[w] == x;
                        assert(d[w] == y);
                        assert(d.contains(y));
                    }
                    assert(p.contains(y));
                } else {
                    if d.contains(y) {
                        assert(p.contains(y));
                        let j = choose|j: int| 0 <= j < p.len() && p[j] == y;
                        assert(p.push(x)[j] == y);
                        assert(p.push(x).contains(y));
                    } else {
                        assert(y == x);
                        assert(p.push(x)[p.len() as int] == y);
                        assert(p.push(x).contains(y));
                    }
                }
            }
            if spec_dedup(m).contains(y) {
                if d.contains(x) {
                    assert(p.contains(y));
                    assert(d.contains(y));
                    let i = choose|i: int| 0 <= i < d.len() && d[i] == y;
                    assert(m[i] == y);
                    assert(m.contains(y));
                } else {
                    let j = choose|j: int| 0 <= j < p.push(x).len() && p.push(x)[j] == y;
                    if j < p.len() {
                        assert(p[j] == y);
                        assert(p.contains(y));
                        assert(d.contains(y));
                        let i = choose|i: int| 0 <= i < d.len() && d[i] == y;
                        assert(m[i] == y);
                        assert(m.contains(y));
                    } else {
                        assert(y == x);
                        assert(m[m.len() - 1] == y);
                        assert(m.contains(y));
                    }
                }
            }
        }
        if !d.contains(x) {
            assert(!p.contains(x));
            let e = p.push(x);
            assert forall|i: int, j: int|
                0 <= i < e.len() && 0 <= j < e.len() && i != j implies e[i] != e[j] by {
                if i < p.len() && j < p.len() {
                } else if j == p.len() {
                    if e[i] == x {
                        assert(p[i] == x);
                        assert(p.contains(x));
                    }
                } else {
                    if e[j] == x {
                        assert(p[j] == x);
                        assert(p.contains(x));
                    }
                }
            }
        }
    }
}

/// A sequence without duplicates deduplicates to itself.
pub proof fn lemma_dedup_of_distinct<A>(m: Seq<A>)
    requires
        m.no_duplicates(),
    ensures
        spec_dedup(m) == m,
    decreases m.len(),
{
    if m.len() > 0 {
        let d = m.drop_last();
        let x = m.last();
        assert(d.no_duplicates());
        lemma_dedup_of_distinct(d);
        if d.contains(x) {
            let i = choose|i: int| 0 <= i < d.len() && d[i] == x;
            assert(m[i] == m[m.len() - 1]);
            assert(false);
        }
        assert(spec_dedup(m) =~= m);
    }
}

/// Having no duplicates is preserved under permutation.
pub proof fn lemma_no_dups_perm<A>(m1: Seq<A>, m2: Seq<A>)
    requires
        m1.to_multiset() == m2.to_multiset(),
        m1.no_duplicates(),
    ensures
        m2.no_duplicates(),
{
    m1.lemma_multiset_has_no_duplicates();
    m2.lemma_multiset_has_no_duplicates_conv();
}

/// Whether some string of `v` has exactly the characters of `x`.
pub fn contains_string(v: &Vec<String>, x: &String) -> (r: bool)
    ensures
        r == views(v@).contains(x@),
{
    let mut i: usize = 0;
    while i < v.len()
        invariant
            0 <= i <= v@.len(),
            forall|j: int| 0 <= j < i ==> views(v@)[j] != x@,
        decreases v@.len() - i,
    {
        if v[i] == *x {
            proof {
                assert(views(v@)[i as int] == x@);
            }
            return true;
        }
        i = i + 1;
    }
    proof {
        if views(v@).contains(x@) {
            let j = choose|j: int| 0 <= j < views(v@).len() && views(v@)[j] == x@;
            assert(false);
        }
    }
    false
}

/// A fresh copy of a vector of strings.
pub fn clone_strings(v: &Vec<String>) -> (r: Vec<String>)
    ensures
        r@ == v@,
{
    let mut r: Vec<String> = Vec::new();
    let mut i: usize = 0;
    while i < v.len()
        invariant
            0 <= i <= v@.len(),
            r@ == v@.subrange(0, i as int),
        decreases v@.len() - i,
    {
        r.push(v[i].clone());
        proof {
            assert(v@.subrange(0, i + 1) =~= v@.subrange(0, i as int).push(v@[i as int]));
        }
        i = i + 1;
    }
    proof {
        assert(v@.subrange(0, v@.len() as int) =~= v@);
    }
    r
}

} // verus!
