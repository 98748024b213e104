//! Smart sort: numeric order when every item is numeric, lexicographic
//! order otherwise, each in ascending or descending direction.

use vstd::prelude::*;

use crate::numeric::{
    is_numeric, is_numeric_str, lemma_char_eq, lemma_num_le_total, lemma_num_le_trans, num_cmp,
    num_le, Rel,
};
use crate::text::views;

verus! {

/// Lexicographic order on character sequences, by code point.
pub open spec fn lex_le(a: Seq<char>, b: Seq<char>) -> bool
    decreases a.len(),
{
    if a.len() == 0 {
        true
    } else if b.len() == 0 {
        false
    } else if a[0] == b[0] {
        lex_le(a.drop_first(), b.drop_first())
    } else {
        (a[0] as u32) < (b[0] as u32)
    }
}

pub proof fn lemma_lex_le_refl(a: Seq<char>)
    ensures
        lex_le(a, a),
    decreases a.len(),
{
    if a.len() > 0 {
        lemma_lex_le_refl(a.drop_first());
    }
}

/// The lexicographic order relates every pair.
pub proof fn lemma_lex_le_total(a: Seq<char>, b: Seq<char>)
    ensures
        lex_le(a, b) || lex_le(b, a),
    decreases a.len(),
{
    if a.len() == 0 || b.len() == 0 {
    } else if a[0] == b[0] {
        lemma_lex_le_total(a.drop_first(), b.drop_first());
    } else {
        if a[0] as u32 == b[0] as u32 {
            lemma_char_eq(a[0], b[0]);
        }
    }
}

/// The lexicographic order is transitive.
pub proof fn lemma_lex_le_trans(a: Seq<char>, b: Seq<char>, c: Seq<char>)
    requires
        lex_le(a, b),
        lex_le(b, c),
    ensures
        lex_le(a, c),
    decreases a.len(),
{
    if a.len() == 0 {
    } else {
        assert(b.len() > 0);
        assert(c.len() > 0);
        if a[0] == b[0] && b[0] == c[0] {
            lemma_lex_le_trans(a.drop_first(), b.drop_first(), c.drop_first());
        } else if a[0] == b[0] {
            assert(a[0] as u32 == b[0] as u32);
        } else if b[0] == c[0] {
            assert(b[0] as u32 == c[0] as u32);
            if a[0] as u32 == c[0] as u32 {
                lemma_char_eq(a[0], c[0]);
            }
        } else {
            if a[0] as u32 == c[0] as u32 {
                lemma_char_eq(a[0], c[0]);
            }
        }
    }
}

/// The lexicographic order is antisymmetric: mutually related texts are
/// equal.
pub proof fn lemma_lex_le_antisym(a: Seq<char>, b: Seq<char>)
    requires
        lex_le(a, b),
        lex_le(b, a),
    ensures
        a == b,
    decreases a.len(),
{
    if a.len() == 0 {
        assert(b.len() == 0);
        assert(a =~= b);
    } else {
        assert(b.len() > 0);
        if a[0] == b[0] {
            lemma_lex_le_antisym(a.drop_first(), b.drop_first());
            assert(forall|k: int| 1 <= k < a.len() ==> a[k] == a.drop_first()[k - 1]);
            assert(forall|k: int| 1 <= k < b.len() ==> b[k] == b.drop_first()[k - 1]);
            assert(a =~= b);
        } else {
            if a[0] as u32 == b[0] as u32 {
                lemma_char_eq(a[0], b[0]);
            }
        }
    }
}

/// A first difference (or a strict prefix) decides the lexicographic order.
proof fn lemma_lex_from_prefix(a: Seq<char>, b: Seq<char>, i: int)
    requires
        0 <= i <= a.len(),
        i <= b.len(),
        forall|k: int| 0 <= k < i ==> a[k] == b[k],
        (i < a.len() && i < b.len() && (a[i] as u32) < (b[i] as u32)) || (i == a.len() && i
            < b.len()),
    ensures
        lex_le(a, b),
        !lex_le(b, a),
    decreases i,
{
    if i == 0 {
        if a.len() == 0 {
        } else {
            if a[0] as u32 == b[0] as u32 {
                lemma_char_eq(a[0], b[0]);
            }
            assert(a[0] != b[0]);
        }
    } else {
        let at = a.drop_first();
        let bt = b.drop_first();
        assert(a[0] == b[0]);
        assert(forall|k: int| 0 <= k < i - 1 ==> at[k] == bt[k]);
        lemma_lex_from_prefix(at, bt, i - 1);
    }
}

/// Three-way lexicographic comparison.
pub fn lex_cmp(a: &String, b: &String) -> (r: Rel)
    ensures
        (r == Rel::Gt <==> !lex_le(a@, b@)),
        (r == Rel::Lt <==> !lex_le(b@, a@)),
        (r == Rel::Eq <==> lex_le(a@, b@) && lex_le(b@, a@)),
{
    let sa = a.as_str();
    let sb = b.as_str();
    let na = sa.unicode_len();
    let nb = sb.unicode_len();
    let mut i: usize = 0;
    while i < na && i < nb
        invariant
            0 <= i <= na,
            0 <= i <= nb,
            na == a@.len(),
            nb == b@.len(),
            sa@ == a@,
            sb@ == b@,
            forall|k: int| 0 <= k < i ==> a@[k] == b@[k],
        decreases na - i,
    {
        let ca = sa.get_char(i);
        let cb = sb.get_char(i);
        let ua = ca as u32;
        let ub = cb as u32;
        if ua < ub {
            proof {
                lemma_lex_from_prefix(a@, b@, i as int);
            }
            return Rel::Lt;
        } else if ub < ua {
            proof {
                lemma_lex_from_prefix(b@, a@, i as int);
            }
            return Rel::Gt;
        }
        proof {
            lemma_char_eq(ca, cb);
        }
        i = i + 1;
    }
    if na == nb {
        proof {
            assert(a@ =~= b@);
            lemma_lex_le_refl(a@);
        }
        Rel::Eq
    } else if na < nb {
        proof {
            lemma_lex_from_prefix(a@, b@, na as int);
        }
        Rel::Lt
    } else {
        proof {
            lemma_lex_from_prefix(b@, a@, nb as int);
        }
        Rel::Gt
    }
}

/// The two orders smart sort can apply.
pub enum SortKind {
    Numeric,
    Alpha,
}

/// The chosen base order, ignoring direction.
pub open spec fn base_le(k: SortKind, a: Seq<char>, b: Seq<char>) -> bool {
    match k {
        SortKind::Numeric => num_le(a, b),
        SortKind::Alpha => lex_le(a, b),
    }
}

/// The chosen order with its direction applied.
pub open spec fn kind_le(k: SortKind, asc: bool, a: Seq<char>, b: Seq<char>) -> bool {
    if asc {
        base_le(k, a, b)
    } else {
        base_le(k, b, a)
    }
}

pub proof fn lemma_kind_le_total(k: SortKind, asc: bool, a: Seq<char>, b: Seq<char>)
    ensures
        kind_le(k, asc, a, b) || kind_le(k, asc, b, a),
{
    match k {
        SortKind::Numeric => lemma_num_le_total(a, b),
        SortKind::Alpha => lemma_lex_le_total(a, b),
    }
}

pub proof fn lemma_kind_le_trans(k: SortKind, asc: bool, a: Seq<char>, b: Seq<char>, c: Seq<char>)
    requires
        kind_le(k, asc, a, b),
        kind_le(k, asc, b, c),
    ensures
        kind_le(k, asc, a, c),
{
    match k {
        SortKind::Numeric => {
            if asc {
                lemma_num_le_trans(a, b, c);
            } else {
                lemma_num_le_trans(c, b, a);
            }
        },
        SortKind::Alpha => {
            if asc {
                lemma_lex_le_trans(a, b, c);
            } else {
                lemma_lex_le_trans(c, b, a);
            }
        },
    }
}

/// What the numeric order needs of an element before it can be computed.
pub open spec fn kind_ok(k: SortKind, s: Seq<char>) -> bool {
    k == SortKind::Numeric ==> is_numeric_str(s)
}

/// Runtime check of the chosen base order.
fn base_le_exec(k: &SortKind, a: &String, b: &String) -> (r: bool)
    requires
        kind_ok(*k, a@),
        kind_ok(*k, b@),
    ensures
        r == base_le(*k, a@, b@),
{
    match k {
        SortKind::Numeric => match num_cmp(a, b) {
            Rel::Gt => false,
            _ => true,
        },
        SortKind::Alpha => match lex_cmp(a, b) {
            Rel::Gt => false,
            _ => true,
        },
    }
}

/// Runtime check of the directed order.
fn le_exec(k: &SortKind, asc: bool, a: &String, b: &String) -> (r: bool)
    requires
        kind_ok(*k, a@),
        kind_ok(*k, b@),
    ensures
        r == kind_le(*k, asc, a@, b@),
{
    if asc {
        base_le_exec(k, a, b)
    } else {
        base_le_exec(k, b, a)
    }
}

/// Whether the item views are sorted under the chosen order and direction.
pub open spec fn sorted_views(k: SortKind, asc: bool, m: Seq<Seq<char>>) -> bool {
    forall|i: int, j: int| 0 <= i < j < m.len() ==> kind_le(k, asc, m[i], m[j])
}

/// Stable insertion sort of the items under the chosen order. Keeps the
/// multiset of items, sorts them, and leaves an already-sorted input as
/// it stands.
pub fn sort_strings(items: &Vec<String>, k: SortKind, asc: bool) -> (r: Vec<String>)
    requires
        forall|i: int| 0 <= i < items@.len() ==> kind_ok(k, #[trigger] items@[i]@),
    ensures
        r@.len() == items@.len(),
        views(r@).to_multiset() == views(items@).to_multiset(),
        sorted_views(k, asc, views(r@)),
        sorted_views(k, asc, views(items@)) ==> views(r@) == views(items@),
{
    broadcast use vstd::seq_lib::to_multiset_insert;
    broadcast use vstd::seq_lib::to_multiset_build;

    let ghost v = views(items@);
    let mut out: Vec<String> = Vec::new();
    let mut idx: usize = 0;
    proof {
        assert(items@.subrange(0, 0) =~= Seq::<String>::empty());
        assert(views(out@) =~= views(items@.subrange(0, 0)));
        assert(views(out@) =~= v.subrange(0, 0));
    }
    while idx < items.len()
        invariant
            0 <= idx <= items@.len(),
            out@.len() == idx,
            v == views(items@),
            forall|i: int| 0 <= i < items@.len() ==> kind_ok(k, #[trigger] items@[i]@),
            forall|i: int| 0 <= i < out@.len() ==> kind_ok(k, #[trigger] out@[i]@),
            views(out@).to_multiset() == views(items@.subrange(0, idx as int)).to_multiset(),
            sorted_views(k, asc, views(out@)),
            sorted_views(k, asc, v) ==> views(out@) == v.subrange(0, idx as int),
        decreases items@.len() - idx,
    {
        broadcast use vstd::seq_lib::to_multiset_insert;
        broadcast use vstd::seq_lib::to_multiset_build;

        let x = items[idx].clone();
        let mut pos: usize = 0;
        while pos < out.len() && le_exec(&k, asc, &out[pos], &x)
            invariant
                0 <= pos <= out@.len(),
                x@ == items@[idx as int]@,
                idx < items@.len(),
                kind_ok(k, x@),
                forall|i: int| 0 <= i < out@.len() ==> kind_ok(k, #[trigger] out@[i]@),
                sorted_views(k, asc, views(out@)),
                forall|t: int| 0 <= t < pos ==> kind_le(k, asc, views(out@)[t], x@),
            decreases out@.len() - pos,
        {
            pos = pos + 1;
        }
        proof {
            assert(pos == out@.len() || !kind_le(k, asc, views(out@)[pos as int], x@));
        }
        let ghost old_out = out@;
        out.insert(pos, x);
        proof {
            let m0 = views(old_out);
            let m1 = views(out@);
            assert(m1 =~= m0.insert(pos as int, items@[idx as int]@));
            let xe = items@[idx as int]@;
            // the inserted sequence is still sorted
            assert forall|i: int, j: int| 0 <= i < j < m1.len() implies kind_le(
                k,
                asc,
                m1[i],
                m1[j],
            ) by {
                if pos < m0.len() {
                    lemma_kind_le_total(k, asc, m0[pos as int], xe);
                }
                if i == pos {
                    if j > pos && pos < m0.len() {
                        if j - 1 > pos {
                            lemma_kind_le_trans(k, asc, xe, m0[pos as int], m0[j - 1]);
                        }
                    }
                } else if j == pos {
                } else {
                }
            }
            // the multiset gains exactly the inserted element
            assert(m1.to_multiset() == m0.to_multiset().insert(xe));
            assert(views(items@.subrange(0, idx + 1)) =~= views(items@.subrange(0, idx as int)).push(
                xe,
            ));
            // when the input was already sorted the element lands at the end
            if sorted_views(k, asc, v) {
                assert(m0 == v.subrange(0, idx as int));
                if pos < m0.len() {
                    assert(kind_le(k, asc, v[pos as int], v[idx as int]));
                    assert(false);
                }
                assert(m1 =~= v.subrange(0, idx + 1));
            }
        }
        idx = idx + 1;
    }
    proof {
        assert(items@.subrange(0, items@.len() as int) =~= items@);
        if sorted_views(k, asc, v) {
            assert(views(out@) == v.subrange(0, v.len() as int));
            assert(v.subrange(0, v.len() as int) =~= v);
        }
    }
    out
}

/// Whether the list is non-empty and every item is a float token of
/// the numeric grammar.
pub open spec fn spec_all_numeric(m: Seq<Seq<char>>) -> bool {
    m.len() > 0 && forall|i: int| 0 <= i < m.len() ==> is_numeric_str(#[trigger] m[i])
}

/// Runtime check that the list is non-empty and all numeric.
pub fn all_numeric(items: &Vec<String>) -> (r: bool)
    ensures
        r == spec_all_numeric(views(items@)),
{
    if items.len() == 0 {
        return false;
    }
    let mut i: usize = 0;
    while i < items.len()
        invariant
            0 <= i <= items@.len(),
            forall|j: int| 0 <= j < i ==> is_numeric_str(#[trigger] views(items@)[j]),
        decreases items@.len() - i,
    {
        if !is_numeric(&items[i]) {
            proof {
                assert(views(items@)[i as int] == items@[i as int]@);
                assert(!spec_all_numeric(views(items@)));
            }
            return false;
        }
        i = i + 1;
    }
    true
}

/// The order smart sort picks for a list: numeric when every item is
/// numeric, lexicographic otherwise.
pub open spec fn smart_kind(m: Seq<Seq<char>>) -> SortKind {
    if spec_all_numeric(m) {
        SortKind::Numeric
    } else {
        SortKind::Alpha
    }
}

/// Sort items numerically when all are numeric, else lexicographically.
pub fn sort_items_smart(items: &Vec<String>, ascending: bool) -> (r: Vec<String>)
    ensures
        r@.len() == items@.len(),
        views(r@).to_multiset() == views(items@).to_multiset(),
        sorted_views(smart_kind(views(items@)), ascending, views(r@)),
        sorted_views(smart_kind(views(items@)), ascending, views(items@)) ==> views(r@) == views(
            items@,
        ),
{
    let k = if all_numeric(items) {
        SortKind::Numeric
    } else {
        SortKind::Alpha
    };
    proof {
        assert forall|i: int| 0 <= i < items@.len() implies kind_ok(k, #[trigger] items@[i]@) by {
            if k == SortKind::Numeric {
                assert(views(items@)[i] == items@[i]@);
                assert(is_numeric_str(views(items@)[i]));
            }
        }
    }
    sort_strings(items, k, ascending)
}

/// Two lexicographically sorted arrangements of the same items are the
/// same sequence: the conditions on the sort functions pin their result
/// exactly whenever the lexicographic order applies.
pub proof fn lemma_lex_sorted_unique(asc: bool, m1: Seq<Seq<char>>, m2: Seq<Seq<char>>)
    requires
        sorted_views(SortKind::Alpha, asc, m1),
        sorted_views(SortKind::Alpha, asc, m2),
        m1.to_multiset() == m2.to_multiset(),
    ensures
        m1 == m2,
    decreases m1.len(),
{
    broadcast use vstd::seq_lib::group_to_multiset_ensures;

    vstd::seq_lib::to_multiset_len(m1);
    vstd::seq_lib::to_multiset_len(m2);
    assert(m1.len() == m2.len());
    if m1.len() == 0 {
        assert(m1 =~= m2);
    } else {
        let x1 = m1[0];
        let x2 = m2[0];
        assert(m1.contains(x1));
        assert(m1.to_multiset().count(x1) > 0);
        assert(m2.contains(x1));
        let j2 = choose|j: int| 0 <= j < m2.len() && m2[j] == x1;
        assert(m2.contains(x2));
        assert(m2.to_multiset().count(x2) > 0);
        assert(m1.contains(x2));
        let j1 = choose|j: int| 0 <= j < m1.len() && m1[j] == x2;
        // each head relates to the other, so the heads are equal
        assert(kind_le(SortKind::Alpha, asc, x2, x1) || x2 == x1) by {
            if j2 > 0 {
                assert(kind_le(SortKind::Alpha, asc, m2[0], m2[j2]));
            }
        }
        assert(kind_le(SortKind::Alpha, asc, x1, x2) || x1 == x2) by {
            if j1 > 0 {
                assert(kind_le(SortKind::Alpha, asc, m1[0], m1[j1]));
            }
        }
        if x1 != x2 {
            if asc {
                lemma_lex_le_antisym(x1, x2);
            } else {
                lemma_lex_le_antisym(x2, x1);
            }
        }
        assert(x1 == x2);
        let t1 = m1.drop_first();
        let t2 = m2.drop_first();
        assert(t1 =~= m1.remove(0));
        assert(t2 =~= m2.remove(0));
        vstd::seq_lib::to_multiset_remove(m1, 0);
        vstd::seq_lib::to_multiset_remove(m2, 0);
        assert(t1.to_multiset() == t2.to_multiset());
        assert(sorted_views(SortKind::Alpha, asc, t1)) by {
            assert(forall|i: int, j: int|
                0 <= i < j < t1.len() ==> t1[i] == m1[i + 1] && t1[j] == m1[j + 1]);
        }
        assert(sorted_views(SortKind::Alpha, asc, t2)) by {
            assert(forall|i: int, j: int|
                0 <= i < j < t2.len() ==> t2[i] == m2[i + 1] && t2[j] == m2[j + 1]);
        }
        lemma_lex_sorted_unique(asc, t1, t2);
        assert(forall|k: int| 1 <= k < m1.len() ==> m1[k] == t1[k - 1]);
        assert(forall|k: int| 1 <= k < m2.len() ==> m2[k] == t2[k - 1]);
        assert(m1 =~= m2);
    }
}

/// A permutation of an all-numeric list is all numeric, and conversely.
pub proof fn lemma_all_numeric_perm(m1: Seq<Seq<char>>, m2: Seq<Seq<char>>)
    requires
        m1.to_multiset() == m2.to_multiset(),
    ensures
        spec_all_numeric(m1) == spec_all_numeric(m2),
{
    broadcast use vstd::seq_lib::group_to_multiset_ensures;

    vstd::seq_lib::to_multiset_len(m1);
    vstd::seq_lib::to_multiset_len(m2);
    assert(m1.len() == m2.len());
    if spec_all_numeric(m1) {
        assert forall|i: int| 0 <= i < m2.len() implies is_numeric_str(#[trigger] m2[i]) by {
            assert(m2.contains(m2[i]));
            assert(m2.to_multiset().count(m2[i]) > 0);
            assert(m1.contains(m2[i]));
            let j = choose|j: int| 0 <= j < m1.len() && m1[j] == m2[i];
            assert(is_numeric_str(m1[j]));
        }
    }
    if spec_all_numeric(m2) {
        assert forall|i: int| 0 <= i < m1.len() implies is_numeric_str(#[trigger] m1[i]) by {
            assert(m1.contains(m1[i]));
            assert(m1.to_multiset().count(m1[i]) > 0);
            assert(m2.contains(m1[i]));
            let j = choose|j: int| 0 <= j < m2.len() && m2[j] == m1[i];
            assert(is_numeric_str(m2[j]));
        }
    }
}

} // verus!
