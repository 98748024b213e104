//! Comparing two lists as sets of normalized keys.

use vstd::prelude::*;

use crate::operations::single_list::remove_duplicates;
use crate::sorting::{smart_kind, sort_items_smart, sorted_views};
use crate::text::{
    clone_strings, contains_string, lemma_dedup_props, spec_dedup, spec_trim, trim_str, views,
};

verus! {

/// Options for list comparison.
#[derive(Debug, Clone, Copy)]
pub struct CompareOptions {
    /// Whether comparison should be case-sensitive.
    pub case_sensitive: bool,
    /// Whether to trim spaces before comparison.
    pub trim_spaces: bool,
}

impl Default for CompareOptions {
    /// The default comparison: case-insensitive, trimming.
    fn default() -> (r: Self)
        ensures
            !r.case_sensitive,
            r.trim_spaces,
    {
        CompareOptions { case_sensitive: false, trim_spaces: true }
    }
}

/// The lowercase form of a text, as `str::to_lowercase` computes it.
pub uninterp spec fn lower_of(s: Seq<char>) -> Seq<char>;

/// Relies on `str::to_lowercase`: the result is a function of the
/// characters alone; an empty string stays empty; the result is itself
/// lowercase, so lowercasing it again changes nothing; and no character
/// lowercases to or from whitespace, so a trimmed text stays trimmed.
#[verifier::external_body]
fn to_lowercase_str(s: &str) -> (r: String)
    ensures
        r@ == lower_of(s@),
        s@.len() == 0 ==> r@.len() == 0,
        lower_of(r@) == r@,
        spec_trim(s@) == s@ ==> spec_trim(r@) == r@,
{
    s.to_lowercase()
}

/// The normalized form of an item under the given options: trimmed when
/// `trim_spaces` is set, then lowercased unless `case_sensitive` is set.
pub open spec fn spec_normalize(s: Seq<char>, o: CompareOptions) -> Seq<char> {
    let t = if o.trim_spaces {
        spec_trim(s)
    } else {
        s
    };
    if !o.case_sensitive {
        lower_of(t)
    } else {
        t
    }
}

/// Normalize an item according to comparison options. The second
/// condition is the idempotence of normalization: the result is its own
/// normal form, so normalizing it again changes nothing.
pub fn normalize_item(item: &String, options: CompareOptions) -> (r: String)
    ensures
        r@ == spec_normalize(item@, options),
        spec_normalize(r@, options) == r@,
{
    if options.trim_spaces {
        let t = trim_str(item.as_str());
        proof {
            crate::text::lemma_trim_idempotent(item@);
        }
        if !options.case_sensitive {
            to_lowercase_str(t.as_str())
        } else {
            t
        }
    } else {
        if !options.case_sensitive {
            to_lowercase_str(item.as_str())
        } else {
            item.clone()
        }
    }
}

/// The membership key of an item.
pub open spec fn key_of(s: Seq<char>, o: CompareOptions) -> Seq<char> {
    spec_normalize(s, o)
}

/// Whether some item of `m` has the key `k`.
pub open spec fn has_key(m: Seq<Seq<char>>, o: CompareOptions, k: Seq<char>) -> bool {
    exists|i: int| 0 <= i < m.len() && key_of(#[trigger] m[i], o) == k
}

/// The items of `a` whose key does not occur in `b`, in order, with
/// every occurrence kept.
pub open spec fn only_in_model(a: Seq<Seq<char>>, b: Seq<Seq<char>>, o: CompareOptions) -> Seq<
    Seq<char>,
> {
    a.filter(|s: Seq<char>| !has_key(b, o, key_of(s, o)))
}

/// The items of `a` whose key occurs in `b`, in order.
pub open spec fn inter_model(a: Seq<Seq<char>>, b: Seq<Seq<char>>, o: CompareOptions) -> Seq<
    Seq<char>,
> {
    a.filter(|s: Seq<char>| has_key(b, o, key_of(s, o)))
}

/// The distinct original items of both lists, first occurrence first.
pub open spec fn union_model(a: Seq<Seq<char>>, b: Seq<Seq<char>>) -> Seq<Seq<char>> {
    spec_dedup(a + b)
}

/// Result of comparing two lists. Each entry is an original item from
/// whichever input list produced it, and all four sequences come out
/// smart-sorted ascending.
#[derive(Debug, Clone)]
pub struct CompareResult {
    /// Items only in the first list.
    pub only_in_first: Vec<String>,
    /// Items only in the second list.
    pub only_in_second: Vec<String>,
    /// Items in both lists (intersection).
    pub intersection: Vec<String>,
    /// All distinct items from both lists (union).
    pub union: Vec<String>,
}

/// The normalized key of every item, in order.
fn normalize_all(items: &Vec<String>, options: CompareOptions) -> (r: Vec<String>)
    ensures
        r@.len() == items@.len(),
        forall|i: int| 0 <= i < r@.len() ==> #[trigger] r@[i]@ == key_of(items@[i]@, options),
{
    let mut r: Vec<String> = Vec::new();
    let mut i: usize = 0;
    while i < items.len()
        invariant
            0 <= i <= items@.len(),
            r@.len() == i,
            forall|j: int| 0 <= j < i ==> #[trigger] r@[j]@ == key_of(items@[j]@, options),
        decreases items@.len() - i,
    {
        r.push(normalize_item(&items[i], options));
        i = i + 1;
    }
    r
}

/// Whether the key of `x` occurs among the precomputed keys of a list.
/// `keys` must hold `key_of` of each item of the list, in order.
fn key_found(keys: &Vec<String>, key: &String, Ghost(b): Ghost<Seq<Seq<char>>>, o: CompareOptions) -> (r:
    bool)
    requires
        keys@.len() == b.len(),
        forall|j: int| 0 <= j < keys@.len() ==> #[trigger] keys@[j]@ == key_of(b[j], o),
    ensures
        r == has_key(b, o, key@),
{
    let r = contains_string(keys, key);
    proof {
        if r {
            let j = choose|j: int| 0 <= j < views(keys@).len() && views(keys@)[j] == key@;
            assert(keys@[j]@ == key@);
            assert(key_of(b[j], o) == key@);
        } else {
            if has_key(b, o, key@) {
                let j = choose|j: int| 0 <= j < b.len() && key_of(b[j], o) == key@;
                assert(views(keys@)[j] == key@);
                assert(views(keys@).contains(key@));
            }
        }
    }
    r
}

/// Compare two lists and return the differences and common elements.
///
/// The ensured conditions pin each output as a multiset: `only_in_first`
/// holds the items of the first list whose key is absent from the
/// second, `only_in_second` the same with the lists exchanged (so
/// comparing the lists in either order yields the same one-sided
/// differences), `intersection` the items of the first list whose key
/// the second list also has, and `union` the distinct original items of
/// both lists. All four come out smart-sorted ascending.
pub fn compare_lists(list1: &Vec<String>, list2: &Vec<String>, options: CompareOptions) -> (r:
    CompareResult)
    ensures
        ({
            let a = views(list1@);
            let b = views(list2@);
            &&& views(r.only_in_first@).to_multiset() == only_in_model(a, b, options).to_multiset()
            &&& sorted_views(
                smart_kind(only_in_model(a, b, options)),
                true,
                views(r.only_in_first@),
            )
            &&& views(r.only_in_second@).to_multiset() == only_in_model(
                b,
                a,
                options,
            ).to_multiset()
            &&& sorted_views(
                smart_kind(only_in_model(b, a, options)),
                true,
                views(r.only_in_second@),
            )
            &&& views(r.intersection@).to_multiset() == inter_model(a, b, options).to_multiset()
            &&& sorted_views(smart_kind(inter_model(a, b, options)), true, views(r.intersection@))
            &&& views(r.union@).to_multiset() == union_model(a, b).to_multiset()
            &&& sorted_views(smart_kind(union_model(a, b)), true, views(r.union@))
        }),
{
    let ghost a = views(list1@);
    let ghost b = views(list2@);
    let keys1 = normalize_all(list1, options);
    let keys2 = normalize_all(list2, options);
    let mut only1: Vec<String> = Vec::new();
    let mut inter: Vec<String> = Vec::new();
    proof {
        reveal(Seq::filter);
        assert(a.subrange(0, 0) =~= Seq::<Seq<char>>::empty());
        assert(views(only1@) =~= only_in_model(a.subrange(0, 0), b, options));
        assert(views(inter@) =~= inter_model(a.subrange(0, 0), b, options));
    }
    let mut i: usize = 0;
    while i < list1.len()
        invariant
            0 <= i <= list1@.len(),
            a == views(list1@),
            b == views(list2@),
            keys1@.len() == list1@.len(),
            keys2@.len() == list2@.len(),
            forall|j: int| 0 <= j < keys1@.len() ==> #[trigger] keys1@[j]@ == key_of(a[j], options),
            forall|j: int| 0 <= j < keys2@.len() ==> #[trigger] keys2@[j]@ == key_of(b[j], options),
            views(only1@) == only_in_model(a.subrange(0, i as int), b, options),
            views(inter@) == inter_model(a.subrange(0, i as int), b, options),
        decreases list1@.len() - i,
    {
        proof {
            assert(keys1@[i as int]@ == key_of(a[i as int], options));
        }
        let in2 = key_found(&keys2, &keys1[i], Ghost(b), options);
        let ghost pfx = a.subrange(0, i as int);
        let ghost xe = a[i as int];
        proof {
            reveal(Seq::filter);
            assert(a.subrange(0, i + 1) =~= pfx.push(xe));
            assert(pfx.push(xe).drop_last() =~= pfx);
        }
        if !in2 {
            let ghost old_views = views(only1@);
            only1.push(list1[i].clone());
            proof {
                assert(views(only1@) =~= old_views.push(xe));
            }
        } else {
            let ghost old_views = views(inter@);
            inter.push(list1[i].clone());
            proof {
                assert(views(inter@) =~= old_views.push(xe));
            }
        }
        i = i + 1;
    }
    proof {
        assert(a.subrange(0, a.len() as int) =~= a);
    }
    let mut only2: Vec<String> = Vec::new();
    proof {
        reveal(Seq::filter);
        assert(b.subrange(0, 0) =~= Seq::<Seq<char>>::empty());
        assert(views(only2@) =~= only_in_model(b.subrange(0, 0), a, options));
    }
    let mut i2: usize = 0;
    while i2 < list2.len()
        invariant
            0 <= i2 <= list2@.len(),
            a == views(list1@),
            b == views(list2@),
            keys1@.len() == list1@.len(),
            keys2@.len() == list2@.len(),
            forall|j: int| 0 <= j < keys1@.len() ==> #[trigger] keys1@[j]@ == key_of(a[j], options),
            forall|j: int| 0 <= j < keys2@.len() ==> #[trigger] keys2@[j]@ == key_of(b[j], options),
            views(only2@) == only_in_model(b.subrange(0, i2 as int), a, options),
        decreases list2@.len() - i2,
    {
        proof {
            assert(keys2@[i2 as int]@ == key_of(b[i2 as int], options));
        }
        let in1 = key_found(&keys1, &keys2[i2], Ghost(a), options);
        let ghost pfx = b.subrange(0, i2 as int);
        let ghost xe = b[i2 as int];
        proof {
            reveal(Seq::filter);
            assert(b.subrange(0, i2 + 1) =~= pfx.push(xe));
            assert(pfx.push(xe).drop_last() =~= pfx);
        }
        if !in1 {
            let ghost old_views = views(only2@);
            only2.push(list2[i2].clone());
            proof {
                assert(views(only2@) =~= old_views.push(xe));
            }
        }
        i2 = i2 + 1;
    }
    proof {
        assert(b.subrange(0, b.len() as int) =~= b);
    }
    let mut combined = clone_strings(list1);
    let mut i3: usize = 0;
    while i3 < list2.len()
        invariant
            0 <= i3 <= list2@.len(),
            combined@ == list1@ + list2@.subrange(0, i3 as int),
        decreases list2@.len() - i3,
    {
        combined.push(list2[i3].clone());
        proof {
            assert(list1@ + list2@.subrange(0, i3 + 1) =~= (list1@ + list2@.subrange(
                0,
                i3 as int,
            )).push(list2@[i3 as int]));
        }
        i3 = i3 + 1;
    }
    proof {
        assert(combined@ =~= list1@ + list2@);
        assert(views(combined@) =~= a + b);
    }
    let union0 = remove_duplicates(&combined);
    let only_in_first = sort_items_smart(&only1, true);
    let only_in_second = sort_items_smart(&only2, true);
    let intersection = sort_items_smart(&inter, true);
    let union = sort_items_smart(&union0, true);
    CompareResult { only_in_first, only_in_second, intersection, union }
}

/// Totality of the comparison: every item of the first list lands in
/// exactly one of `only_in_first` and `intersection` (their multisets
/// sum to the whole list), and the union holds each distinct original
/// item of either list exactly once.
pub proof fn lemma_compare_totality(a: Seq<Seq<char>>, b: Seq<Seq<char>>, o: CompareOptions)
    ensures
        only_in_model(a, b, o).to_multiset().add(inter_model(a, b, o).to_multiset())
            == a.to_multiset(),
        forall|x: Seq<char>|
            #[trigger] union_model(a, b).contains(x) <==> a.contains(x) || b.contains(x),
        union_model(a, b).no_duplicates(),
    decreases a.len(),
{
    broadcast use vstd::seq_lib::to_multiset_build;
    broadcast use vstd::seq_lib::group_to_multiset_ensures;
    broadcast use vstd::multiset::group_multiset_axioms;

    lemma_dedup_props(a + b);
    assert forall|x: Seq<char>|
        #[trigger] union_model(a, b).contains(x) <==> a.contains(x) || b.contains(x) by {
        if (a + b).contains(x) {
            let i = choose|i: int| 0 <= i < (a + b).len() && (a + b)[i] == x;
            if i < a.len() {
                assert(a[i] == x);
                assert(a.contains(x));
            } else {
                assert(b[i - a.len()] == x);
                assert(b.contains(x));
            }
        }
        if a.contains(x) {
            let i = choose|i: int| 0 <= i < a.len() && a[i] == x;
            assert((a + b)[i] == x);
            assert((a + b).contains(x));
        }
        if b.contains(x) {
            let i = choose|i: int| 0 <= i < b.len() && b[i] == x;
            assert((a + b)[a.len() + i] == x);
            assert((a + b).contains(x));
        }
    }
    // partition of the first list by key membership
    if a.len() == 0 {
        reveal(Seq::filter);
        assert(only_in_model(a, b, o) =~= a);
        assert(inter_model(a, b, o) =~= a);
        assert forall|x: Seq<char>| #[trigger] a.to_multiset().count(x) == 0 by {
            if a.to_multiset().count(x) > 0 {
                assert(a.contains(x));
            }
        }
        assert(only_in_model(a, b, o).to_multiset().add(inter_model(a, b, o).to_multiset())
            =~= a.to_multiset());
    } else {
        let p = a.drop_last();
        let x = a.last();
        lemma_compare_totality(p, b, o);
        reveal(Seq::filter);
        assert(a =~= p.push(x));
        assert(a.to_multiset() == p.to_multiset().insert(x));
        let m_only = only_in_model(p, b, o).to_multiset();
        let m_inter = inter_model(p, b, o).to_multiset();
        if has_key(b, o, key_of(x, o)) {
            assert(only_in_model(a, b, o).to_multiset() == m_only);
            assert(inter_model(a, b, o).to_multiset() == m_inter.insert(x));
            assert(m_only.add(m_inter.insert(x)) =~= m_only.add(m_inter).insert(x));
        } else {
            assert(only_in_model(a, b, o).to_multiset() == m_only.insert(x));
            assert(inter_model(a, b, o).to_multiset() == m_inter);
            assert(m_only.insert(x).add(m_inter) =~= m_only.add(m_inter).insert(x));
        }
    }
}

} // verus!
