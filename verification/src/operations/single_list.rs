//! Operations for single list manipulation: trim, dedup, smart sort,
//! and the pipeline that composes them.

use vstd::prelude::*;

use crate::sorting::{smart_kind, sort_items_smart, sorted_views};
use crate::text::{
    clone_strings, contains_string, lemma_dedup_of_distinct, lemma_dedup_props, lemma_no_dups_perm,
    lemma_trim_idempotent, spec_dedup, spec_trim, trim_str, views,
};

verus! {

/// Result of single list operations.
#[derive(Debug, Clone)]
pub struct SingleListResult {
    /// The processed items.
    pub items: Vec<String>,
    /// Total count of items, measured on the processed sequence.
    pub total_count: usize,
    /// Count of distinct items, measured on the processed sequence.
    pub unique_count: usize,
}

/// Every item trimmed.
pub open spec fn trim_all(m: Seq<Seq<char>>) -> Seq<Seq<char>> {
    m.map_values(|s: Seq<char>| spec_trim(s))
}

/// Whether every item already carries no leading or trailing whitespace.
pub open spec fn all_trimmed(m: Seq<Seq<char>>) -> bool {
    forall|i: int| 0 <= i < m.len() ==> spec_trim(#[trigger] m[i]) == m[i]
}

/// The trim stage of the pipeline.
pub open spec fn stage_trim(m: Seq<Seq<char>>, on: bool) -> Seq<Seq<char>> {
    if on {
        trim_all(m)
    } else {
        m
    }
}

/// The dedup stage of the pipeline.
pub open spec fn stage_dedup(m: Seq<Seq<char>>, on: bool) -> Seq<Seq<char>> {
    if on {
        spec_dedup(m)
    } else {
        m
    }
}

/// Whether `m` is a fixed point of the pipeline with the given flags:
/// feeding such a list through the pipeline again changes nothing, which
/// is the idempotence of the pipeline (each stage is idempotent, and the
/// later stages preserve what the earlier ones established).
pub open spec fn pipeline_fixed(
    m: Seq<Seq<char>>,
    trim: bool,
    dedup: bool,
    sort_asc: bool,
    sort_desc: bool,
) -> bool {
    &&& (trim ==> all_trimmed(m))
    &&& (dedup ==> m.no_duplicates())
    &&& (sort_asc ==> sorted_views(smart_kind(m), true, m))
    &&& (!sort_asc && sort_desc ==> sorted_views(smart_kind(m), false, m))
}

/// Trim whitespace from all items in a list.
pub fn trim_spaces(items: &Vec<String>) -> (r: Vec<String>)
    ensures
        views(r@) == trim_all(views(items@)),
{
    let mut r: Vec<String> = Vec::new();
    let mut i: usize = 0;
    while i < items.len()
        invariant
            0 <= i <= items@.len(),
            views(r@) == trim_all(views(items@)).subrange(0, i as int),
        decreases items@.len() - i,
    {
        let ghost old_views = views(r@);
        r.push(trim_str(items[i].as_str()));
        proof {
            assert(views(r@) =~= old_views.push(spec_trim(items@[i as int]@)));
            assert(trim_all(views(items@)).subrange(0, i + 1) =~= trim_all(
                views(items@),
            ).subrange(0, i as int).push(trim_all(views(items@))[i as int]));
        }
        i = i + 1;
    }
    proof {
        assert(trim_all(views(items@)).subrange(0, items@.len() as int) =~= trim_all(
            views(items@),
        ));
    }
    r
}

/// Remove duplicate items from a list, keeping the first occurrence of
/// each value and preserving the remaining order.
pub fn remove_duplicates(items: &Vec<String>) -> (r: Vec<String>)
    ensures
        views(r@) == spec_dedup(views(items@)),
{
    let mut r: Vec<String> = Vec::new();
    let mut i: usize = 0;
    proof {
        assert(views(items@).subrange(0, 0) =~= Seq::<Seq<char>>::empty());
        assert(views(r@) =~= spec_dedup(views(items@).subrange(0, 0)));
    }
    while i < items.len()
        invariant
            0 <= i <= items@.len(),
            views(r@) == spec_dedup(views(items@).subrange(0, i as int)),
        decreases items@.len() - i,
    {
        let ghost pfx = views(items@).subrange(0, i as int);
        let ghost xe = items@[i as int]@;
        proof {
            lemma_dedup_props(pfx);
            assert(views(items@).subrange(0, i + 1) =~= pfx.push(xe));
            assert(pfx.push(xe).drop_last() =~= pfx);
        }
        let seen = contains_string(&r, &items[i]);
        if !seen {
            let ghost old_views = views(r@);
            r.push(items[i].clone());
            proof {
                assert(views(r@) =~= old_views.push(xe));
            }
        }
        i = i + 1;
    }
    proof {
        assert(views(items@).subrange(0, items@.len() as int) =~= views(items@));
    }
    r
}

/// Sort items in ascending order: numerically when every item is
/// numeric, alphabetically otherwise.
pub fn sort_ascending(items: &Vec<String>) -> (r: Vec<String>)
    ensures
        r@.len() == items@.len(),
        views(r@).to_multiset() == views(items@).to_multiset(),
        sorted_views(smart_kind(views(items@)), true, views(r@)),
        sorted_views(smart_kind(views(items@)), true, views(items@)) ==> views(r@) == views(
            items@,
        ),
{
    sort_items_smart(items, true)
}

/// Sort items in descending order: numerically when every item is
/// numeric, alphabetically otherwise.
pub fn sort_descending(items: &Vec<String>) -> (r: Vec<String>)
    ensures
        r@.len() == items@.len(),
        views(r@).to_multiset() == views(items@).to_multiset(),
        sorted_views(smart_kind(views(items@)), false, views(r@)),
        sorted_views(smart_kind(views(items@)), false, views(items@)) ==> views(r@) == views(
            items@,
        ),
{
    sort_items_smart(items, false)
}

/// Count total and distinct items.
pub fn count_items(items: &Vec<String>) -> (r: (usize, usize))
    ensures
        r.0 == items@.len(),
        r.1 == spec_dedup(views(items@)).len(),
{
    let distinct = remove_duplicates(items);
    proof {
        assert(views(distinct@).len() == distinct@.len());
    }
    (items.len(), distinct.len())
}

/// Trimmed-ness of every item carries over to any list whose values all
/// occur in the first.
proof fn lemma_all_trimmed_subset(m1: Seq<Seq<char>>, m2: Seq<Seq<char>>)
    requires
        all_trimmed(m1),
        forall|x: Seq<char>| m2.contains(x) ==> m1.contains(x),
    ensures
        all_trimmed(m2),
{
    assert forall|i: int| 0 <= i < m2.len() implies spec_trim(#[trigger] m2[i]) == m2[i] by {
        assert(m2.contains(m2[i]));
        assert(m1.contains(m2[i]));
        let j = choose|j: int| 0 <= j < m1.len() && m1[j] == m2[i];
        assert(spec_trim(m1[j]) == m1[j]);
    }
}

/// Sequences with equal multisets contain the same values.
proof fn lemma_perm_contains(m1: Seq<Seq<char>>, m2: Seq<Seq<char>>)
    requires
        m1.to_multiset() == m2.to_multiset(),
    ensures
        forall|x: Seq<char>| m1.contains(x) <==> m2.contains(x),
{
    broadcast use vstd::seq_lib::group_to_multiset_ensures;

    assert forall|x: Seq<char>| m1.contains(x) <==> m2.contains(x) by {
        if m1.contains(x) {
            assert(m1.to_multiset().count(x) > 0);
            assert(m2.to_multiset().count(x) > 0);
        }
        if m2.contains(x) {
            assert(m2.to_multiset().count(x) > 0);
            assert(m1.to_multiset().count(x) > 0);
        }
    }
}

/// Apply the requested stages to a list, in the fixed order trim, dedup,
/// sort (ascending takes precedence over descending), and report the
/// counts of the processed sequence.
///
/// The last two conditions say the pipeline is idempotent: every output
/// is a fixed point of the pipeline, and a fixed point passes through
/// unchanged — so running the pipeline twice with the same flags yields
/// the output of the first run.
pub fn process_single_list(
    items: &Vec<String>,
    trim: bool,
    dedup: bool,
    sort_asc: bool,
    sort_desc: bool,
) -> (r: SingleListResult)
    ensures
        ({
            let m2 = stage_dedup(stage_trim(views(items@), trim), dedup);
            &&& (!sort_asc && !sort_desc ==> views(r.items@) == m2)
            &&& (sort_asc ==> views(r.items@).to_multiset() == m2.to_multiset() && sorted_views(
                smart_kind(m2),
                true,
                views(r.items@),
            ))
            &&& (!sort_asc && sort_desc ==> views(r.items@).to_multiset() == m2.to_multiset()
                && sorted_views(smart_kind(m2), false, views(r.items@)))
            &&& r.total_count == r.items@.len()
            &&& r.unique_count == spec_dedup(views(r.items@)).len()
            &&& pipeline_fixed(views(r.items@), trim, dedup, sort_asc, sort_desc)
            &&& (pipeline_fixed(views(items@), trim, dedup, sort_asc, sort_desc) ==> views(
                r.items@,
            ) == views(items@))
        }),
{
    let ghost m0 = views(items@);
    let ghost fixed_in = pipeline_fixed(m0, trim, dedup, sort_asc, sort_desc);
    let mut processed = clone_strings(items);
    if trim {
        processed = trim_spaces(&processed);
        proof {
            if fixed_in {
                assert(trim_all(m0) =~= m0);
            }
        }
    }
    let ghost m1 = views(processed@);
    proof {
        assert(m1 == stage_trim(m0, trim));
        if trim {
            assert forall|i: int| 0 <= i < m1.len() implies spec_trim(#[trigger] m1[i]) == m1[i] by {
                lemma_trim_idempotent(m0[i]);
            }
        }
    }
    if dedup {
        processed = remove_duplicates(&processed);
        proof {
            lemma_dedup_props(m1);
            if trim {
                lemma_all_trimmed_subset(m1, views(processed@));
            }
            if fixed_in && !trim {
                lemma_dedup_of_distinct(m0);
            }
            if fixed_in && trim {
                lemma_dedup_of_distinct(m1);
            }
        }
    }
    let ghost m2 = views(processed@);
    proof {
        assert(m2 == stage_dedup(m1, dedup));
        assert(trim ==> all_trimmed(m2));
        assert(dedup ==> m2.no_duplicates());
        if fixed_in {
            assert(m2 == m0);
        }
    }
    if sort_asc {
        processed = sort_items_smart(&processed, true);
    } else if sort_desc {
        processed = sort_items_smart(&processed, false);
    }
    let ghost m3 = views(processed@);
    proof {
        if sort_asc || sort_desc {
            crate::sorting::lemma_all_numeric_perm(m2, m3);
            lemma_perm_contains(m2, m3);
            if trim {
                lemma_all_trimmed_subset(m2, m3);
            }
            if dedup {
                lemma_no_dups_perm(m2, m3);
            }
        }
        assert(pipeline_fixed(m3, trim, dedup, sort_asc, sort_desc));
        if fixed_in {
            assert(m3 == m0);
        }
    }
    let counts = count_items(&processed);
    let total_count = counts.0;
    let unique_count = counts.1;
    SingleListResult { items: processed, total_count, unique_count }
}

} // verus!
