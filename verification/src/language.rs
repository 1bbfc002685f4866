//! Year-over-year drift in the language of disclosed risk factors: how many
//! headings survived, which appeared and which disappeared.

use vstd::prelude::*;

use crate::drift::{drift_between, drifts_of, pair_views, year_pairs, year_pairs_of};
use crate::model::{
    LanguageDriftView, RiskFactorLanguageDrift, RiskFactorSection, SectionView, section_views,
};
use crate::text::{
    append_copies, chars_lt, chars_of, lemma_text_lt_total, lemma_text_lt_transitive,
    strictly_ascending, text_lt,
};

verus! {

broadcast use vstd::seq_lib::lemma_seq_contains_after_push;

/// The set of headings of a section.
pub open spec fn heading_set(s: SectionView) -> Set<Seq<char>> {
    s.risk_factors.to_set()
}

/// `d` is the language drift from section `prior` to section `current`:
/// it names both filings, counts the headings common to both years and those
/// present in either, and lists in ascending order the headings only in the
/// current year (`added`) and only in the prior year (`removed`).
pub open spec fn language_drift_between(
    d: LanguageDriftView,
    prior: SectionView,
    current: SectionView,
) -> bool {
    let p = heading_set(prior);
    let c = heading_set(current);
    &&& d.current == current.filing
    &&& d.prior == prior.filing
    &&& d.identical_count == p.intersect(c).len()
    &&& d.union_count == p.union(c).len()
    &&& strictly_ascending(d.added)
    &&& d.added.to_set() == c.difference(p)
    &&& strictly_ascending(d.removed)
    &&& d.removed.to_set() == p.difference(c)
}

/// `d` holds the language drifts of all year-over-year pairs of `s`, in the
/// order of `year_pairs(s)`.
pub open spec fn language_drifts_of(s: Seq<SectionView>, d: Seq<LanguageDriftView>) -> bool {
    let pairs = year_pairs(s);
    &&& d.len() == pairs.len()
    &&& forall|k: int|
        0 <= k < d.len() ==> language_drift_between(#[trigger] d[k], pairs[k].0, pairs[k].1)
}

/// The abstract values of a sequence of language drifts.
pub open spec fn language_drift_views(d: Seq<RiskFactorLanguageDrift>) -> Seq<LanguageDriftView> {
    d.map_values(|x: RiskFactorLanguageDrift| x@)
}

/// Whether `u` holds a string equal to `x`.
fn contains_text(u: &Vec<String>, x: &String) -> (r: bool)
    ensures
        r == u.deep_view().contains(x@),
{
    for i in 0..u.len()
        invariant
            forall|k: int| 0 <= k < i ==> u.deep_view()[k] != x@,
    {
        if u[i] == *x {
            assert(u.deep_view()[i as int] == x@);
            return true;
        }
    }
    false
}

/// The distinct strings of `v`, in order of first occurrence.
fn distinct_texts(v: &Vec<String>) -> (u: Vec<String>)
    ensures
        u.deep_view().no_duplicates(),
        u.deep_view().to_set() == v.deep_view().to_set(),
{
    let mut u: Vec<String> = Vec::new();
    for i in 0..v.len()
        invariant
            u.deep_view().no_duplicates(),
            forall|x: Seq<char>| u.deep_view().contains(x) <==> v.deep_view().take(i as int).contains(x),
    {
        let ghost before = u.deep_view();
        if !contains_text(&u, &v[i]) {
            u.push(v[i].clone());
            assert(u.deep_view() =~= before.push(v.deep_view()[i as int]));
        }
        assert(v.deep_view().take(i + 1) =~= v.deep_view().take(i as int).push(v.deep_view()[i as int]));
    }
    assert(v.deep_view().take(v.len() as int) =~= v.deep_view());
    assert(u.deep_view().to_set() =~= v.deep_view().to_set());
    u
}

/// The strings of `src` that `other` holds (`keep_common`), or that it does not.
fn select_texts(src: &Vec<String>, other: &Vec<String>, keep_common: bool) -> (r: Vec<String>)
    requires
        src.deep_view().no_duplicates(),
    ensures
        r.deep_view().no_duplicates(),
        keep_common ==> r.deep_view().to_set() == src.deep_view().to_set().intersect(
            other.deep_view().to_set(),
        ),
        !keep_common ==> r.deep_view().to_set() == src.deep_view().to_set().difference(
            other.deep_view().to_set(),
        ),
{
    let mut r: Vec<String> = Vec::new();
    for i in 0..src.len()
        invariant
            src.deep_view().no_duplicates(),
            r.deep_view().no_duplicates(),
            forall|x: Seq<char>|
                r.deep_view().contains(x) <==> (src.deep_view().take(i as int).contains(x) && (
                keep_common == other.deep_view().contains(x))),
    {
        let ghost before = r.deep_view();
        let present = contains_text(other, &src[i]);
        assert(src.deep_view().take(i + 1) =~= src.deep_view().take(i as int).push(
            src.deep_view()[i as int],
        ));
        if present == keep_common {
            assert(!before.contains(src.deep_view()[i as int]));
            r.push(src[i].clone());
            assert(r.deep_view() =~= before.push(src.deep_view()[i as int]));
        }
    }
    assert(src.deep_view().take(src.len() as int) =~= src.deep_view());
    assert(keep_common ==> r.deep_view().to_set() =~= src.deep_view().to_set().intersect(
        other.deep_view().to_set(),
    ));
    assert(!keep_common ==> r.deep_view().to_set() =~= src.deep_view().to_set().difference(
        other.deep_view().to_set(),
    ));
    r
}

} // verus!

verus! {

/// The strings of `v` in ascending lexicographic order.
pub fn sort_texts(v: &Vec<String>) -> (r: Vec<String>)
    requires
        v.deep_view().no_duplicates(),
    ensures
        strictly_ascending(r.deep_view()),
        r.deep_view().to_set() == v.deep_view().to_set(),
        r.len() == v.len(),
{
    let mut out: Vec<String> = Vec::new();
    let mut keys: Vec<Vec<char>> = Vec::new();
    for i in 0..v.len()
        invariant
            v.deep_view().no_duplicates(),
            out.len() == i,
            keys.len() == out.len(),
            forall|q: int| 0 <= q < keys.len() ==> (#[trigger] keys@[q])@ == out.deep_view()[q],
            strictly_ascending(out.deep_view()),
            forall|x: Seq<char>| out.deep_view().contains(x) <==> v.deep_view().take(i as int).contains(x),
    {
        let x = v[i].clone();
        let kx = chars_of(x.as_str());
        let ghost xv = v.deep_view()[i as int];
        assert(!v.deep_view().take(i as int).contains(xv));
        let mut p: usize = 0;
        while p < keys.len() && chars_lt(&keys[p], &kx)
            invariant
                p <= keys.len(),
                keys.len() == out.len(),
                forall|q: int| 0 <= q < keys.len() ==> (#[trigger] keys@[q])@ == out.deep_view()[q],
                kx@ == xv,
                forall|q: int| 0 <= q < p ==> text_lt(#[trigger] out.deep_view()[q], xv),
            decreases keys.len() - p,
        {
            p = p + 1;
        }
        let ghost before = out.deep_view();
        let ghost old_keys = keys@;
        proof {
            if p < before.len() {
                assert(before.contains(before[p as int]));
                assert(before[p as int] != xv);
                lemma_text_lt_total(before[p as int], xv);
            }
        }
        out.insert(p, x);
        keys.insert(p, kx);
        assert(out.deep_view() =~= before.insert(p as int, xv));
        assert forall|a: int, b: int| 0 <= a < b < out.deep_view().len() implies text_lt(
            #[trigger] out.deep_view()[a],
            #[trigger] out.deep_view()[b],
        ) by {
            let o = out.deep_view();
            if b < p {
                assert(o[a] == before[a] && o[b] == before[b]);
            } else if b == p {
                assert(o[a] == before[a]);
            } else if a == p {
                assert(o[b] == before[b - 1]);
                if b - 1 > p {
                    assert(text_lt(before[p as int], before[b - 1]));
                    lemma_text_lt_transitive(xv, before[p as int], before[b - 1]);
                }
            } else if a < p {
                assert(o[a] == before[a] && o[b] == before[b - 1]);
            } else {
                assert(o[a] == before[a - 1] && o[b] == before[b - 1]);
            }
        }
        assert forall|q: int| 0 <= q < keys.len() implies (#[trigger] keys@[q])@ == out.deep_view()[q] by {
            if q < p {
                assert(keys@[q] == old_keys[q]);
            } else if q == p {
            } else {
                assert(keys@[q] == old_keys[q - 1]);
            }
        }
        assert(v.deep_view().take(i + 1) =~= v.deep_view().take(i as int).push(xv));
        assert forall|y: Seq<char>| out.deep_view().contains(y) <==> v.deep_view().take(i + 1).contains(y) by {
            let o = out.deep_view();
            if o.contains(y) {
                let w = choose|w: int| 0 <= w < o.len() && o[w] == y;
                if w < p {
                    assert(before[w] == y);
                    assert(before.contains(y));
                } else if w > p {
                    assert(before[w - 1] == y);
                    assert(before.contains(y));
                }
            }
            if v.deep_view().take(i + 1).contains(y) {
                if y == xv {
                    assert(o[p as int] == y);
                } else {
                    assert(v.deep_view().take(i as int).contains(y));
                    assert(before.contains(y));
                    let w = choose|w: int| 0 <= w < before.len() && before[w] == y;
                    if w < p {
                        assert(o[w] == y);
                    } else {
                        assert(o[w + 1] == y);
                    }
                }
            }
        }
    }
    assert(v.deep_view().take(v.len() as int) =~= v.deep_view());
    assert(out.deep_view().to_set() =~= v.deep_view().to_set());
    out
}

} // verus!

verus! {

/// The language drift from `prior` to `current`.
pub fn jaccard_drift(prior: &RiskFactorSection, current: &RiskFactorSection) -> (r:
    RiskFactorLanguageDrift)
    ensures
        language_drift_between(r@, prior@, current@),
{
    let prior_set = distinct_texts(&prior.risk_factors);
    let current_set = distinct_texts(&current.risk_factors);
    let common = select_texts(&prior_set, &current_set, true);
    let added_unsorted = select_texts(&current_set, &prior_set, false);
    let removed_unsorted = select_texts(&prior_set, &current_set, false);
    let mut union = Vec::new();
    append_copies(&mut union, &prior_set);
    append_copies(&mut union, &added_unsorted);
    let added = sort_texts(&added_unsorted);
    let removed = sort_texts(&removed_unsorted);
    let ghost p = prior@.risk_factors.to_set();
    let ghost c = current@.risk_factors.to_set();
    proof {
        common.deep_view().unique_seq_to_set();
        let a = prior_set.deep_view();
        let b = added_unsorted.deep_view();
        assert forall|i: int, j: int| 0 <= i < a.len() && 0 <= j < b.len() implies a[i] != b[j] by {
            assert(a.to_set().contains(a[i]));
            assert(b.to_set().contains(b[j]));
        }
        vstd::seq_lib::lemma_no_dup_in_concat(a, b);
        assert(union.deep_view() == a + b);
        union.deep_view().unique_seq_to_set();
        assert forall|x: Seq<char>| (a + b).contains(x) <==> (a.contains(x) || b.contains(x)) by {
            if (a + b).contains(x) {
                let w = choose|w: int| 0 <= w < (a + b).len() && (a + b)[w] == x;
                if w >= a.len() {
                    assert(b[w - a.len()] == x);
                }
            }
            if a.contains(x) {
                let w = choose|w: int| 0 <= w < a.len() && a[w] == x;
                assert((a + b)[w] == x);
            }
            if b.contains(x) {
                let w = choose|w: int| 0 <= w < b.len() && b[w] == x;
                assert((a + b)[w + a.len()] == x);
            }
        }
        assert(a.to_set() == p);
        assert(b.to_set() == c.difference(p));
        assert(union.deep_view().to_set() =~= p.union(c)) by {
            assert forall|x: Seq<char>| union.deep_view().to_set().contains(x) <==> p.union(c).contains(x) by {
                assert(a.to_set().contains(x) == a.contains(x));
                assert(b.to_set().contains(x) == b.contains(x));
            }
        }
    }
    RiskFactorLanguageDrift {
        current: current.filing.clone(),
        prior: prior.filing.clone(),
        identical_count: common.len(),
        union_count: union.len(),
        added,
        removed,
    }
}

/// Year-over-year language drifts: one per year-over-year pair of sections
/// (the same pairs, in the same order, as `compute_drifts`).
pub fn compute_language_drifts(sections: &[RiskFactorSection]) -> (r: Vec<RiskFactorLanguageDrift>)
    ensures
        language_drifts_of(section_views(sections@), language_drift_views(r@)),
{
    let ghost s = section_views(sections@);
    let pairs = year_pairs_of(sections);
    let mut out: Vec<RiskFactorLanguageDrift> = Vec::new();
    for k in 0..pairs.len()
        invariant
            s == section_views(sections@),
            pair_views(pairs@) == year_pairs(s),
            out@.len() == k,
            forall|m: int|
                0 <= m < k ==> language_drift_between(
                    (#[trigger] out@[m])@,
                    year_pairs(s)[m].0,
                    year_pairs(s)[m].1,
                ),
    {
        assert(pair_views(pairs@)[k as int] == (pairs@[k as int].0@, pairs@[k as int].1@));
        out.push(jaccard_drift(&pairs[k].0, &pairs[k].1));
    }
    let ghost v = language_drift_views(out@);
    assert forall|m: int| 0 <= m < v.len() implies language_drift_between(
        #[trigger] v[m],
        year_pairs(s)[m].0,
        year_pairs(s)[m].1,
    ) by {
        assert(v[m] == out@[m]@);
    }
    out
}

} // verus!

verus! {

/// The headings of a language drift partition the union of both years: the
/// union count is the identical count plus the added and removed headings.
/// Hence the Jaccard similarity `identical_count / union_count` lies between
/// zero and one; it is one exactly when both years disclose the same set of
/// headings (nothing added, nothing removed), and zero exactly when the two
/// years share no heading.
pub proof fn lemma_language_drift_counts(d: LanguageDriftView, prior: SectionView, current: SectionView)
    requires
        language_drift_between(d, prior, current),
    ensures
        d.union_count == d.identical_count + d.added.len() + d.removed.len(),
        d.identical_count <= d.union_count,
        (d.identical_count == d.union_count) <==> heading_set(prior) == heading_set(current),
        (d.identical_count == d.union_count) <==> (d.added.len() == 0 && d.removed.len() == 0),
        (d.identical_count == 0) <==> heading_set(prior).disjoint(heading_set(current)),
{
    let p = heading_set(prior);
    let c = heading_set(current);
    vstd::seq_lib::seq_to_set_is_finite(prior.risk_factors);
    vstd::seq_lib::seq_to_set_is_finite(current.risk_factors);
    vstd::set_lib::lemma_set_difference_len(p, c);
    crate::text::lemma_ascending_no_duplicates(d.added);
    crate::text::lemma_ascending_no_duplicates(d.removed);
    d.added.unique_seq_to_set();
    d.removed.unique_seq_to_set();
    vstd::set_lib::lemma_set_empty_equivalency_len(c.difference(p));
    vstd::set_lib::lemma_set_empty_equivalency_len(p.difference(c));
    vstd::set_lib::lemma_set_empty_equivalency_len(p.intersect(c));
    vstd::set_lib::lemma_disjoint_iff_empty_intersection(p, c);
    if p == c {
        assert(c.difference(p) =~= Set::empty());
        assert(p.difference(c) =~= Set::empty());
    }
    if d.added.len() == 0 && d.removed.len() == 0 {
        assert forall|x: Seq<char>| p.contains(x) <==> c.contains(x) by {
            if p.contains(x) && !c.contains(x) {
                assert(p.difference(c).contains(x));
            }
            if c.contains(x) && !p.contains(x) {
                assert(c.difference(p).contains(x));
            }
        }
        assert(p =~= c);
    }
}

/// When neither year repeats a heading, the headings added minus the headings
/// removed equal the change in the number of risk factors.
pub proof fn lemma_language_drift_mass(d: LanguageDriftView, prior: SectionView, current: SectionView)
    requires
        language_drift_between(d, prior, current),
        prior.risk_factors.no_duplicates(),
        current.risk_factors.no_duplicates(),
    ensures
        d.added.len() - d.removed.len() == current.risk_factors.len() - prior.risk_factors.len(),
{
    let p = heading_set(prior);
    let c = heading_set(current);
    vstd::seq_lib::seq_to_set_is_finite(prior.risk_factors);
    vstd::seq_lib::seq_to_set_is_finite(current.risk_factors);
    vstd::set_lib::lemma_set_difference_len(p, c);
    vstd::set_lib::lemma_set_difference_len(c, p);
    assert(c.intersect(p) =~= p.intersect(c));
    crate::text::lemma_ascending_no_duplicates(d.added);
    crate::text::lemma_ascending_no_duplicates(d.removed);
    d.added.unique_seq_to_set();
    d.removed.unique_seq_to_set();
    prior.risk_factors.unique_seq_to_set();
    current.risk_factors.unique_seq_to_set();
}

} // verus!

verus! {

/// The language drift is symmetric: from `b` back to `a` the identical and
/// union counts (hence the Jaccard similarity) are the same, added and removed
/// headings swap, and so do the two filings.
pub proof fn lemma_language_drift_symmetric(
    d1: LanguageDriftView,
    d2: LanguageDriftView,
    a: SectionView,
    b: SectionView,
)
    requires
        language_drift_between(d1, a, b),
        language_drift_between(d2, b, a),
    ensures
        d1.identical_count == d2.identical_count,
        d1.union_count == d2.union_count,
        d1.added == d2.removed,
        d1.removed == d2.added,
        d1.current == d2.prior,
        d1.prior == d2.current,
{
    let p = heading_set(a);
    let c = heading_set(b);
    assert(p.intersect(c) =~= c.intersect(p));
    assert(p.union(c) =~= c.union(p));
    crate::text::lemma_ascending_unique(d1.added, d2.removed);
    crate::text::lemma_ascending_unique(d1.removed, d2.added);
}

/// The language drifts pair the same sections as the count drifts: the k-th
/// language drift and the k-th count drift are those of the k-th
/// year-over-year pair, so they name the same two filings.
pub proof fn lemma_language_drifts_match_count_drifts(s: Seq<SectionView>, langs: Seq<LanguageDriftView>)
    requires
        language_drifts_of(s, langs),
    ensures
        langs.len() == drifts_of(s).len(),
        forall|k: int|
            0 <= k < langs.len() ==> {
                let pair = year_pairs(s)[k];
                &&& (#[trigger] langs[k]).prior == drifts_of(s)[k].prior
                &&& langs[k].current == drifts_of(s)[k].current
                &&& drifts_of(s)[k] == drift_between(pair.0, pair.1)
                &&& language_drift_between(langs[k], pair.0, pair.1)
            },
{
}

} // verus!
