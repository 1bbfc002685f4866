//! Pairing of consecutive fiscal years per filer, and the year-over-year
//! drift in the count of disclosed risk factors.

use vstd::prelude::*;

use crate::analysis::{
    filed_by, from_filer, in_year, lemma_sort_by_year_is_stable, of_year, ordered_by_year,
    sections_for_cik, sort_by_year,
};
use crate::model::{Cik, DriftView, RiskFactorDrift, RiskFactorSection, SectionView, section_views};

verus! {

/// The filers of `s`, each once, in the order of their first section.
pub open spec fn filers(s: Seq<SectionView>) -> Seq<Seq<char>>
    decreases s.len(),
{
    if s.len() == 0 {
        seq![]
    } else if filers(s.drop_last()).contains(s.last().filing.cik) {
        filers(s.drop_last())
    } else {
        filers(s.drop_last()).push(s.last().filing.cik)
    }
}

/// Sections `k` and `k + 1` of `g` are adjacent with consecutive fiscal years.
pub open spec fn is_year_window(g: Seq<SectionView>, k: int) -> bool {
    0 <= k && k + 1 < g.len() && g[k + 1].filing.fiscal_year == g[k].filing.fiscal_year + 1
}

/// The adjacent sections of `g` whose fiscal years are consecutive, as
/// (earlier, later) pairs, in order.
pub open spec fn window_pairs(g: Seq<SectionView>) -> Seq<(SectionView, SectionView)>
    decreases g.len(),
{
    if g.len() < 2 {
        seq![]
    } else if is_year_window(g, g.len() - 2) {
        window_pairs(g.drop_last()).push((g[g.len() - 2], g.last()))
    } else {
        window_pairs(g.drop_last())
    }
}

/// The year-over-year pairs of one filer: with its sections ordered by fiscal
/// year (sections of one year keeping their input order), every two adjacent
/// sections whose years are consecutive, in ascending year.
pub open spec fn filer_pairs(s: Seq<SectionView>, cik: Seq<char>) -> Seq<(SectionView, SectionView)> {
    window_pairs(sort_by_year(filed_by(s, cik)))
}

/// The year-over-year pairs of the filers `cs`, filer after filer.
pub open spec fn pairs_of_filers(s: Seq<SectionView>, cs: Seq<Seq<char>>) -> Seq<(SectionView, SectionView)>
    decreases cs.len(),
{
    if cs.len() == 0 {
        seq![]
    } else {
        pairs_of_filers(s, cs.drop_last()) + filer_pairs(s, cs.last())
    }
}

/// The year-over-year (prior, current) pairs of `s`: those of each filer in
/// ascending year, the filers in the order of their first section.
pub open spec fn year_pairs(s: Seq<SectionView>) -> Seq<(SectionView, SectionView)> {
    pairs_of_filers(s, filers(s))
}

/// The count drift between two sections.
pub open spec fn drift_between(prior: SectionView, current: SectionView) -> DriftView {
    DriftView {
        current: current.filing,
        prior: prior.filing,
        current_count: current.risk_factors.len(),
        prior_count: prior.risk_factors.len(),
        delta: current.risk_factors.len() - prior.risk_factors.len(),
    }
}

/// The count drifts of a sequence of (prior, current) pairs.
pub open spec fn pair_drifts(p: Seq<(SectionView, SectionView)>) -> Seq<DriftView> {
    p.map_values(|q: (SectionView, SectionView)| drift_between(q.0, q.1))
}

/// The count drifts between adjacent sections of `g` whose fiscal years are
/// consecutive, in order.
pub open spec fn year_windows(g: Seq<SectionView>) -> Seq<DriftView> {
    pair_drifts(window_pairs(g))
}

/// The count drifts of all year-over-year pairs of `s`.
pub open spec fn drifts_of(s: Seq<SectionView>) -> Seq<DriftView> {
    pair_drifts(year_pairs(s))
}

/// The abstract values of a sequence of drifts.
pub open spec fn drift_views(d: Seq<RiskFactorDrift>) -> Seq<DriftView> {
    d.map_values(|x: RiskFactorDrift| x@)
}

/// The abstract values of a sequence of section pairs.
pub open spec fn pair_views(p: Seq<(RiskFactorSection, RiskFactorSection)>) -> Seq<(SectionView, SectionView)> {
    p.map_values(|q: (RiskFactorSection, RiskFactorSection)| (q.0@, q.1@))
}

/// The filers of `sections`, each once, in the order of their first section.
fn distinct_filers(sections: &[RiskFactorSection]) -> (r: Vec<String>)
    ensures
        r.deep_view() == filers(section_views(sections@)),
{
    let ghost s = section_views(sections@);
    let mut r: Vec<String> = Vec::new();
    for i in 0..sections.len()
        invariant
            s == section_views(sections@),
            r.deep_view() == filers(s.take(i as int)),
    {
        let ghost t = s.take(i + 1);
        assert(t.drop_last() =~= s.take(i as int));
        assert(t.last() == sections@[i as int]@);
        let mut found = false;
        let mut j: usize = 0;
        while j < r.len()
            invariant
                j <= r.len(),
                i < sections@.len(),
                !found ==> forall|m: int| 0 <= m < j ==> r.deep_view()[m] != sections@[i as int].filing.cik.0@,
                found ==> r.deep_view().contains(sections@[i as int].filing.cik.0@),
            decreases r.len() - j,
        {
            if r[j] == sections[i].filing.cik.0 {
                assert(r.deep_view()[j as int] == sections@[i as int].filing.cik.0@);
                found = true;
            }
            j = j + 1;
        }
        if !found {
            let ghost before = r.deep_view();
            r.push(sections[i].filing.cik.0.clone());
            assert(r.deep_view() =~= before.push(sections@[i as int].filing.cik.0@));
        }
    }
    assert(s.take(sections.len() as int) =~= s);
    r
}

/// The year-over-year (prior, current) pairs of `sections`, copied.
fn year_pair_sections(sections: &[RiskFactorSection]) -> (r: Vec<(RiskFactorSection, RiskFactorSection)>)
    ensures
        pair_views(r@) == year_pairs(section_views(sections@)),
{
    let ghost s = section_views(sections@);
    let cs = distinct_filers(sections);
    let mut out: Vec<(RiskFactorSection, RiskFactorSection)> = Vec::new();
    for i in 0..cs.len()
        invariant
            s == section_views(sections@),
            cs.deep_view() == filers(s),
            pair_views(out@) == pairs_of_filers(s, cs.deep_view().take(i as int)),
    {
        let cik = Cik::new(cs[i].as_str());
        let g = sections_for_cik(sections, &cik);
        let ghost gv = section_views(g@);
        let ghost before = pair_views(out@);
        assert(cs.deep_view().take(i + 1).drop_last() =~= cs.deep_view().take(i as int));
        assert(cs.deep_view().take(i + 1).last() == cik.0@);
        if g.len() >= 2 {
            assert(gv.take(1).len() == 1);
            for k in 1..g.len()
                invariant
                    gv == section_views(g@),
                    pair_views(out@) == before + window_pairs(gv.take(k as int)),
            {
                let ghost w = gv.take(k + 1);
                assert(w.drop_last() =~= gv.take(k as int));
                assert(w[k - 1] == g@[k - 1]@ && w.last() == g@[k as int]@);
                let cur = g[k].filing.fiscal_year;
                if cur > 0 && cur - 1 == g[k - 1].filing.fiscal_year {
                    let ghost b2 = pair_views(out@);
                    out.push((g[k - 1].clone(), g[k].clone()));
                    assert(pair_views(out@) =~= b2.push((g@[k - 1]@, g@[k as int]@)));
                    assert(pair_views(out@) =~= before + window_pairs(w));
                }
            }
            assert(gv.take(g.len() as int) =~= gv);
        } else {
            assert(pair_views(out@) =~= before + window_pairs(gv));
        }
    }
    assert(cs.deep_view().take(cs.len() as int) =~= cs.deep_view());
    out
}

} // verus!

verus! {

proof fn lemma_filter_keeps_all<A>(s: Seq<A>, p: spec_fn(A) -> bool)
    requires
        forall|i: int| 0 <= i < s.len() ==> p(#[trigger] s[i]),
    ensures
        s.filter(p) == s,
    decreases s.len(),
{
    if s.len() > 0 {
        let u = s.drop_last();
        assert forall|i: int| 0 <= i < u.len() implies p(#[trigger] u[i]) by {
            assert(u[i] == s[i]);
        }
        lemma_filter_keeps_all(u, p);
        assert(s == u.push(s.last()));
        u.lemma_filter_push(s.last(), p);
    } else {
        assert(s.filter(p) =~= s);
    }
}

/// Pairs from a window are adjacent sections of `g` with consecutive years;
/// in a sequence ordered by year, later pairs have later years.
proof fn lemma_window_pairs(g: Seq<SectionView>)
    ensures
        forall|k: int|
            0 <= k < window_pairs(g).len() ==> {
                let p = #[trigger] window_pairs(g)[k];
                &&& g.contains(p.0)
                &&& g.contains(p.1)
                &&& p.1.filing.fiscal_year == p.0.filing.fiscal_year + 1
            },
        ordered_by_year(g) ==> forall|k: int, m: int|
            0 <= k < m < window_pairs(g).len() ==> #[trigger] window_pairs(g)[k].1.filing.fiscal_year
                < #[trigger] window_pairs(g)[m].1.filing.fiscal_year,
        ordered_by_year(g) && g.len() > 0 ==> forall|k: int|
            0 <= k < window_pairs(g).len() ==> #[trigger] window_pairs(g)[k].1.filing.fiscal_year
                <= g.last().filing.fiscal_year,
    decreases g.len(),
{
    if g.len() >= 2 {
        let u = g.drop_last();
        lemma_window_pairs(u);
        let rest = window_pairs(u);
        let w = window_pairs(g);
        assert(u.last() == g[g.len() - 2]);
        assert forall|x: SectionView| u.contains(x) implies g.contains(x) by {
            let i = choose|i: int| 0 <= i < u.len() && u[i] == x;
            assert(g[i] == x);
        }
        assert(g.contains(g[g.len() - 2]));
        assert(g.contains(g[g.len() - 1]));
        if ordered_by_year(g) {
            assert(ordered_by_year(u)) by {
                assert forall|i: int, j: int| 0 <= i < j < u.len() implies #[trigger] u[i].filing.fiscal_year
                    <= #[trigger] u[j].filing.fiscal_year by {
                    assert(u[i] == g[i] && u[j] == g[j]);
                }
            }
            assert(g[g.len() - 2].filing.fiscal_year <= g.last().filing.fiscal_year);
        }
        if is_year_window(g, g.len() - 2) {
            assert(w == rest.push((g[g.len() - 2], g.last())));
            assert forall|k: int| 0 <= k < w.len() implies {
                let p = #[trigger] w[k];
                &&& g.contains(p.0)
                &&& g.contains(p.1)
                &&& p.1.filing.fiscal_year == p.0.filing.fiscal_year + 1
            } by {
                if k < rest.len() {
                    assert(w[k] == rest[k]);
                }
            }
            if ordered_by_year(g) {
                assert forall|k: int, m: int| 0 <= k < m < w.len() implies #[trigger] w[k].1.filing.fiscal_year
                    < #[trigger] w[m].1.filing.fiscal_year by {
                    assert(w[k] == rest[k]);
                    if m < rest.len() {
                        assert(w[m] == rest[m]);
                    }
                }
                assert forall|k: int| 0 <= k < w.len() implies #[trigger] w[k].1.filing.fiscal_year
                    <= g.last().filing.fiscal_year by {
                    if k < rest.len() {
                        assert(w[k] == rest[k]);
                    }
                }
            }
        } else {
            assert(w == rest);
        }
    }
}

/// The sections of a filer, ordered by year, are sections of `s` by that filer.
proof fn lemma_sorted_filings(s: Seq<SectionView>, cik: Seq<char>)
    ensures
        ordered_by_year(sort_by_year(filed_by(s, cik))),
        forall|x: SectionView|
            #[trigger] sort_by_year(filed_by(s, cik)).contains(x) ==> s.contains(x) && x.filing.cik == cik,
{
    let f = filed_by(s, cik);
    let g = sort_by_year(f);
    lemma_sort_by_year_is_stable(f);
    assert forall|x: SectionView| #[trigger] g.contains(x) implies s.contains(x) && x.filing.cik == cik by {
        let i = choose|i: int| 0 <= i < g.len() && g[i] == x;
        let y = x.filing.fiscal_year;
        g.lemma_filter_contains(in_year(y), i);
        assert(of_year(g, y) == of_year(f, y));
        f.lemma_filter_contains_rev(in_year(y), x);
        let j = choose|j: int| 0 <= j < f.len() && f[j] == x;
        s.lemma_filter_pred(from_filer(cik), j);
        s.lemma_filter_contains_rev(from_filer(cik), x);
    }
}

/// The filers of `s` are those of its sections, each once.
proof fn lemma_filers(s: Seq<SectionView>)
    ensures
        filers(s).no_duplicates(),
        forall|c: Seq<char>|
            #[trigger] filers(s).contains(c) <==> exists|i: int| 0 <= i < s.len() && s[i].filing.cik == c,
    decreases s.len(),
{
    if s.len() > 0 {
        let u = s.drop_last();
        lemma_filers(u);
        let r = filers(u);
        assert forall|c: Seq<char>| #[trigger] filers(s).contains(c) <==> exists|i: int|
            0 <= i < s.len() && s[i].filing.cik == c by {
            if exists|i: int| 0 <= i < s.len() && s[i].filing.cik == c {
                let i = choose|i: int| 0 <= i < s.len() && s[i].filing.cik == c;
                if i < u.len() {
                    assert(u[i] == s[i]);
                    assert(r.contains(c));
                    if !r.contains(s.last().filing.cik) {
                        let w = choose|w: int| 0 <= w < r.len() && r[w] == c;
                        assert(r.push(s.last().filing.cik)[w] == c);
                    }
                } else if !r.contains(s.last().filing.cik) {
                    assert(r.push(s.last().filing.cik)[r.len() as int] == c);
                }
            }
            if filers(s).contains(c) {
                if r.contains(c) {
                    let i = choose|i: int| 0 <= i < u.len() && u[i].filing.cik == c;
                    assert(s[i] == u[i]);
                } else {
                    let w = choose|w: int| 0 <= w < filers(s).len() && filers(s)[w] == c;
                    if w < r.len() {
                        assert(r[w] == c);
                    }
                    assert(s[s.len() - 1].filing.cik == c);
                }
            }
        }
        if !r.contains(s.last().filing.cik) {
            let t = r.push(s.last().filing.cik);
            assert forall|i: int, j: int| 0 <= i < t.len() && 0 <= j < t.len() && i != j implies t[i]
                != t[j] by {
                if i < r.len() && j < r.len() {
                    assert(t[i] == r[i] && t[j] == r[j]);
                } else if i < r.len() {
                    assert(t[i] == r[i]);
                    assert(r.contains(t[i]));
                } else if j < r.len() {
                    assert(t[j] == r[j]);
                    assert(r.contains(t[j]));
                }
            }
        }
    }
}

/// The pairs of distinct filers `cs`: each joins two sections of `s` by one of
/// those filers in consecutive years, and no two pairs share a filer and a
/// current year.
proof fn lemma_pairs_of_filers(s: Seq<SectionView>, cs: Seq<Seq<char>>)
    requires
        cs.no_duplicates(),
    ensures
        forall|k: int|
            0 <= k < pairs_of_filers(s, cs).len() ==> {
                let p = #[trigger] pairs_of_filers(s, cs)[k];
                &&& s.contains(p.0)
                &&& s.contains(p.1)
                &&& p.0.filing.cik == p.1.filing.cik
                &&& cs.contains(p.1.filing.cik)
                &&& p.1.filing.fiscal_year == p.0.filing.fiscal_year + 1
            },
        forall|k: int, m: int|
            0 <= k < m < pairs_of_filers(s, cs).len() ==> !(#[trigger] pairs_of_filers(s, cs)[k].1.filing.cik
                == #[trigger] pairs_of_filers(s, cs)[m].1.filing.cik && pairs_of_filers(s, cs)[k].1.filing.fiscal_year
                == pairs_of_filers(s, cs)[m].1.filing.fiscal_year),
    decreases cs.len(),
{
    if cs.len() > 0 {
        let ds = cs.drop_last();
        let c = cs.last();
        assert(ds.no_duplicates()) by {
            assert forall|i: int, j: int| 0 <= i < ds.len() && 0 <= j < ds.len() && i != j implies ds[i]
                != ds[j] by {
                assert(ds[i] == cs[i] && ds[j] == cs[j]);
            }
        }
        assert(!ds.contains(c)) by {
            if ds.contains(c) {
                let w = choose|w: int| 0 <= w < ds.len() && ds[w] == c;
                assert(cs[w] == cs[cs.len() - 1]);
            }
        }
        lemma_pairs_of_filers(s, ds);
        let a = pairs_of_filers(s, ds);
        let b = filer_pairs(s, c);
        let g = sort_by_year(filed_by(s, c));
        lemma_window_pairs(g);
        lemma_sorted_filings(s, c);
        let all = pairs_of_filers(s, cs);
        assert(all == a + b);
        assert forall|k: int| 0 <= k < all.len() implies {
            let p = #[trigger] all[k];
            &&& s.contains(p.0)
            &&& s.contains(p.1)
            &&& p.0.filing.cik == p.1.filing.cik
            &&& cs.contains(p.1.filing.cik)
            &&& p.1.filing.fiscal_year == p.0.filing.fiscal_year + 1
        } by {
            if k < a.len() {
                assert(all[k] == a[k]);
                let w = choose|w: int| 0 <= w < ds.len() && ds[w] == a[k].1.filing.cik;
                assert(cs[w] == ds[w]);
            } else {
                assert(all[k] == b[k - a.len()]);
                assert(g.contains(b[k - a.len()].0));
                assert(g.contains(b[k - a.len()].1));
                assert(cs[cs.len() - 1] == c);
            }
        }
        assert forall|k: int, m: int| 0 <= k < m < all.len() implies !(#[trigger] all[k].1.filing.cik
            == #[trigger] all[m].1.filing.cik && all[k].1.filing.fiscal_year == all[m].1.filing.fiscal_year) by {
            if m < a.len() {
                assert(all[k] == a[k] && all[m] == a[m]);
            } else if k < a.len() {
                assert(all[k] == a[k] && all[m] == b[m - a.len()]);
                assert(g.contains(b[m - a.len()].1));
                if a[k].1.filing.cik == c {
                    assert(ds.contains(c));
                }
            } else {
                assert(all[k] == b[k - a.len()] && all[m] == b[m - a.len()]);
            }
        }
    }
}

/// Every year-over-year pair joins two sections of `s` by the same filer in
/// consecutive fiscal years, and no two pairs share a filer and current year.
pub proof fn lemma_year_pairs(s: Seq<SectionView>)
    ensures
        forall|k: int|
            0 <= k < year_pairs(s).len() ==> {
                let p = #[trigger] year_pairs(s)[k];
                &&& s.contains(p.0)
                &&& s.contains(p.1)
                &&& p.0.filing.cik == p.1.filing.cik
                &&& p.1.filing.fiscal_year == p.0.filing.fiscal_year + 1
            },
        forall|k: int, m: int|
            0 <= k < m < year_pairs(s).len() ==> !(#[trigger] year_pairs(s)[k].1.filing.cik
                == #[trigger] year_pairs(s)[m].1.filing.cik && year_pairs(s)[k].1.filing.fiscal_year
                == year_pairs(s)[m].1.filing.fiscal_year),
{
    lemma_filers(s);
    lemma_pairs_of_filers(s, filers(s));
}

} // verus!

verus! {

/// The drift is of a current filing by `cik`.
pub open spec fn current_by(cik: Seq<char>) -> spec_fn(DriftView) -> bool {
    |d: DriftView| d.current.cik == cik
}

proof fn lemma_filter_drops_all<A>(s: Seq<A>, p: spec_fn(A) -> bool)
    requires
        forall|i: int| 0 <= i < s.len() ==> !p(#[trigger] s[i]),
    ensures
        s.filter(p) == Seq::<A>::empty(),
    decreases s.len(),
{
    if s.len() > 0 {
        let u = s.drop_last();
        assert forall|i: int| 0 <= i < u.len() implies !p(#[trigger] u[i]) by {
            assert(u[i] == s[i]);
        }
        lemma_filter_drops_all(u, p);
        assert(s == u.push(s.last()));
        u.lemma_filter_push(s.last(), p);
    } else {
        assert(s.filter(p) =~= Seq::<A>::empty());
    }
}

proof fn lemma_filer_drifts_of_filers(s: Seq<SectionView>, cs: Seq<Seq<char>>, cik: Seq<char>)
    requires
        cs.no_duplicates(),
    ensures
        pair_drifts(pairs_of_filers(s, cs)).filter(current_by(cik)) == if cs.contains(cik) {
            year_windows(sort_by_year(filed_by(s, cik)))
        } else {
            Seq::<DriftView>::empty()
        },
    decreases cs.len(),
{
    let q = current_by(cik);
    if cs.len() == 0 {
        assert(pair_drifts(pairs_of_filers(s, cs)) =~= Seq::<DriftView>::empty());
        lemma_filter_drops_all(Seq::<DriftView>::empty(), q);
    } else {
        let ds = cs.drop_last();
        let c = cs.last();
        assert(ds.no_duplicates()) by {
            assert forall|i: int, j: int| 0 <= i < ds.len() && 0 <= j < ds.len() && i != j implies ds[i]
                != ds[j] by {
                assert(ds[i] == cs[i] && ds[j] == cs[j]);
            }
        }
        assert(!ds.contains(c)) by {
            if ds.contains(c) {
                let w = choose|w: int| 0 <= w < ds.len() && ds[w] == c;
                assert(cs[w] == cs[cs.len() - 1]);
            }
        }
        lemma_filer_drifts_of_filers(s, ds, cik);
        let a = pairs_of_filers(s, ds);
        let b = filer_pairs(s, c);
        let g = sort_by_year(filed_by(s, c));
        lemma_window_pairs(g);
        lemma_sorted_filings(s, c);
        assert(pair_drifts(pairs_of_filers(s, cs)) =~= pair_drifts(a) + pair_drifts(b));
        Seq::filter_distributes_over_add(pair_drifts(a), pair_drifts(b), q);
        assert forall|k: int| 0 <= k < pair_drifts(b).len() implies (#[trigger] pair_drifts(b)[k]).current.cik
            == c by {
            assert(g.contains(b[k].1));
        }
        assert(cs.contains(cik) <==> (ds.contains(cik) || c == cik)) by {
            if cs.contains(cik) {
                let w = choose|w: int| 0 <= w < cs.len() && cs[w] == cik;
                if w < ds.len() {
                    assert(ds[w] == cik);
                }
            }
            if ds.contains(cik) {
                let w = choose|w: int| 0 <= w < ds.len() && ds[w] == cik;
                assert(cs[w] == cik);
            }
            assert(cs[cs.len() - 1] == c);
        }
        if c == cik {
            lemma_filter_keeps_all(pair_drifts(b), q);
            assert(pair_drifts(a).filter(q) + pair_drifts(b).filter(q) =~= year_windows(g));
        } else {
            lemma_filter_drops_all(pair_drifts(b), q);
            assert(pair_drifts(a).filter(q) + pair_drifts(b).filter(q) =~= pair_drifts(a).filter(q));
        }
    }
}

/// The drifts of each filer, in order, are the drifts between adjacent
/// sections with consecutive fiscal years of its sections ordered by fiscal
/// year (sections of one year keeping their input order): each filer's drifts
/// come in ascending year.
pub proof fn lemma_drifts_of_filer(s: Seq<SectionView>, cik: Seq<char>)
    ensures
        drifts_of(s).filter(current_by(cik)) == year_windows(sort_by_year(filed_by(s, cik))),
{
    lemma_filers(s);
    lemma_filer_drifts_of_filers(s, filers(s), cik);
    if !filers(s).contains(cik) {
        let f = filed_by(s, cik);
        if f.len() > 0 {
            s.lemma_filter_pred(from_filer(cik), 0);
            assert(f.contains(f[0]));
            s.lemma_filter_contains_rev(from_filer(cik), f[0]);
            let i = choose|i: int| 0 <= i < s.len() && s[i] == f[0];
            assert(s[i].filing.cik == cik);
        }
        assert(f =~= Seq::<SectionView>::empty());
        assert(year_windows(sort_by_year(f)) =~= Seq::<DriftView>::empty());
    }
}

/// Each drift joins two filings of the same filer in consecutive fiscal years
/// (the current one the year after the prior one), and no two drifts share a
/// filer and current year: one drift per consecutive pair.
pub proof fn lemma_drifts_are_consecutive_and_distinct(s: Seq<SectionView>)
    ensures
        forall|k: int|
            0 <= k < drifts_of(s).len() ==> {
                let d = #[trigger] drifts_of(s)[k];
                &&& d.prior.cik == d.current.cik
                &&& d.prior.fiscal_year + 1 == d.current.fiscal_year
            },
        forall|k: int, m: int|
            0 <= k < m < drifts_of(s).len() ==> !(#[trigger] drifts_of(s)[k].current.cik
                == #[trigger] drifts_of(s)[m].current.cik && drifts_of(s)[k].current.fiscal_year
                == drifts_of(s)[m].current.fiscal_year),
{
    let p = year_pairs(s);
    lemma_year_pairs(s);
    assert forall|k: int| 0 <= k < drifts_of(s).len() implies {
        let d = #[trigger] drifts_of(s)[k];
        &&& d.prior.cik == d.current.cik
        &&& d.prior.fiscal_year + 1 == d.current.fiscal_year
    } by {
        assert(drifts_of(s)[k] == drift_between(p[k].0, p[k].1));
    }
    assert forall|k: int, m: int| 0 <= k < m < drifts_of(s).len() implies !(
    #[trigger] drifts_of(s)[k].current.cik == #[trigger] drifts_of(s)[m].current.cik
        && drifts_of(s)[k].current.fiscal_year == drifts_of(s)[m].current.fiscal_year) by {
        assert(drifts_of(s)[k] == drift_between(p[k].0, p[k].1));
        assert(drifts_of(s)[m] == drift_between(p[m].0, p[m].1));
    }
}

/// The year-over-year (prior, current) pairs of `sections`, copied.
pub(crate) fn year_pairs_of(sections: &[RiskFactorSection]) -> (r: Vec<(RiskFactorSection, RiskFactorSection)>)
    ensures
        pair_views(r@) == year_pairs(section_views(sections@)),
        forall|k: int|
            0 <= k < r@.len() ==> exists|i: int|
                0 <= i < sections@.len() && #[trigger] r@[k].1@ == sections@[i]@,
        forall|k: int|
            0 <= k < r@.len() ==> exists|i: int|
                0 <= i < sections@.len() && #[trigger] r@[k].0@ == sections@[i]@,
{
    let ghost s = section_views(sections@);
    let r = year_pair_sections(sections);
    proof {
        lemma_year_pairs(s);
        assert forall|k: int| 0 <= k < r@.len() implies exists|i: int|
            0 <= i < sections@.len() && #[trigger] r@[k].1@ == sections@[i]@ by {
            assert(pair_views(r@)[k] == (r@[k].0@, r@[k].1@));
            let i = choose|i: int| 0 <= i < s.len() && s[i] == year_pairs(s)[k].1;
            assert(s[i] == sections@[i]@);
        }
        assert forall|k: int| 0 <= k < r@.len() implies exists|i: int|
            0 <= i < sections@.len() && #[trigger] r@[k].0@ == sections@[i]@ by {
            assert(pair_views(r@)[k] == (r@[k].0@, r@[k].1@));
            let i = choose|i: int| 0 <= i < s.len() && s[i] == year_pairs(s)[k].0;
            assert(s[i] == sections@[i]@);
        }
    }
    r
}

/// Year-over-year drifts in the count of risk factors.
///
/// Sections are grouped by filer and ordered by fiscal year; each year is
/// paired with its immediate predecessor, and one drift is returned per such
/// pair (see `year_pairs`): each filer's drifts in ascending year, the filers
/// in the order of their first section.
pub fn compute_drifts(sections: &[RiskFactorSection]) -> (r: Vec<RiskFactorDrift>)
    requires
        forall|i: int| 0 <= i < sections@.len() ==> #[trigger] sections@[i].risk_factors.len() <= i32::MAX,
    ensures
        drift_views(r@) == drifts_of(section_views(sections@)),
{
    let ghost s = section_views(sections@);
    let pairs = year_pairs_of(sections);
    let mut out: Vec<RiskFactorDrift> = Vec::new();
    for k in 0..pairs.len()
        invariant
            s == section_views(sections@),
            pair_views(pairs@) == year_pairs(s),
            forall|k: int|
                0 <= k < pairs@.len() ==> exists|i: int|
                    0 <= i < sections@.len() && #[trigger] pairs@[k].1@ == sections@[i]@,
            forall|k: int|
                0 <= k < pairs@.len() ==> exists|i: int|
                    0 <= i < sections@.len() && #[trigger] pairs@[k].0@ == sections@[i]@,
            forall|i: int| 0 <= i < sections@.len() ==> #[trigger] sections@[i].risk_factors.len() <= i32::MAX,
            out@.len() == k,
            forall|m: int|
                0 <= m < k ==> (#[trigger] out@[m])@ == drift_between(year_pairs(s)[m].0, year_pairs(s)[m].1),
    {
        let prior = &pairs[k].0;
        let current = &pairs[k].1;
        proof {
            assert(pair_views(pairs@)[k as int] == (pairs@[k as int].0@, pairs@[k as int].1@));
            let i = choose|i: int| 0 <= i < sections@.len() && #[trigger] pairs@[k as int].1@ == sections@[i]@;
            let j = choose|j: int| 0 <= j < sections@.len() && #[trigger] pairs@[k as int].0@ == sections@[j]@;
            assert(current.risk_factors.deep_view().len() == sections@[i].risk_factors.deep_view().len());
            assert(prior.risk_factors.deep_view().len() == sections@[j].risk_factors.deep_view().len());
            assert(current.risk_factors.deep_view().len() == current.risk_factors.len());
            assert(prior.risk_factors.deep_view().len() == prior.risk_factors.len());
            assert(sections@[i].risk_factors.deep_view().len() == sections@[i].risk_factors.len());
            assert(sections@[j].risk_factors.deep_view().len() == sections@[j].risk_factors.len());
            assert(sections@[i].risk_factors.len() <= i32::MAX);
            assert(sections@[j].risk_factors.len() <= i32::MAX);
        }
        let current_count = current.count();
        let prior_count = prior.count();
        let d = RiskFactorDrift {
            current: current.filing.clone(),
            prior: prior.filing.clone(),
            current_count,
            prior_count,
            delta: current_count as i32 - prior_count as i32,
        };
        out.push(d);
    }
    assert(drift_views(out@) =~= drifts_of(s));
    out
}

} // verus!

verus! {

/// Every adjacent pair of `g` with consecutive years is among its pairs.
proof fn lemma_window_pairs_complete(g: Seq<SectionView>, k: int)
    requires
        0 <= k && k + 1 < g.len() && g[k + 1].filing.fiscal_year == g[k].filing.fiscal_year + 1,
    ensures
        window_pairs(g).contains((g[k], g[k + 1])),
    decreases g.len(),
{
    let u = g.drop_last();
    let rest = window_pairs(u);
    let n = g.len() - 1;
    if k + 1 < n {
        lemma_window_pairs_complete(u, k);
        assert(u[k] == g[k] && u[k + 1] == g[k + 1]);
        let w = choose|w: int| 0 <= w < rest.len() && rest[w] == (u[k], u[k + 1]);
        if is_year_window(g, n - 1) {
            assert(window_pairs(g)[w] == rest[w]);
        } else {
            assert(window_pairs(g) == rest);
        }
    } else {
        assert(is_year_window(g, n - 1));
        assert(window_pairs(g)[rest.len() as int] == (g[k], g[k + 1]));
    }
}

/// Every pair of `g` is an adjacent pair of it with consecutive years.
proof fn lemma_window_pairs_sound(g: Seq<SectionView>, w: int)
    requires
        0 <= w < window_pairs(g).len(),
    ensures
        exists|k: int|
            #![trigger g[k]]
            0 <= k && k + 1 < g.len() && g[k + 1].filing.fiscal_year == g[k].filing.fiscal_year + 1
                && window_pairs(g)[w] == (g[k], g[k + 1]),
    decreases g.len(),
{
    let u = g.drop_last();
    let rest = window_pairs(u);
    let n = g.len() - 1;
    if w < rest.len() {
        if is_year_window(g, n - 1) {
            assert(window_pairs(g)[w] == rest[w]);
        } else {
            assert(window_pairs(g) == rest);
        }
        lemma_window_pairs_sound(u, w);
        let k = choose|k: int|
            #![trigger u[k]]
            0 <= k && k + 1 < u.len() && u[k + 1].filing.fiscal_year == u[k].filing.fiscal_year + 1
                && rest[w] == (u[k], u[k + 1]);
        assert(u[k] == g[k] && u[k + 1] == g[k + 1]);
    } else {
        assert(is_year_window(g, n - 1));
        assert(window_pairs(g)[w] == (g[n - 1], g[n]));
    }
}

/// Completeness of the pairing: whenever two sections of a filer are adjacent
/// in its year-sorted (stable) order and their fiscal years are consecutive,
/// some drift runs from the earlier to the later one, with their counts and
/// the difference of the counts as delta. Gaps elsewhere drop no pair.
pub proof fn lemma_drifts_cover_consecutive_years(s: Seq<SectionView>, cik: Seq<char>, k: int)
    requires
        ({
            let g = sort_by_year(filed_by(s, cik));
            0 <= k && k + 1 < g.len() && g[k + 1].filing.fiscal_year == g[k].filing.fiscal_year + 1
        }),
    ensures
        ({
            let g = sort_by_year(filed_by(s, cik));
            exists|m: int|
                0 <= m < drifts_of(s).len() && {
                    let d = #[trigger] drifts_of(s)[m];
                    &&& d.prior == g[k].filing
                    &&& d.current == g[k + 1].filing
                    &&& d.prior_count == g[k].risk_factors.len()
                    &&& d.current_count == g[k + 1].risk_factors.len()
                    &&& d.delta == g[k + 1].risk_factors.len() - g[k].risk_factors.len()
                }
        }),
{
    let g = sort_by_year(filed_by(s, cik));
    let wp = window_pairs(g);
    lemma_drifts_of_filer(s, cik);
    lemma_window_pairs_complete(g, k);
    let w = choose|w: int| 0 <= w < wp.len() && wp[w] == (g[k], g[k + 1]);
    let d = drift_between(g[k], g[k + 1]);
    assert(pair_drifts(wp)[w] == d);
    assert(drifts_of(s).filter(current_by(cik)).contains(d));
    drifts_of(s).lemma_filter_contains_rev(current_by(cik), d);
}

/// Soundness of the pairing: every drift runs between two sections of its
/// filer that are adjacent in its year-sorted (stable) order and whose fiscal
/// years are consecutive, with their counts and the difference as delta.
pub proof fn lemma_drifts_are_consecutive_years(s: Seq<SectionView>, m: int)
    requires
        0 <= m < drifts_of(s).len(),
    ensures
        ({
            let d = drifts_of(s)[m];
            let g = sort_by_year(filed_by(s, d.current.cik));
            exists|k: int|
                0 <= k && k + 1 < g.len() && g[k + 1].filing.fiscal_year == g[k].filing.fiscal_year + 1 && {
                    &&& d.prior == (#[trigger] g[k]).filing
                    &&& d.current == g[k + 1].filing
                    &&& d.prior_count == g[k].risk_factors.len()
                    &&& d.current_count == g[k + 1].risk_factors.len()
                    &&& d.delta == g[k + 1].risk_factors.len() - g[k].risk_factors.len()
                }
        }),
{
    let d = drifts_of(s)[m];
    let cik = d.current.cik;
    let g = sort_by_year(filed_by(s, cik));
    let wp = window_pairs(g);
    lemma_drifts_of_filer(s, cik);
    drifts_of(s).lemma_filter_contains(current_by(cik), m);
    let pd = pair_drifts(wp);
    assert(pd.contains(d));
    let w = choose|w: int| 0 <= w < pd.len() && pd[w] == d;
    lemma_window_pairs_sound(g, w);
    let k = choose|k: int|
        #![trigger g[k]]
        0 <= k && k + 1 < g.len() && g[k + 1].filing.fiscal_year == g[k].filing.fiscal_year + 1
            && wp[w] == (g[k], g[k + 1]);
    assert(pd[w] == drift_between(wp[w].0, wp[w].1));
}

} // verus!
