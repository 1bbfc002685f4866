//! Selection of a filer's sections for analysis, and the identifiers under
//! which sections and proposed drift facts are published.

use vstd::prelude::*;

use crate::model::{
    Cik, RiskFactorDrift, RiskFactorLanguageDrift, RiskFactorSection, SectionView,
    section_views,
};
use crate::text::{nat_text, push_nat};

verus! {

/// Provenance of the proposals of the count-drift suggestor.
pub const DRIFT_PROVENANCE: &'static str = "fathom:risk_factor_drift:v1";

/// Provenance of the proposals of the language-drift suggestor.
pub const LANGUAGE_PROVENANCE: &'static str = "fathom-sparc:risk_factor_language:v1";

/// Name of the count-drift suggestor.
pub const DRIFT_SUGGESTOR_NAME: &'static str = "risk_factor_drift";

/// Name of the language-drift suggestor.
pub const LANGUAGE_SUGGESTOR_NAME: &'static str = "risk_factor_language";

/// Drift needs at least two sections.
pub open spec fn enough_for_drift(count: nat) -> bool {
    count >= 2
}

/// Whether `count` sections are enough to compute a drift.
pub fn has_enough_for_drift(count: usize) -> (r: bool)
    ensures
        r == enough_for_drift(count as nat),
{
    count >= 2
}

/// Whether a proposal with this provenance is among `provenances`.
pub fn already_proposed(provenances: &Vec<String>, provenance: &str) -> (r: bool)
    ensures
        r == exists|i: int| 0 <= i < provenances@.len() && (#[trigger] provenances@[i])@ == provenance@,
{
    for i in 0..provenances.len()
        invariant
            forall|k: int| 0 <= k < i ==> (#[trigger] provenances@[k])@ != provenance@,
    {
        if crate::text::same_text(provenances[i].as_str(), provenance) {
            return true;
        }
    }
    false
}

/// Whether a suggestor runs: it has not yet proposed anything (idempotency is
/// judged from the proposals already present, by their provenance), and at
/// least two sections could be read from the signals.
pub fn accepts(proposal_provenances: &Vec<String>, own_provenance: &str, sections_read: usize) -> (r:
    bool)
    ensures
        r == (!(exists|i: int|
            0 <= i < proposal_provenances@.len() && (#[trigger] proposal_provenances@[i])@
                == own_provenance@) && enough_for_drift(sections_read as nat)),
{
    if already_proposed(proposal_provenances, own_provenance) {
        return false;
    }
    has_enough_for_drift(sections_read)
}

/// `prefix`, the filer, `::`, and the fiscal year.
pub open spec fn keyed_id(prefix: Seq<char>, cik: Seq<char>, fiscal_year: u16) -> Seq<char> {
    prefix + cik + "::"@ + nat_text(fiscal_year as nat)
}

fn make_keyed_id(prefix: &str, cik: &Cik, fiscal_year: u16) -> (r: String)
    ensures
        r@ == keyed_id(prefix@, cik.0@, fiscal_year),
{
    let mut id = String::new();
    id.append(prefix);
    id.append(cik.as_str());
    id.append("::");
    push_nat(&mut id, fiscal_year as u64);
    assert(id@ =~= keyed_id(prefix@, cik.0@, fiscal_year));
    id
}

/// Identifier of the signal fact that carries a section:
/// `filing::{cik}::{fiscal_year}`.
pub fn signal_fact_id(section: &RiskFactorSection) -> (r: String)
    ensures
        r@ == keyed_id("filing::"@, section.filing.cik.0@, section.filing.fiscal_year),
{
    make_keyed_id("filing::", &section.filing.cik, section.filing.fiscal_year)
}

/// Identifier of the proposal that carries a count drift:
/// `risk_factor_drift::{cik}::{fiscal_year}` of the current filing.
pub fn drift_proposal_id(drift: &RiskFactorDrift) -> (r: String)
    ensures
        r@ == keyed_id("risk_factor_drift::"@, drift.current.cik.0@, drift.current.fiscal_year),
{
    make_keyed_id("risk_factor_drift::", &drift.current.cik, drift.current.fiscal_year)
}

/// Identifier of the proposal that carries a language drift:
/// `risk_factor_language::{cik}::{fiscal_year}` of the current filing.
pub fn language_proposal_id(drift: &RiskFactorLanguageDrift) -> (r: String)
    ensures
        r@ == keyed_id("risk_factor_language::"@, drift.current.cik.0@, drift.current.fiscal_year),
{
    make_keyed_id("risk_factor_language::", &drift.current.cik, drift.current.fiscal_year)
}

/// `sorted` with `x` placed after every element whose fiscal year is not
/// later than that of `x`, and before the rest.
pub open spec fn insert_by_year(sorted: Seq<SectionView>, x: SectionView) -> Seq<SectionView>
    decreases sorted.len(),
{
    if sorted.len() == 0 {
        seq![x]
    } else if sorted.last().filing.fiscal_year <= x.filing.fiscal_year {
        sorted.push(x)
    } else {
        insert_by_year(sorted.drop_last(), x).push(sorted.last())
    }
}

/// `s` ordered by fiscal year, sections of the same year keeping their order
/// (a stable sort).
pub open spec fn sort_by_year(s: Seq<SectionView>) -> Seq<SectionView>
    decreases s.len(),
{
    if s.len() == 0 {
        s
    } else {
        insert_by_year(sort_by_year(s.drop_last()), s.last())
    }
}

/// The section is filed by `cik`.
pub open spec fn from_filer(cik: Seq<char>) -> spec_fn(SectionView) -> bool {
    |x: SectionView| x.filing.cik == cik
}

/// The section is for fiscal year `y`.
pub open spec fn in_year(y: u16) -> spec_fn(SectionView) -> bool {
    |x: SectionView| x.filing.fiscal_year == y
}

/// The sections of `s` filed by `cik`, in order.
pub open spec fn filed_by(s: Seq<SectionView>, cik: Seq<char>) -> Seq<SectionView> {
    s.filter(from_filer(cik))
}

proof fn lemma_insert_by_year(s: Seq<SectionView>, x: SectionView, p: int)
    requires
        0 <= p <= s.len(),
        forall|i: int| p <= i < s.len() ==> (#[trigger] s[i]).filing.fiscal_year > x.filing.fiscal_year,
        p == 0 || s[p - 1].filing.fiscal_year <= x.filing.fiscal_year,
    ensures
        insert_by_year(s, x) == s.insert(p, x),
    decreases s.len(),
{
    if s.len() == 0 {
        assert(s.insert(p, x) =~= seq![x]);
    } else if s.last().filing.fiscal_year <= x.filing.fiscal_year {
        assert(p == s.len());
        assert(s.insert(p, x) =~= s.push(x));
    } else {
        assert(p < s.len());
        lemma_insert_by_year(s.drop_last(), x, p);
        assert(s.insert(p, x) =~= s.drop_last().insert(p, x).push(s.last()));
    }
}

/// `s` is ordered by fiscal year.
pub open spec fn ordered_by_year(s: Seq<SectionView>) -> bool {
    forall|i: int, j: int|
        0 <= i < j < s.len() ==> #[trigger] s[i].filing.fiscal_year <= #[trigger] s[j].filing.fiscal_year
}

/// The sections of `s` for fiscal year `y`, in order.
pub open spec fn of_year(s: Seq<SectionView>, y: u16) -> Seq<SectionView> {
    s.filter(in_year(y))
}

proof fn lemma_of_year_push(s: Seq<SectionView>, x: SectionView, y: u16)
    ensures
        of_year(s.push(x), y) == if x.filing.fiscal_year == y {
            of_year(s, y).push(x)
        } else {
            of_year(s, y)
        },
{
    s.lemma_filter_push(x, in_year(y));
}

proof fn lemma_insert_by_year_stable(t: Seq<SectionView>, x: SectionView)
    requires
        ordered_by_year(t),
    ensures
        ordered_by_year(insert_by_year(t, x)),
        insert_by_year(t, x).len() == t.len() + 1,
        insert_by_year(t, x).last() == if t.len() == 0 || t.last().filing.fiscal_year
            <= x.filing.fiscal_year {
            x
        } else {
            t.last()
        },
        forall|y: u16|
            #[trigger] of_year(insert_by_year(t, x), y) == if x.filing.fiscal_year == y {
                of_year(t, y).push(x)
            } else {
                of_year(t, y)
            },
    decreases t.len(),
{
    let r = insert_by_year(t, x);
    if t.len() == 0 {
        assert(r == t.push(x));
        assert forall|y: u16| #[trigger] of_year(r, y) == if x.filing.fiscal_year == y {
            of_year(t, y).push(x)
        } else {
            of_year(t, y)
        } by {
            lemma_of_year_push(t, x, y);
        }
    } else if t.last().filing.fiscal_year <= x.filing.fiscal_year {
        assert(r == t.push(x));
        assert forall|i: int, j: int| 0 <= i < j < r.len() implies #[trigger] r[i].filing.fiscal_year
            <= #[trigger] r[j].filing.fiscal_year by {
            if j == t.len() && i < t.len() - 1 {
                assert(t[i].filing.fiscal_year <= t[t.len() - 1].filing.fiscal_year);
            }
        }
        assert forall|y: u16| #[trigger] of_year(r, y) == if x.filing.fiscal_year == y {
            of_year(t, y).push(x)
        } else {
            of_year(t, y)
        } by {
            lemma_of_year_push(t, x, y);
        }
    } else {
        let u = t.drop_last();
        let w = insert_by_year(u, x);
        assert(ordered_by_year(u)) by {
            assert forall|i: int, j: int| 0 <= i < j < u.len() implies #[trigger] u[i].filing.fiscal_year
                <= #[trigger] u[j].filing.fiscal_year by {
                assert(u[i] == t[i] && u[j] == t[j]);
            }
        }
        lemma_insert_by_year_stable(u, x);
        assert(r == w.push(t.last()));
        assert(w.last().filing.fiscal_year <= t.last().filing.fiscal_year) by {
            if u.len() > 0 {
                assert(u.last() == t[t.len() - 2]);
            }
        }
        assert forall|i: int, j: int| 0 <= i < j < r.len() implies #[trigger] r[i].filing.fiscal_year
            <= #[trigger] r[j].filing.fiscal_year by {
            if j == w.len() {
                if i < w.len() - 1 {
                    assert(w[i].filing.fiscal_year <= w[w.len() - 1].filing.fiscal_year);
                }
            } else {
                assert(r[i] == w[i] && r[j] == w[j]);
            }
        }
        assert(t == u.push(t.last()));
        assert forall|y: u16| #[trigger] of_year(r, y) == if x.filing.fiscal_year == y {
            of_year(t, y).push(x)
        } else {
            of_year(t, y)
        } by {
            lemma_of_year_push(w, t.last(), y);
            lemma_of_year_push(u, t.last(), y);
            assert(of_year(w, y) == if x.filing.fiscal_year == y {
                of_year(u, y).push(x)
            } else {
                of_year(u, y)
            });
        }
    }
}

/// `sort_by_year` is a stable sort: its result is ordered by fiscal year,
/// has as many sections as its input, and holds the sections of each fiscal
/// year in their input order.
pub proof fn lemma_sort_by_year_is_stable(s: Seq<SectionView>)
    ensures
        ordered_by_year(sort_by_year(s)),
        sort_by_year(s).len() == s.len(),
        forall|y: u16| #[trigger] of_year(sort_by_year(s), y) == of_year(s, y),
    decreases s.len(),
{
    if s.len() == 0 {
        assert(ordered_by_year(sort_by_year(s)));
    } else {
        let u = s.drop_last();
        lemma_sort_by_year_is_stable(u);
        lemma_insert_by_year_stable(sort_by_year(u), s.last());
        assert(s == u.push(s.last()));
        assert forall|y: u16| #[trigger] of_year(sort_by_year(s), y) == of_year(s, y) by {
            lemma_of_year_push(u, s.last(), y);
            assert(of_year(sort_by_year(u), y) == of_year(u, y));
        }
    }
}

/// The sections filed by `cik`, ordered by fiscal year (sections of one year
/// keep their order).
pub fn sections_for_cik(sections: &[RiskFactorSection], cik: &Cik) -> (r: Vec<RiskFactorSection>)
    ensures
        section_views(r@) == sort_by_year(filed_by(section_views(sections@), cik.0@)),
{
    let ghost pred = from_filer(cik.0@);
    let ghost s = section_views(sections@);
    let mut out: Vec<RiskFactorSection> = Vec::new();
    for i in 0..sections.len()
        invariant
            pred == from_filer(cik.0@),
            s == section_views(sections@),
            section_views(out@) == sort_by_year(s.take(i as int).filter(pred)),
    {
        let ghost before = section_views(out@);
        let ghost prefix = s.take(i + 1);
        assert(prefix.drop_last() =~= s.take(i as int));
        assert(prefix.last() == sections@[i as int]@);
        assert(prefix.filter(pred) == if pred(prefix.last()) {
            prefix.drop_last().filter(pred).push(prefix.last())
        } else {
            prefix.drop_last().filter(pred)
        }) by {
            reveal_with_fuel(Seq::<_>::filter, 1);
        }
        if sections[i].filing.cik.0 == cik.0 {
            let x = sections[i].clone();
            let mut p: usize = out.len();
            while p > 0 && out[p - 1].filing.fiscal_year > x.filing.fiscal_year
                invariant
                    p <= out.len(),
                    before == section_views(out@),
                    forall|q: int| p <= q < out.len() ==> (#[trigger] before[q]).filing.fiscal_year
                        > x.filing.fiscal_year,
                decreases p,
            {
                assert(before[p - 1] == out@[p - 1]@);
                p = p - 1;
            }
            proof {
                if p > 0 {
                    assert(before[p - 1] == out@[p - 1]@);
                }
                lemma_insert_by_year(before, x@, p as int);
            }
            out.insert(p, x);
            assert(section_views(out@) =~= before.insert(p as int, x@));
            assert(sort_by_year(prefix.filter(pred)) == insert_by_year(
                sort_by_year(s.take(i as int).filter(pred)),
                x@,
            )) by {
                assert(prefix.filter(pred).drop_last() =~= s.take(i as int).filter(pred));
            }
        }
    }
    assert(s.take(sections.len() as int) =~= s);
    out
}

} // verus!
