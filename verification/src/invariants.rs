//! Mass conservation between the count drift and the language drift of one
//! filer and fiscal year: the headings added minus the headings removed must
//! equal the change in the number of risk factors.

use vstd::prelude::*;

use crate::drift::{drift_between, drift_views, drifts_of, lemma_year_pairs, year_pairs};
use crate::language::{language_drift_views, language_drifts_of, lemma_language_drift_mass};
use crate::model::{
    DriftView, LanguageDriftView, RiskFactorDrift, RiskFactorLanguageDrift, RiskFactorSection, SectionView,
    section_views,
};
use crate::text::{int_text, nat_text, push_int, push_nat};

verus! {

/// The mass-conservation invariant: for any filer and fiscal year with both a
/// count drift and a language drift, the headings added minus the headings
/// removed must equal the count delta (see `check_mass_conservation`). A
/// violation is a structural inconsistency that rejects the run.
pub struct RiskFactorMassConservationInvariant;

impl RiskFactorMassConservationInvariant {
    /// The name under which the invariant is registered.
    pub fn name(&self) -> (r: &'static str)
        ensures
            r@ == "risk_factor_mass_conservation"@,
    {
        "risk_factor_mass_conservation"
    }
}

/// Headings added minus headings removed.
pub open spec fn language_delta(l: LanguageDriftView) -> int {
    l.added.len() - l.removed.len()
}

/// Index of the last language drift whose current filing is by `cik` for
/// fiscal year `fy` (the one a table keyed by filer and year keeps when the
/// drifts are entered in order); -1 when there is none.
pub open spec fn last_language_for(langs: Seq<LanguageDriftView>, cik: Seq<char>, fy: int) -> int
    decreases langs.len(),
{
    if langs.len() == 0 {
        -1
    } else if langs.last().current.cik == cik && langs.last().current.fiscal_year as int == fy {
        langs.len() - 1
    } else {
        last_language_for(langs.drop_last(), cik, fy)
    }
}

/// The language drift matched with count drift `k`.
pub open spec fn matched_language(counts: Seq<DriftView>, langs: Seq<LanguageDriftView>, k: int) -> int {
    last_language_for(langs, counts[k].current.cik, counts[k].current.fiscal_year as int)
}

/// Count drift `k` has a language drift for the same filer and year, and
/// the two disagree.
pub open spec fn violates(counts: Seq<DriftView>, langs: Seq<LanguageDriftView>, k: int) -> bool {
    let m = matched_language(counts, langs, k);
    m >= 0 && language_delta(langs[m]) != counts[k].delta
}

/// The description of a violation.
pub open spec fn violation_message(count: DriftView, lang: LanguageDriftView) -> Seq<char> {
    "mass conservation violated for CIK "@ + count.current.cik + " FY"@ + nat_text(
        count.current.fiscal_year as nat,
    ) + ": count delta = "@ + int_text(count.delta) + ", language (added - removed) = ("@
        + nat_text(lang.added.len()) + " - "@ + nat_text(lang.removed.len()) + ") = "@ + int_text(
        language_delta(lang),
    )
}

/// What `last_language_for` denotes: the largest matching index, or -1.
pub proof fn lemma_last_language_for(langs: Seq<LanguageDriftView>, cik: Seq<char>, fy: int)
    ensures
        -1 <= last_language_for(langs, cik, fy) < langs.len(),
        last_language_for(langs, cik, fy) >= 0 ==> langs[last_language_for(langs, cik, fy)].current.cik
            == cik && langs[last_language_for(langs, cik, fy)].current.fiscal_year as int == fy,
        forall|i: int|
            last_language_for(langs, cik, fy) < i < langs.len() ==> !((#[trigger] langs[i]).current.cik
                == cik && langs[i].current.fiscal_year as int == fy),
    decreases langs.len(),
{
    if langs.len() > 0 && !(langs.last().current.cik == cik && langs.last().current.fiscal_year as int
        == fy) {
        lemma_last_language_for(langs.drop_last(), cik, fy);
        assert forall|i: int| last_language_for(langs, cik, fy) < i < langs.len() implies !((
        #[trigger] langs[i]).current.cik == cik && langs[i].current.fiscal_year as int == fy) by {
            if i < langs.len() - 1 {
                assert(langs[i] == langs.drop_last()[i]);
            }
        }
    }
}

/// Index of the last language drift for the filer and year of `count`.
fn find_language(langs: &[RiskFactorLanguageDrift], count: &RiskFactorDrift) -> (r: Option<usize>)
    ensures
        r is Some ==> r->0 < langs@.len(),
        r is Some ==> r->0 as int == last_language_for(
            language_drift_views(langs@),
            count@.current.cik,
            count@.current.fiscal_year as int,
        ),
        r is None ==> last_language_for(
            language_drift_views(langs@),
            count@.current.cik,
            count@.current.fiscal_year as int,
        ) == -1,
{
    let ghost lv = language_drift_views(langs@);
    let ghost cik = count@.current.cik;
    let ghost fy = count@.current.fiscal_year as int;
    proof {
        lemma_last_language_for(lv, cik, fy);
    }
    let mut k: usize = langs.len();
    while k > 0
        invariant
            k <= langs@.len(),
            lv == language_drift_views(langs@),
            cik == count@.current.cik,
            fy == count@.current.fiscal_year as int,
            forall|i: int|
                k <= i < lv.len() ==> !((#[trigger] lv[i]).current.cik == cik && lv[i].current.fiscal_year
                    as int == fy),
        decreases k,
    {
        k = k - 1;
        if langs[k].current.cik.0 == count.current.cik.0 && langs[k].current.fiscal_year
            == count.current.fiscal_year {
            assert(lv[k as int] == langs@[k as int]@);
            let ghost r = last_language_for(lv, cik, fy);
            assert(r == k as int) by {
                lemma_last_language_for(lv, cik, fy);
                if r < k as int {
                } else if r > k as int {
                    assert(lv[r].current.cik == cik);
                }
            }
            return Some(k);
        }
        assert(lv[k as int] == langs@[k as int]@);
    }
    None
}

fn describe_violation(count: &RiskFactorDrift, lang: &RiskFactorLanguageDrift) -> (r: String)
    requires
        lang.added.len() <= i32::MAX,
        lang.removed.len() <= i32::MAX,
    ensures
        r@ == violation_message(count@, lang@),
{
    let lang_delta: i32 = lang.added.len() as i32 - lang.removed.len() as i32;
    let mut m = String::new();
    m.append("mass conservation violated for CIK ");
    m.append(count.current.cik.as_str());
    m.append(" FY");
    push_nat(&mut m, count.current.fiscal_year as u64);
    m.append(": count delta = ");
    push_int(&mut m, count.delta as i64);
    m.append(", language (added - removed) = (");
    push_nat(&mut m, lang.added.len() as u64);
    m.append(" - ");
    push_nat(&mut m, lang.removed.len() as u64);
    m.append(") = ");
    push_int(&mut m, lang_delta as i64);
    assert(m@ =~= violation_message(count@, lang@));
    m
}

/// Checks mass conservation: for every count drift (in order) that has a
/// language drift for the same filer and fiscal year, the headings added minus
/// the headings removed must equal the count delta. Returns `None` when the
/// identity holds throughout, otherwise a description of the first violation.
pub fn check_mass_conservation(counts: &[RiskFactorDrift], langs: &[RiskFactorLanguageDrift]) -> (r:
    Option<String>)
    requires
        forall|m: int|
            0 <= m < langs@.len() ==> (#[trigger] langs@[m]).added.len() <= i32::MAX
                && langs@[m].removed.len() <= i32::MAX,
    ensures
        r is None <==> forall|k: int|
            0 <= k < counts@.len() ==> !violates(
                drift_views(counts@),
                language_drift_views(langs@),
                k,
            ),
        r matches Some(msg) ==> exists|k: int|
            0 <= k < counts@.len() && violates(drift_views(counts@), language_drift_views(langs@), k)
                && (forall|j: int|
                0 <= j < k ==> !violates(drift_views(counts@), language_drift_views(langs@), j))
                && msg@ == violation_message(
                drift_views(counts@)[k],
                language_drift_views(langs@)[matched_language(
                    drift_views(counts@),
                    language_drift_views(langs@),
                    k,
                )],
            ),
{
    let ghost cv = drift_views(counts@);
    let ghost lv = language_drift_views(langs@);
    for k in 0..counts.len()
        invariant
            cv == drift_views(counts@),
            lv == language_drift_views(langs@),
            forall|m: int|
                0 <= m < langs@.len() ==> (#[trigger] langs@[m]).added.len() <= i32::MAX
                    && langs@[m].removed.len() <= i32::MAX,
            forall|j: int| 0 <= j < k ==> !violates(cv, lv, j),
    {
        assert(cv[k as int] == counts@[k as int]@);
        match find_language(langs, &counts[k]) {
            Some(m) => {
                assert(lv[m as int] == langs@[m as int]@);
                let lang = &langs[m];
                let lang_delta: i32 = lang.added.len() as i32 - lang.removed.len() as i32;
                if lang_delta != counts[k].delta {
                    let msg = describe_violation(&counts[k], lang);
                    assert(violates(cv, lv, k as int));
                    return Some(msg);
                }
            },
            None => {},
        }
    }
    None
}

/// Mass conservation of the library's own drifts: when no section repeats a
/// heading, the count drifts and the language drifts computed from the same
/// sections agree for every filer and fiscal year (headings added minus
/// headings removed equals the count delta), so the check finds no violation.
pub proof fn lemma_drifts_conserve_mass(s: Seq<SectionView>, langs: Seq<LanguageDriftView>)
    requires
        forall|i: int| 0 <= i < s.len() ==> (#[trigger] s[i]).risk_factors.no_duplicates(),
        language_drifts_of(s, langs),
    ensures
        forall|k: int| 0 <= k < drifts_of(s).len() ==> !violates(drifts_of(s), langs, k),
{
    let pairs = year_pairs(s);
    let counts = drifts_of(s);
    lemma_year_pairs(s);
    assert forall|k: int| 0 <= k < counts.len() implies !violates(counts, langs, k) by {
        let (a, b) = pairs[k];
        let cik = b.filing.cik;
        let fy = b.filing.fiscal_year as int;
        assert(counts[k] == drift_between(a, b));
        let m = matched_language(counts, langs, k);
        lemma_last_language_for(langs, cik, fy);
        if m >= 0 {
            assert(crate::language::language_drift_between(langs[m], pairs[m].0, pairs[m].1));
            assert(m == k) by {
                if m < k {
                    assert(!(pairs[m].1.filing.cik == pairs[k].1.filing.cik
                        && pairs[m].1.filing.fiscal_year == pairs[k].1.filing.fiscal_year));
                } else if m > k {
                    assert(!(pairs[k].1.filing.cik == pairs[m].1.filing.cik
                        && pairs[k].1.filing.fiscal_year == pairs[m].1.filing.fiscal_year));
                }
            }
            let i = choose|i: int| 0 <= i < s.len() && s[i] == a;
            let j = choose|j: int| 0 <= j < s.len() && s[j] == b;
            lemma_language_drift_mass(langs[m], a, b);
        }
    }
}

} // verus!

verus! {

/// The check passes on what the suggestors compute: for drifts that
/// `compute_drifts` and `compute_language_drifts` return from the same
/// sections, none of which repeats a heading, no count drift disagrees with
/// its language drift, so `check_mass_conservation` returns `None`.
pub proof fn lemma_computed_drifts_pass_check(
    sections: Seq<RiskFactorSection>,
    counts: Seq<RiskFactorDrift>,
    langs: Seq<RiskFactorLanguageDrift>,
)
    requires
        forall|i: int|
            0 <= i < sections.len() ==> (#[trigger] sections[i]).risk_factors.deep_view().no_duplicates(),
        drift_views(counts) == drifts_of(section_views(sections)),
        language_drifts_of(section_views(sections), language_drift_views(langs)),
    ensures
        forall|k: int|
            0 <= k < counts.len() ==> !violates(drift_views(counts), language_drift_views(langs), k),
{
    let s = section_views(sections);
    assert forall|i: int| 0 <= i < s.len() implies (#[trigger] s[i]).risk_factors.no_duplicates() by {
        assert(s[i] == sections[i]@);
    }
    lemma_drifts_conserve_mass(s, language_drift_views(langs));
}

} // verus!

verus! {

/// What a violation is, in terms of the drifts themselves: count drift `k` is
/// in violation exactly when the last language drift for the same filer and
/// current fiscal year exists and its headings added minus headings removed
/// differ (in either direction) from the count delta.
pub proof fn lemma_violation_is_disagreement(
    counts: Seq<DriftView>,
    langs: Seq<LanguageDriftView>,
    k: int,
)
    requires
        0 <= k < counts.len(),
    ensures
        forall|m: int|
            0 <= m < langs.len() && (#[trigger] langs[m]).current.cik == counts[k].current.cik
                && langs[m].current.fiscal_year == counts[k].current.fiscal_year && (forall|i: int|
                m < i < langs.len() ==> !((#[trigger] langs[i]).current.cik == counts[k].current.cik
                    && langs[i].current.fiscal_year == counts[k].current.fiscal_year)) ==> (violates(
                counts,
                langs,
                k,
            ) <==> langs[m].added.len() - langs[m].removed.len() != counts[k].delta),
        (forall|i: int|
            0 <= i < langs.len() ==> !((#[trigger] langs[i]).current.cik == counts[k].current.cik
                && langs[i].current.fiscal_year == counts[k].current.fiscal_year)) ==> !violates(
            counts,
            langs,
            k,
        ),
{
    let cik = counts[k].current.cik;
    let fy = counts[k].current.fiscal_year as int;
    lemma_last_language_for(langs, cik, fy);
    let r = last_language_for(langs, cik, fy);
    assert forall|m: int|
        0 <= m < langs.len() && (#[trigger] langs[m]).current.cik == counts[k].current.cik
            && langs[m].current.fiscal_year == counts[k].current.fiscal_year && (forall|i: int|
            m < i < langs.len() ==> !((#[trigger] langs[i]).current.cik == counts[k].current.cik
                && langs[i].current.fiscal_year == counts[k].current.fiscal_year)) implies (violates(
        counts,
        langs,
        k,
    ) <==> langs[m].added.len() - langs[m].removed.len() != counts[k].delta) by {
        if r < m {
            assert(langs[m].current.cik == cik && langs[m].current.fiscal_year as int == fy);
        } else if r > m {
            assert(langs[r].current.cik == cik && langs[r].current.fiscal_year as int == fy);
        }
    }
    if forall|i: int|
        0 <= i < langs.len() ==> !((#[trigger] langs[i]).current.cik == counts[k].current.cik
            && langs[i].current.fiscal_year == counts[k].current.fiscal_year) {
        if r >= 0 {
            assert(langs[r].current.cik == cik && langs[r].current.fiscal_year as int == fy);
        }
    }
}

} // verus!
