//! Domain types: filers, filings, their risk-factor sections, and the drift
//! facts computed from consecutive filings.

use vstd::prelude::*;

verus! {

/// SEC form type. Only the forms that are analysed are modelled.
#[derive(Debug, Clone, Copy, PartialEq, Eq, Hash)]
pub enum FormType {
    /// Annual report ("10-K").
    TenK,
    /// Quarterly report ("10-Q").
    TenQ,
    /// Material event report ("8-K").
    EightK,
}

/// Central Index Key: the SEC's identifier for a filer, stored as the
/// zero-padded ten-character string (e.g. `"0000320193"`).
#[derive(Debug, PartialEq, Eq, Hash)]
pub struct Cik(pub String);

impl Cik {
    pub fn new(raw: &str) -> (r: Cik)
        ensures
            r.0@ == raw@,
    {
        Cik(raw.to_owned())
    }

    pub fn as_str(&self) -> (r: &str)
        ensures
            r@ == self.0@,
    {
        self.0.as_str()
    }
}

impl Clone for Cik {
    fn clone(&self) -> (r: Self)
        ensures
            r.0@ == self.0@,
    {
        Cik(self.0.clone())
    }
}

/// The abstract value of a filing's identity.
pub struct FilingView {
    pub cik: Seq<char>,
    pub form: FormType,
    pub fiscal_year: u16,
}

/// Identity of a single filing: a (filer, form, fiscal year) triple.
#[derive(Debug, PartialEq, Eq, Hash)]
pub struct FilingId {
    pub cik: Cik,
    pub form: FormType,
    pub fiscal_year: u16,
}

impl View for FilingId {
    type V = FilingView;

    open spec fn view(&self) -> FilingView {
        FilingView { cik: self.cik.0@, form: self.form, fiscal_year: self.fiscal_year }
    }
}

impl Clone for FilingId {
    fn clone(&self) -> (r: Self)
        ensures
            r@ == self@,
    {
        FilingId { cik: self.cik.clone(), form: self.form, fiscal_year: self.fiscal_year }
    }
}

/// The abstract value of a risk-factor section.
pub struct SectionView {
    pub filing: FilingView,
    pub risk_factors: Seq<Seq<char>>,
}

/// The Item 1A "Risk Factors" section of a filing, as individual items: one
/// entry per disclosed risk factor, with its full text.
#[derive(Debug, PartialEq, Eq)]
pub struct RiskFactorSection {
    pub filing: FilingId,
    pub risk_factors: Vec<String>,
}

impl View for RiskFactorSection {
    type V = SectionView;

    open spec fn view(&self) -> SectionView {
        SectionView { filing: self.filing@, risk_factors: self.risk_factors.deep_view() }
    }
}

impl Clone for RiskFactorSection {
    fn clone(&self) -> (r: Self)
        ensures
            r@ == self@,
    {
        RiskFactorSection {
            filing: self.filing.clone(),
            risk_factors: crate::text::copy_texts(&self.risk_factors),
        }
    }
}

impl RiskFactorSection {
    /// The number of risk factors disclosed.
    pub fn count(&self) -> (r: usize)
        ensures
            r == self.risk_factors.len(),
    {
        self.risk_factors.len()
    }
}

/// The abstract values of a sequence of sections.
pub open spec fn section_views(s: Seq<RiskFactorSection>) -> Seq<SectionView> {
    s.map_values(|x: RiskFactorSection| x@)
}

/// The abstract value of a count drift.
pub struct DriftView {
    pub current: FilingView,
    pub prior: FilingView,
    pub current_count: nat,
    pub prior_count: nat,
    pub delta: int,
}

/// Year-over-year drift in the count of disclosed risk factors.
///
/// A positive `delta` means the issuer disclosed more risks this year than
/// last; negative means fewer.
#[derive(Debug, PartialEq, Eq)]
pub struct RiskFactorDrift {
    pub current: FilingId,
    pub prior: FilingId,
    pub current_count: usize,
    pub prior_count: usize,
    pub delta: i32,
}

impl View for RiskFactorDrift {
    type V = DriftView;

    open spec fn view(&self) -> DriftView {
        DriftView {
            current: self.current@,
            prior: self.prior@,
            current_count: self.current_count as nat,
            prior_count: self.prior_count as nat,
            delta: self.delta as int,
        }
    }
}

impl RiskFactorDrift {
    /// The name under which this metric is reported.
    pub fn metric_name() -> (r: &'static str)
        ensures
            r@ == "risk_factor_count_delta_yoy"@,
    {
        "risk_factor_count_delta_yoy"
    }
}

/// The abstract value of a language drift.
pub struct LanguageDriftView {
    pub current: FilingView,
    pub prior: FilingView,
    pub identical_count: nat,
    pub union_count: nat,
    pub added: Seq<Seq<char>>,
    pub removed: Seq<Seq<char>>,
}

/// Year-over-year drift in the language of disclosed risk factors.
///
/// `identical_count` is the number of distinct headings present, character
/// for character, in both years; `union_count` the number of distinct headings
/// present in either. Their ratio is the Jaccard similarity of the two heading
/// sets (taken as one when both sets are empty). `added` and `removed` list, in
/// ascending order, the headings that appeared and disappeared.
#[derive(Debug, PartialEq, Eq)]
pub struct RiskFactorLanguageDrift {
    pub current: FilingId,
    pub prior: FilingId,
    pub identical_count: usize,
    pub union_count: usize,
    pub added: Vec<String>,
    pub removed: Vec<String>,
}

impl View for RiskFactorLanguageDrift {
    type V = LanguageDriftView;

    open spec fn view(&self) -> LanguageDriftView {
        LanguageDriftView {
            current: self.current@,
            prior: self.prior@,
            identical_count: self.identical_count as nat,
            union_count: self.union_count as nat,
            added: self.added.deep_view(),
            removed: self.removed.deep_view(),
        }
    }
}

impl RiskFactorLanguageDrift {
    /// The name under which this metric is reported.
    pub fn metric_name() -> (r: &'static str)
        ensures
            r@ == "risk_factor_language_drift_yoy"@,
    {
        "risk_factor_language_drift_yoy"
    }
}

} // verus!
