use fathom::analysis::{
    DRIFT_PROVENANCE, LANGUAGE_PROVENANCE, accepts, drift_proposal_id, has_enough_for_drift,
    language_proposal_id, sections_for_cik, signal_fact_id,
};
use fathom::drift::compute_drifts;
use fathom::language::compute_language_drifts;
use fathom::model::{Cik, FilingId, FormType, RiskFactorDrift, RiskFactorLanguageDrift, RiskFactorSection};

fn section(cik: &str, fy: u16, n: usize) -> RiskFactorSection {
    RiskFactorSection {
        filing: FilingId {
            cik: Cik::new(cik),
            form: FormType::TenK,
            fiscal_year: fy,
        },
        risk_factors: (0..n).map(|i| format!("risk-{i}")).collect(),
    }
}

#[test]
fn sections_for_cik_filters_and_sorts_stably() {
    let sections = vec![
        section("2", 2024, 1),
        section("1", 2025, 2),
        section("1", 2023, 3),
        section("1", 2025, 4),
        section("1", 2024, 5),
    ];
    let picked = sections_for_cik(&sections, &Cik::new("1"));
    let shape: Vec<(u16, usize)> = picked.iter().map(|s| (s.filing.fiscal_year, s.count())).collect();
    assert_eq!(shape, vec![(2023, 3), (2024, 5), (2025, 2), (2025, 4)]);
    assert!(sections_for_cik(&sections, &Cik::new("3")).is_empty());
}

#[test]
fn ids_name_filer_and_year() {
    let s = section("0000320193", 2025, 1);
    assert_eq!(signal_fact_id(&s), "filing::0000320193::2025");
    let d = RiskFactorDrift {
        current: s.filing.clone(),
        prior: section("0000320193", 2024, 0).filing,
        current_count: 1,
        prior_count: 0,
        delta: 1,
    };
    assert_eq!(drift_proposal_id(&d), "risk_factor_drift::0000320193::2025");
    let l = RiskFactorLanguageDrift {
        current: section("0000320193", 7, 0).filing,
        prior: section("0000320193", 6, 0).filing,
        identical_count: 0,
        union_count: 0,
        added: vec![],
        removed: vec![],
    };
    assert_eq!(language_proposal_id(&l), "risk_factor_language::0000320193::7");
}

#[test]
fn suggestors_run_once_and_need_two_sections() {
    let none: Vec<String> = vec![];
    let mine = vec!["other".to_string(), DRIFT_PROVENANCE.to_string()];
    assert!(accepts(&none, DRIFT_PROVENANCE, 2));
    assert!(!accepts(&none, DRIFT_PROVENANCE, 1));
    assert!(!accepts(&mine, DRIFT_PROVENANCE, 5));
    assert!(accepts(&mine, LANGUAGE_PROVENANCE, 5));
    assert!(!has_enough_for_drift(0));
    assert!(has_enough_for_drift(2));
}

#[test]
fn apple_fixture_years_give_one_drift() {
    let sections = vec![section("0000320193", 2025, 27), section("0000320193", 2024, 28)];
    let ordered = sections_for_cik(&sections, &Cik::new("0000320193"));
    let drifts = compute_drifts(&ordered);
    assert_eq!(drifts.len(), 1);
    assert_eq!(drifts[0].current.fiscal_year, 2025);
    assert_eq!(drifts[0].prior.fiscal_year, 2024);
    assert_eq!(drifts[0].current_count, 27);
    assert_eq!(drifts[0].prior_count, 28);
    assert_eq!(drifts[0].delta, -1);
    assert_eq!(compute_language_drifts(&ordered).len(), 1);
}
