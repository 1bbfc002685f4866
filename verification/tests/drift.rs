use fathom::drift::compute_drifts;
use fathom::model::{Cik, FilingId, FormType, RiskFactorDrift, RiskFactorSection};

fn section(cik: &str, fy: u16, n: usize) -> RiskFactorSection {
    RiskFactorSection {
        filing: FilingId {
            cik: Cik::new(cik),
            form: FormType::TenK,
            fiscal_year: fy,
        },
        risk_factors: (0..n).map(|i| format!("risk-{i}")).collect(),
    }
}

#[test]
fn drift_detected_for_consecutive_years() {
    let sections = vec![
        section("0000320193", 2023, 23),
        section("0000320193", 2024, 27),
    ];
    let drifts = compute_drifts(&sections);
    assert_eq!(drifts.len(), 1);
    assert_eq!(drifts[0].delta, 4);
    assert_eq!(drifts[0].current_count, 27);
    assert_eq!(drifts[0].prior_count, 23);
    assert_eq!(drifts[0].current.fiscal_year, 2024);
}

#[test]
fn no_drift_for_non_consecutive_years() {
    let sections = vec![
        section("0000320193", 2020, 20),
        section("0000320193", 2024, 27),
    ];
    assert!(compute_drifts(&sections).is_empty());
}

#[test]
fn drifts_are_per_cik() {
    let sections = vec![
        section("0000320193", 2023, 23),
        section("0000320193", 2024, 27),
        section("0000789019", 2023, 30),
        section("0000789019", 2024, 32),
    ];
    let drifts = compute_drifts(&sections);
    assert_eq!(drifts.len(), 2);
}

#[test]
fn negative_drift_when_count_falls() {
    let sections = vec![
        section("0000320193", 2023, 27),
        section("0000320193", 2024, 23),
    ];
    let drifts = compute_drifts(&sections);
    assert_eq!(drifts[0].delta, -4);
}

fn keys(drifts: &[RiskFactorDrift]) -> Vec<(String, u16, u16)> {
    drifts
        .iter()
        .map(|d| (d.current.cik.0.clone(), d.prior.fiscal_year, d.current.fiscal_year))
        .collect()
}

#[test]
fn drifts_pair_each_year_with_its_predecessor_in_any_input_order() {
    let sections = vec![
        section("0000000001", 2024, 5),
        section("0000000002", 2021, 1),
        section("0000000001", 2022, 3),
        section("0000000001", 2023, 4),
        section("0000000002", 2022, 2),
    ];
    let drifts = compute_drifts(&sections);
    assert_eq!(
        keys(&drifts),
        vec![
            ("0000000001".to_string(), 2022, 2023),
            ("0000000001".to_string(), 2023, 2024),
            ("0000000002".to_string(), 2021, 2022),
        ]
    );
    assert_eq!(drifts[0].delta, 1);
    assert_eq!(drifts[1].delta, 1);
    assert_eq!(drifts[2].delta, 1);
}

#[test]
fn each_filers_drifts_come_in_ascending_year() {
    let sections = vec![
        section("0000320193", 2025, 27),
        section("0000320193", 2024, 28),
        section("0000320193", 2023, 30),
    ];
    let drifts = compute_drifts(&sections);
    assert_eq!(
        keys(&drifts),
        vec![
            ("0000320193".to_string(), 2023, 2024),
            ("0000320193".to_string(), 2024, 2025),
        ]
    );
    assert_eq!(drifts[0].delta, -2);
    assert_eq!(drifts[1].delta, -1);
}

#[test]
fn duplicate_years_pair_last_prior_with_first_current() {
    // Two filings for 2023 and two for 2024: the last 2023 section (in input
    // order) pairs with the first 2024 section.
    let sections = vec![
        section("0000000001", 2024, 10),
        section("0000000001", 2023, 1),
        section("0000000001", 2023, 2),
        section("0000000001", 2024, 20),
    ];
    let drifts = compute_drifts(&sections);
    assert_eq!(drifts.len(), 1);
    assert_eq!(drifts[0].prior_count, 2);
    assert_eq!(drifts[0].current_count, 10);
    assert_eq!(drifts[0].delta, 8);
}

#[test]
fn no_drift_from_empty_or_single_input() {
    assert!(compute_drifts(&[]).is_empty());
    assert!(compute_drifts(&[section("0000000001", 2024, 3)]).is_empty());
}

#[test]
fn year_zero_has_no_predecessor_and_last_year_no_successor() {
    let sections = vec![
        section("0000000001", 0, 3),
        section("0000000001", 65535, 4),
        section("0000000001", 65534, 1),
    ];
    let drifts = compute_drifts(&sections);
    assert_eq!(drifts.len(), 1);
    assert_eq!(drifts[0].current.fiscal_year, 65535);
    assert_eq!(drifts[0].delta, 3);
}
