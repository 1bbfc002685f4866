use fathom::language::{compute_language_drifts, jaccard_drift, sort_texts};
use fathom::model::{Cik, FilingId, FormType, RiskFactorLanguageDrift, RiskFactorSection};

fn section(cik: &str, fy: u16, headings: &[&str]) -> RiskFactorSection {
    RiskFactorSection {
        filing: FilingId {
            cik: Cik::new(cik),
            form: FormType::TenK,
            fiscal_year: fy,
        },
        risk_factors: headings.iter().map(|s| s.to_string()).collect(),
    }
}

/// The Jaccard similarity the two counts give (one when both years are empty).
fn jaccard(d: &RiskFactorLanguageDrift) -> f64 {
    if d.union_count == 0 {
        1.0
    } else {
        d.identical_count as f64 / d.union_count as f64
    }
}

#[test]
fn identical_sections_jaccard_one() {
    let h = ["A", "B", "C"];
    let drifts = compute_language_drifts(&[
        section("0000000001", 2023, &h),
        section("0000000001", 2024, &h),
    ]);
    assert_eq!(drifts.len(), 1);
    assert_eq!(jaccard(&drifts[0]), 1.0);
    assert_eq!(drifts[0].identical_count, 3);
    assert!(drifts[0].added.is_empty());
    assert!(drifts[0].removed.is_empty());
}

#[test]
fn disjoint_sections_jaccard_zero() {
    let drifts = compute_language_drifts(&[
        section("0000000001", 2023, &["A", "B"]),
        section("0000000001", 2024, &["X", "Y"]),
    ]);
    assert_eq!(jaccard(&drifts[0]), 0.0);
    assert_eq!(drifts[0].identical_count, 0);
    assert_eq!(drifts[0].added, vec!["X".to_string(), "Y".to_string()]);
    assert_eq!(drifts[0].removed, vec!["A".to_string(), "B".to_string()]);
}

#[test]
fn partial_overlap_jaccard() {
    let drifts = compute_language_drifts(&[
        section("0000000001", 2023, &["A", "B", "C"]),
        section("0000000001", 2024, &["B", "C", "D"]),
    ]);
    assert!((jaccard(&drifts[0]) - 0.5).abs() < 1e-9);
    assert_eq!(drifts[0].identical_count, 2);
    assert_eq!(drifts[0].added, vec!["D".to_string()]);
    assert_eq!(drifts[0].removed, vec!["A".to_string()]);
}

#[test]
fn skips_non_consecutive_years() {
    let drifts = compute_language_drifts(&[
        section("0000000001", 2020, &["A"]),
        section("0000000001", 2024, &["A"]),
    ]);
    assert!(drifts.is_empty());
}

#[test]
fn drifts_per_cik() {
    let drifts = compute_language_drifts(&[
        section("0000000001", 2023, &["A"]),
        section("0000000001", 2024, &["B"]),
        section("0000000002", 2023, &["X"]),
        section("0000000002", 2024, &["X"]),
    ]);
    assert_eq!(drifts.len(), 2);
}

#[test]
fn repeated_headings_count_once_and_lists_are_sorted() {
    let d = jaccard_drift(
        &section("0000000001", 2023, &["b", "a", "b", "z"]),
        &section("0000000001", 2024, &["z", "c", "c", "B", "a"]),
    );
    assert_eq!(d.identical_count, 2);
    assert_eq!(d.union_count, 5);
    assert_eq!(d.added, vec!["B".to_string(), "c".to_string()]);
    assert_eq!(d.removed, vec!["b".to_string()]);
    assert_eq!(d.prior.fiscal_year, 2023);
    assert_eq!(d.current.fiscal_year, 2024);
}

#[test]
fn empty_sections_have_empty_union() {
    let d = jaccard_drift(&section("0000000001", 2023, &[]), &section("0000000001", 2024, &[]));
    assert_eq!(d.identical_count, 0);
    assert_eq!(d.union_count, 0);
    assert_eq!(jaccard(&d), 1.0);
}

#[test]
fn sorting_orders_by_code_point() {
    let v = vec![
        "é".to_string(),
        "ab".to_string(),
        "a".to_string(),
        "Z".to_string(),
        "".to_string(),
    ];
    let sorted = sort_texts(&v);
    let mut expected = v.clone();
    expected.sort();
    assert_eq!(sorted, expected);
}

#[test]
fn language_drift_counts_partition_the_union() {
    let d = jaccard_drift(
        &section("0000000001", 2023, &["p", "q", "r"]),
        &section("0000000001", 2024, &["q", "s"]),
    );
    assert_eq!(d.union_count, d.identical_count + d.added.len() + d.removed.len());
    assert_eq!(d.added.len() as i64 - d.removed.len() as i64, 2 - 3);
}

#[test]
fn language_drift_is_symmetric() {
    let a = section("0000000001", 2023, &["A", "B", "C", "C"]);
    let b = section("0000000001", 2024, &["D", "B", "E"]);
    let ab = jaccard_drift(&a, &b);
    let ba = jaccard_drift(&b, &a);
    assert_eq!(ab.identical_count, ba.identical_count);
    assert_eq!(ab.union_count, ba.union_count);
    assert_eq!(jaccard(&ab), jaccard(&ba));
    assert_eq!(ab.added, ba.removed);
    assert_eq!(ab.removed, ba.added);
    assert_eq!(ab.current, ba.prior);
    assert_eq!(ab.prior, ba.current);
    assert_eq!(ab.added, vec!["D".to_string(), "E".to_string()]);
    assert_eq!(ab.removed, vec!["A".to_string(), "C".to_string()]);
}

#[test]
fn language_drifts_pair_the_same_filings_as_count_drifts() {
    let sections = [
        section("0000000002", 2024, &["X"]),
        section("0000000001", 2024, &["A", "B"]),
        section("0000000001", 2023, &["A"]),
        section("0000000002", 2023, &["Y", "X"]),
        section("0000000001", 2025, &["B"]),
    ];
    let langs = compute_language_drifts(&sections);
    let counts = fathom::drift::compute_drifts(&sections);
    assert_eq!(langs.len(), counts.len());
    assert_eq!(langs.len(), 3);
    for (l, c) in langs.iter().zip(counts.iter()) {
        assert_eq!(l.prior, c.prior);
        assert_eq!(l.current, c.current);
        assert_eq!(l.added.len() as i32 - l.removed.len() as i32, c.delta);
    }
}
