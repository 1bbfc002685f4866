use fathom::model::{Cik, FilingId, FormType, RiskFactorDrift, RiskFactorLanguageDrift, RiskFactorSection};
use fathom::text::{push_int, push_nat};

#[test]
fn metric_names() {
    assert_eq!(RiskFactorDrift::metric_name(), "risk_factor_count_delta_yoy");
    assert_eq!(RiskFactorLanguageDrift::metric_name(), "risk_factor_language_drift_yoy");
}

#[test]
fn cik_and_section_basics() {
    let cik = Cik::new("0000320193");
    assert_eq!(cik.as_str(), "0000320193");
    let s = RiskFactorSection {
        filing: FilingId { cik: cik.clone(), form: FormType::TenQ, fiscal_year: 2024 },
        risk_factors: vec!["a".to_string(), "b".to_string()],
    };
    assert_eq!(s.count(), 2);
    assert_eq!(s.clone(), s);
}

#[test]
fn decimal_rendering_matches_format() {
    for n in [0i64, 7, 10, 2025, -1, -4, i32::MIN as i64, i64::MAX, i64::MIN] {
        let mut out = String::from(">");
        push_int(&mut out, n);
        assert_eq!(out, format!(">{n}"));
    }
    let mut out = String::new();
    push_nat(&mut out, u64::MAX);
    assert_eq!(out, u64::MAX.to_string());
}
