use fathom::invariants::{RiskFactorMassConservationInvariant, check_mass_conservation};
use fathom::drift::compute_drifts;
use fathom::language::compute_language_drifts;
use fathom::model::{Cik, FilingId, FormType, RiskFactorDrift, RiskFactorLanguageDrift, RiskFactorSection};

fn filing(cik: &str, fy: u16) -> FilingId {
    FilingId {
        cik: Cik::new(cik),
        form: FormType::TenK,
        fiscal_year: fy,
    }
}

fn count_drift(cik: &str, fy: u16, prior: usize, current: usize) -> RiskFactorDrift {
    RiskFactorDrift {
        current: filing(cik, fy),
        prior: filing(cik, fy - 1),
        current_count: current,
        prior_count: prior,
        delta: current as i32 - prior as i32,
    }
}

fn lang_drift(cik: &str, fy: u16, added: usize, removed: usize) -> RiskFactorLanguageDrift {
    RiskFactorLanguageDrift {
        current: filing(cik, fy),
        prior: filing(cik, fy - 1),
        identical_count: 20,
        union_count: 25,
        added: (0..added).map(|i| format!("a-{i}")).collect(),
        removed: (0..removed).map(|i| format!("r-{i}")).collect(),
    }
}

#[test]
fn passes_when_identity_holds() {
    let counts = vec![count_drift("0000320193", 2025, 28, 27)];
    let langs = vec![lang_drift("0000320193", 2025, 6, 7)];
    assert!(check_mass_conservation(&counts, &langs).is_none());
}

#[test]
fn passes_when_only_count_present() {
    let counts = vec![count_drift("0000320193", 2025, 28, 27)];
    assert!(check_mass_conservation(&counts, &[]).is_none());
}

#[test]
fn passes_when_only_language_present() {
    let langs = vec![lang_drift("0000320193", 2025, 3, 3)];
    assert!(check_mass_conservation(&[], &langs).is_none());
}

#[test]
fn violates_when_identity_breaks() {
    let counts = vec![count_drift("0000320193", 2025, 28, 27)];
    let langs = vec![lang_drift("0000320193", 2025, 6, 8)];
    let reason = check_mass_conservation(&counts, &langs).expect("violation");
    assert!(reason.contains("mass conservation"));
    assert!(reason.contains("0000320193"));
}

#[test]
fn violates_when_count_grows_but_language_does_not() {
    let counts = vec![count_drift("0000789019", 2025, 30, 35)];
    let langs = vec![lang_drift("0000789019", 2025, 2, 0)];
    assert!(check_mass_conservation(&counts, &langs).is_some());
}

#[test]
fn checks_per_cik_independently() {
    let counts = vec![
        count_drift("0000320193", 2025, 28, 27),
        count_drift("0000789019", 2025, 30, 35),
    ];
    let langs = vec![
        lang_drift("0000320193", 2025, 6, 7),
        lang_drift("0000789019", 2025, 2, 0),
    ];
    let reason = check_mass_conservation(&counts, &langs).expect("violation");
    assert!(reason.contains("0000789019"));
}

#[test]
fn violation_message_is_exact() {
    let counts = vec![count_drift("0000320193", 2025, 28, 27)];
    let langs = vec![lang_drift("0000320193", 2025, 6, 8)];
    assert_eq!(
        check_mass_conservation(&counts, &langs).unwrap(),
        "mass conservation violated for CIK 0000320193 FY2025: count delta = -1, \
         language (added - removed) = (6 - 8) = -2"
    );
}

#[test]
fn last_language_drift_for_a_key_is_the_one_checked() {
    let counts = vec![count_drift("0000320193", 2025, 28, 27)];
    let ok_then_bad = vec![
        lang_drift("0000320193", 2025, 6, 7),
        lang_drift("0000320193", 2025, 6, 9),
    ];
    assert!(check_mass_conservation(&counts, &ok_then_bad).is_some());
    let bad_then_ok = vec![
        lang_drift("0000320193", 2025, 6, 9),
        lang_drift("0000320193", 2025, 6, 7),
    ];
    assert!(check_mass_conservation(&counts, &bad_then_ok).is_none());
}

#[test]
fn computed_drifts_conserve_mass() {
    let s = |cik: &str, fy: u16, h: &[&str]| RiskFactorSection {
        filing: filing(cik, fy),
        risk_factors: h.iter().map(|x| x.to_string()).collect(),
    };
    let sections = vec![
        s("0000000001", 2023, &["a", "b", "c"]),
        s("0000000001", 2024, &["b", "d"]),
        s("0000000002", 2022, &["x"]),
        s("0000000002", 2023, &["x", "y", "z"]),
    ];
    let counts = compute_drifts(&sections);
    let langs = compute_language_drifts(&sections);
    assert_eq!(counts.len(), 2);
    assert!(check_mass_conservation(&counts, &langs).is_none());
}

#[test]
fn invariant_name() {
    assert_eq!(RiskFactorMassConservationInvariant.name(), "risk_factor_mass_conservation");
}
