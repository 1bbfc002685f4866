use fathom::hf::{
    CompanyRecord, FilingRecord, ReportSections, is_blank_line, record_lines, sections_of_company,
    split_lines,
    to_risk_factor_section,
};
use fathom::model::FormType;

fn filing(date: &str, form: &str, section_1a: &[&str]) -> FilingRecord {
    FilingRecord {
        filing_date: date.to_string(),
        form: form.to_string(),
        report: ReportSections {
            section_1a: section_1a.iter().map(|s| s.to_string()).collect(),
        },
    }
}

#[test]
fn parses_jsonl_company_record() {
    let company = CompanyRecord {
        cik: "0001602658".to_string(),
        name: "Investar Holding Corp".to_string(),
        filings: vec![filing("2021-03-10", "10-K", &["Item 1A.", "Risk one.", "Risk two."])],
    };
    assert_eq!(company.cik, "0001602658");
    assert_eq!(company.filings.len(), 1);
    let section = to_risk_factor_section(&company, &company.filings[0]).expect("section");
    assert_eq!(section.filing.cik.as_str(), "0001602658");
    assert_eq!(section.filing.fiscal_year, 2021);
    assert_eq!(section.filing.form, FormType::TenK);
    assert_eq!(section.risk_factors.len(), 3);
}

#[test]
fn skips_filings_without_section_1a() {
    let company = CompanyRecord {
        cik: "0000000001".to_string(),
        name: "Test".to_string(),
        filings: vec![FilingRecord {
            filing_date: "2024-01-01".to_string(),
            form: "10-K".to_string(),
            report: ReportSections::default(),
        }],
    };
    assert!(to_risk_factor_section(&company, &company.filings[0]).is_none());
}

#[test]
fn skips_unknown_form_types() {
    let company = CompanyRecord {
        cik: "0001".to_string(),
        name: "X".to_string(),
        filings: vec![filing("2024-01-01", "DEF 14A", &["foo."])],
    };
    assert!(to_risk_factor_section(&company, &company.filings[0]).is_none());
}

#[test]
fn years_parse_like_u16_from_str() {
    let company = CompanyRecord {
        cik: "1".to_string(),
        name: "X".to_string(),
        filings: vec![
            filing("+2020-01-01", "10-Q", &["a"]),
            filing("2019", "8-K", &["b"]),
            filing("65536-01-01", "10-K", &["c"]),
            filing("-2020", "10-K", &["d"]),
            filing("20x0-01-01", "10-K", &["e"]),
            filing("", "10-K", &["f"]),
            filing("+-1", "10-K", &["g"]),
            filing("00042-1", "10-K", &["h"]),
        ],
    };
    let years: Vec<Option<u16>> = company
        .filings
        .iter()
        .map(|f| to_risk_factor_section(&company, f).map(|s| s.filing.fiscal_year))
        .collect();
    let expected: Vec<Option<u16>> = company
        .filings
        .iter()
        .map(|f| f.filing_date.split('-').next().and_then(|y| y.parse().ok()))
        .collect();
    assert_eq!(years, expected);
    assert_eq!(years, vec![Some(2020), Some(2019), None, None, None, None, None, Some(42)]);
    let forms: Vec<FormType> = sections_of_company(&company).iter().map(|s| s.filing.form).collect();
    assert_eq!(forms, vec![FormType::TenQ, FormType::EightK, FormType::TenK]);
}

#[test]
fn blank_lines_are_all_white_space() {
    for line in ["", "   ", "\t\u{a0}\u{3000}\r", " x ", "{}", "\u{200b}"] {
        assert_eq!(is_blank_line(line), line.trim().is_empty(), "{line:?}");
    }
}

#[test]
fn lines_split_like_str_lines() {
    let texts = [
        "",
        "a",
        "a\n",
        "a\nb",
        "\n",
        "\n\n",
        "a\r\nb\r\n",
        "a\rb\r",
        "a\r\n\r\nb\r",
        "é\nx\r\n",
    ];
    for t in texts {
        let expected: Vec<String> = t.lines().map(|l| l.to_string()).collect();
        assert_eq!(split_lines(t), expected, "text {t:?}");
    }
}

#[test]
fn record_lines_skip_blank_lines_and_number_from_one() {
    let text = "{\"a\":1}\n  \n\r\n{\"b\":2}\r\n\t\n{\"c\":3}";
    assert_eq!(
        record_lines(text),
        vec![
            (1, "{\"a\":1}".to_string()),
            (4, "{\"b\":2}".to_string()),
            (6, "{\"c\":3}".to_string()),
        ]
    );
    assert!(record_lines("\n \n").is_empty());
}
