//! Records of a JSON-lines dataset of company filings (one company per line,
//! each with all its filings and their Item 1A sentences), and their
//! conversion into risk-factor sections.

use vstd::prelude::*;

use crate::model::{Cik, FilingId, FilingView, FormType, RiskFactorSection, SectionView};
use crate::text::{chars_of, copy_texts, same_text};

verus! {

/// The sections of one filing's report that are used.
#[derive(Debug)]
pub struct ReportSections {
    pub section_1a: Vec<String>,
}

impl Default for ReportSections {
    fn default() -> (r: Self)
        ensures
            r.section_1a@.len() == 0,
    {
        ReportSections { section_1a: Vec::new() }
    }
}

/// One filing of a company.
#[derive(Debug)]
pub struct FilingRecord {
    pub filing_date: String,
    pub form: String,
    pub report: ReportSections,
}

/// One company, with every filing it made.
#[derive(Debug)]
pub struct CompanyRecord {
    pub cik: String,
    pub name: String,
    pub filings: Vec<FilingRecord>,
}

/// The form type a form name denotes, if it is one that is analysed.
pub open spec fn form_named(form: Seq<char>) -> Option<FormType> {
    if form == "10-K"@ {
        Some(FormType::TenK)
    } else if form == "10-Q"@ {
        Some(FormType::TenQ)
    } else if form == "8-K"@ {
        Some(FormType::EightK)
    } else {
        None
    }
}

/// The text before the first `-` (all of it when there is none).
pub open spec fn before_dash(t: Seq<char>) -> Seq<char>
    decreases t.len(),
{
    if t.len() == 0 {
        t
    } else if t[0] == '-' {
        seq![]
    } else {
        seq![t[0]] + before_dash(t.drop_first())
    }
}

pub open spec fn is_decimal_digit(c: char) -> bool {
    48 <= c as int <= 57
}

/// The value of a string of decimal digits.
pub open spec fn digits_value(t: Seq<char>) -> int
    decreases t.len(),
{
    if t.len() == 0 {
        0
    } else {
        digits_value(t.drop_last()) * 10 + (t.last() as int - 48)
    }
}

/// The text after an optional leading `+`.
pub open spec fn unsigned_digits(t: Seq<char>) -> Seq<char> {
    if t.len() > 0 && t[0] == '+' {
        t.drop_first()
    } else {
        t
    }
}

/// What `str::parse::<u16>` gives: an optional leading `+`, then one or more
/// decimal digits whose value fits in 16 bits.
pub open spec fn parse_u16_text(t: Seq<char>) -> Option<u16> {
    let body = unsigned_digits(t);
    if body.len() > 0 && (forall|i: int| 0 <= i < body.len() ==> is_decimal_digit(#[trigger] body[i]))
        && digits_value(body) <= 65535 {
        Some(digits_value(body) as u16)
    } else {
        None
    }
}

proof fn lemma_digits_value_monotone(t: Seq<char>, i: int, j: int)
    requires
        0 <= i <= j <= t.len(),
        forall|k: int| 0 <= k < t.len() ==> is_decimal_digit(#[trigger] t[k]),
    ensures
        0 <= digits_value(t.take(i)) <= digits_value(t.take(j)),
    decreases j - i,
{
    if i < j {
        lemma_digits_value_monotone(t, i, j - 1);
        assert(t.take(j).drop_last() =~= t.take(j - 1));
        assert(is_decimal_digit(t[j - 1]));
    } else {
        lemma_digits_value_nonneg(t.take(i));
    }
}

proof fn lemma_digits_value_nonneg(t: Seq<char>)
    requires
        forall|k: int| 0 <= k < t.len() ==> is_decimal_digit(#[trigger] t[k]),
    ensures
        digits_value(t) >= 0,
    decreases t.len(),
{
    if t.len() > 0 {
        lemma_digits_value_nonneg(t.drop_last());
        assert(is_decimal_digit(t[t.len() - 1]));
    }
}

/// Parses a 16-bit unsigned decimal number.
pub fn parse_u16(t: &Vec<char>) -> (r: Option<u16>)
    ensures
        r == parse_u16_text(t@),
{
    let start: usize = if t.len() > 0 && t[0] == '+' {
        1
    } else {
        0
    };
    let ghost body = t@.skip(start as int);
    assert(body =~= unsigned_digits(t@));
    if start >= t.len() {
        return None;
    }
    let mut acc: u32 = 0;
    let mut i: usize = start;
    assert(body.take(0) =~= seq![]);
    while i < t.len()
        invariant
            start <= i <= t.len(),
            start < t.len(),
            body == t@.skip(start as int),
            body == unsigned_digits(t@),
            forall|k: int| 0 <= k < i - start ==> is_decimal_digit(#[trigger] body[k]),
            acc as int == digits_value(body.take(i - start)),
            acc <= 65535,
        decreases t.len() - i,
    {
        let c = t[i];
        if !('0' <= c && c <= '9') {
            assert(!is_decimal_digit(body[i - start]));
            assert(!(forall|k: int| 0 <= k < body.len() ==> is_decimal_digit(#[trigger] body[k])));
            return None;
        }
        let d: u32 = (c as u32) - 48;
        assert(body.take(i + 1 - start).drop_last() =~= body.take(i - start));
        assert(body[i - start] == c);
        let next: u32 = acc * 10 + d;
        assert(d as int == c as int - 48);
        assert(next as int == digits_value(body.take(i + 1 - start)));
        if next > 65535 {
            proof {
                if forall|k: int| 0 <= k < body.len() ==> is_decimal_digit(#[trigger] body[k]) {
                    lemma_digits_value_monotone(body, i + 1 - start, body.len() as int);
                    assert(body.take(body.len() as int) =~= body);
                }
            }
            return None;
        }
        acc = next;
        i = i + 1;
    }
    assert(body.take(body.len() as int) =~= body);
    Some(acc as u16)
}

/// The text before the first `-`.
fn chars_before_dash(t: &Vec<char>) -> (r: Vec<char>)
    ensures
        r@ == before_dash(t@),
{
    let mut r: Vec<char> = Vec::new();
    let mut i: usize = 0;
    assert(t@.skip(0) =~= t@);
    assert(r@ + t@ =~= t@);
    while i < t.len()
        invariant
            i <= t.len(),
            before_dash(t@) == r@ + before_dash(t@.skip(i as int)),
        decreases t.len() - i,
    {
        if t[i] == '-' {
            assert(before_dash(t@.skip(i as int)) == Seq::<char>::empty());
            assert(r@ + seq![] =~= r@);
            return r;
        }
        assert(t@.skip(i as int).drop_first() =~= t@.skip(i + 1));
        r.push(t[i]);
        assert(r@ + before_dash(t@.skip(i + 1)) =~= r@.drop_last() + (seq![t@[i as int]]
            + before_dash(t@.skip(i + 1))));
        i = i + 1;
    }
    assert(t@.skip(i as int) =~= seq![]);
    assert(r@ + seq![] =~= r@);
    r
}

/// The form type named by `form`, if it is analysed.
pub fn form_type_named(form: &str) -> (r: Option<FormType>)
    ensures
        r == form_named(form@),
{
    if same_text(form, "10-K") {
        Some(FormType::TenK)
    } else if same_text(form, "10-Q") {
        Some(FormType::TenQ)
    } else if same_text(form, "8-K") {
        Some(FormType::EightK)
    } else {
        None
    }
}

/// The section a filing yields: for a filing of an analysed form, whose
/// filing date starts with a year (the text before the first `-`), and whose
/// Item 1A is not empty.
pub open spec fn section_of(company: &CompanyRecord, filing: &FilingRecord) -> Option<SectionView> {
    let form = form_named(filing.form@);
    let year = parse_u16_text(before_dash(filing.filing_date@));
    if form is Some && year is Some && filing.report.section_1a@.len() > 0 {
        Some(
            SectionView {
                filing: FilingView { cik: company.cik@, form: form->0, fiscal_year: year->0 },
                risk_factors: filing.report.section_1a.deep_view(),
            },
        )
    } else {
        None
    }
}

/// Converts one filing of a company into a risk-factor section; `None` for
/// forms that are not analysed, dates that do not start with a year, and
/// filings without Item 1A sentences.
pub fn to_risk_factor_section(company: &CompanyRecord, filing: &FilingRecord) -> (r: Option<
    RiskFactorSection,
>)
    ensures
        r is Some <==> section_of(company, filing) is Some,
        r matches Some(s) ==> s@ == section_of(company, filing)->0,
{
    let form = match form_type_named(filing.form.as_str()) {
        Some(f) => f,
        None => return None,
    };
    let date = chars_of(filing.filing_date.as_str());
    let year_chars = chars_before_dash(&date);
    let fiscal_year = match parse_u16(&year_chars) {
        Some(y) => y,
        None => return None,
    };
    if filing.report.section_1a.len() == 0 {
        return None;
    }
    let risk_factors = copy_texts(&filing.report.section_1a);
    Some(
        RiskFactorSection {
            filing: FilingId { cik: Cik::new(company.cik.as_str()), form, fiscal_year },
            risk_factors,
        },
    )
}

} // verus!

verus! {

/// The sections yielded by the first `n` filings of a company, in order.
pub open spec fn sections_upto(company: &CompanyRecord, n: int) -> Seq<SectionView>
    decreases n,
{
    if n <= 0 {
        seq![]
    } else {
        let rest = sections_upto(company, n - 1);
        match section_of(company, &company.filings@[n - 1]) {
            Some(s) => rest.push(s),
            None => rest,
        }
    }
}

/// The sections of all filings of a company that yield one, in filing order.
pub fn sections_of_company(company: &CompanyRecord) -> (r: Vec<RiskFactorSection>)
    ensures
        crate::model::section_views(r@) == sections_upto(company, company.filings@.len() as int),
{
    let mut out: Vec<RiskFactorSection> = Vec::new();
    for i in 0..company.filings.len()
        invariant
            crate::model::section_views(out@) == sections_upto(company, i as int),
    {
        let ghost before = crate::model::section_views(out@);
        match to_risk_factor_section(company, &company.filings[i]) {
            Some(s) => {
                out.push(s);
                assert(crate::model::section_views(out@) =~= before.push(
                    section_of(company, &company.filings@[i as int])->0,
                ));
            },
            None => {},
        }
    }
    out
}

/// A character with the Unicode White_Space property (what
/// `char::is_whitespace` tests).
pub open spec fn is_white_space(c: char) -> bool {
    let v = c as u32;
    ||| 0x9 <= v <= 0xD
    ||| v == 0x20
    ||| v == 0x85
    ||| v == 0xA0
    ||| v == 0x1680
    ||| 0x2000 <= v <= 0x200A
    ||| v == 0x2028
    ||| v == 0x2029
    ||| v == 0x202F
    ||| v == 0x205F
    ||| v == 0x3000
}

/// Whether a line holds nothing but white space (it is empty once trimmed);
/// such lines carry no record.
pub fn is_blank_line(line: &str) -> (r: bool)
    ensures
        r == forall|i: int| 0 <= i < line@.len() ==> is_white_space(#[trigger] line@[i]),
{
    let t = chars_of(line);
    for i in 0..t.len()
        invariant
            t@ == line@,
            forall|k: int| 0 <= k < i ==> is_white_space(#[trigger] line@[k]),
    {
        let v: u32 = t[i] as u32;
        let ws = (0x9 <= v && v <= 0xD) || v == 0x20 || v == 0x85 || v == 0xA0 || v == 0x1680 || (
        0x2000 <= v && v <= 0x200A) || v == 0x2028 || v == 0x2029 || v == 0x202F || v == 0x205F
            || v == 0x3000;
        if !ws {
            assert(!is_white_space(line@[i as int]));
            return false;
        }
    }
    true
}

} // verus!

verus! {

/// Position of the first `'\n'` of `t` at or after `i`; `t.len()` when there
/// is none.
pub open spec fn next_newline(t: Seq<char>, i: int) -> int
    decreases t.len() - i,
{
    if i < 0 || i >= t.len() {
        t.len() as int
    } else if t[i] == '\n' {
        i
    } else {
        next_newline(t, i + 1)
    }
}

pub proof fn lemma_next_newline(t: Seq<char>, i: int)
    requires
        0 <= i <= t.len(),
    ensures
        i <= next_newline(t, i) <= t.len(),
        next_newline(t, i) < t.len() ==> t[next_newline(t, i)] == '\n',
        forall|k: int| i <= k < next_newline(t, i) ==> t[k] != '\n',
    decreases t.len() - i,
{
    if i < t.len() && t[i] != '\n' {
        lemma_next_newline(t, i + 1);
    }
}

/// A line of text: the characters before its line feed, without a carriage
/// return just before the line feed (a line that ends the text without a line
/// feed keeps all its characters).
pub open spec fn line_text(l: Seq<char>, terminated: bool) -> Seq<char> {
    if terminated && l.len() > 0 && l.last() == '\r' {
        l.drop_last()
    } else {
        l
    }
}

/// The lines of `t` from position `i` on.
pub open spec fn lines_from(t: Seq<char>, i: int) -> Seq<Seq<char>>
    decreases t.len() - i,
{
    if i < 0 || i >= t.len() {
        seq![]
    } else {
        let e = next_newline(t, i);
        proof {
            lemma_next_newline(t, i);
            assert(e + 1 > i);
        }
        if e < t.len() {
            seq![line_text(t.subrange(i, e), true)] + lines_from(t, e + 1)
        } else {
            seq![t.subrange(i, e)]
        }
    }
}

/// The lines of `t`, as `str::lines` gives them: split at each line feed (a
/// carriage return before it is dropped), with no empty line after a final
/// line feed.
pub open spec fn text_lines(t: Seq<char>) -> Seq<Seq<char>> {
    lines_from(t, 0)
}

/// The lines of `text` (see `text_lines`).
pub fn split_lines(text: &str) -> (r: Vec<String>)
    ensures
        r.deep_view() == text_lines(text@),
{
    let t = chars_of(text);
    let mut out: Vec<String> = Vec::new();
    let mut i: usize = 0;
    while i < t.len()
        invariant
            t@ == text@,
            i <= t.len(),
            text_lines(t@) == out.deep_view() + lines_from(t@, i as int),
        decreases t.len() - i,
    {
        proof {
            lemma_next_newline(t@, i as int);
        }
        let mut e: usize = i;
        while e < t.len() && t[e] != '\n'
            invariant
                i <= e <= t.len(),
                forall|k: int| i <= k < e ==> t@[k] != '\n',
                i < t.len(),
                e <= next_newline(t@, i as int),
                next_newline(t@, i as int) <= t.len(),
                forall|k: int| i <= k < next_newline(t@, i as int) ==> t@[k] != '\n',
                next_newline(t@, i as int) < t.len() ==> t@[next_newline(t@, i as int)] == '\n',
            decreases t.len() - e,
        {
            e = e + 1;
        }
        assert(e == next_newline(t@, i as int));
        let terminated = e < t.len();
        let end: usize = if terminated && e > i && t[e - 1] == '\r' {
            e - 1
        } else {
            e
        };
        let line = text.substring_char(i, end).to_owned();
        assert(line@ =~= line_text(t@.subrange(i as int, e as int), terminated));
        let ghost before = out.deep_view();
        out.push(line);
        assert(out.deep_view() =~= before.push(line@));
        assert(lines_from(t@, i as int) == seq![line@] + lines_from(t@, e + 1));
        assert(before + lines_from(t@, i as int) =~= out.deep_view() + lines_from(t@, e + 1));
        if e >= t.len() - 1 {
            assert(lines_from(t@, e + 1) =~= Seq::<Seq<char>>::empty());
            assert(out.deep_view() + lines_from(t@, e + 1) =~= out.deep_view());
            return out;
        }
        i = e + 1;
    }
    assert(lines_from(t@, i as int) =~= Seq::<Seq<char>>::empty());
    assert(out.deep_view() + lines_from(t@, i as int) =~= out.deep_view());
    out
}

/// A text holding nothing but white space.
pub open spec fn blank(t: Seq<char>) -> bool {
    forall|i: int| 0 <= i < t.len() ==> is_white_space(#[trigger] t[i])
}

/// The lines of `ls` that are not blank, each with its 1-based line number.
pub open spec fn numbered_records(ls: Seq<Seq<char>>) -> Seq<(int, Seq<char>)>
    decreases ls.len(),
{
    if ls.len() == 0 {
        seq![]
    } else if blank(ls.last()) {
        numbered_records(ls.drop_last())
    } else {
        numbered_records(ls.drop_last()).push((ls.len() as int, ls.last()))
    }
}

/// The record lines of a JSON-lines shard: its lines (as `str::lines` splits
/// them) that are not blank, each with its 1-based line number.
pub fn record_lines(text: &str) -> (r: Vec<(usize, String)>)
    ensures
        r@.map_values(|p: (usize, String)| (p.0 as int, p.1@)) == numbered_records(text_lines(text@)),
{
    let lines = split_lines(text);
    let ghost ls = lines.deep_view();
    let mut out: Vec<(usize, String)> = Vec::new();
    for i in 0..lines.len()
        invariant
            ls == lines.deep_view(),
            ls == text_lines(text@),
            out@.map_values(|p: (usize, String)| (p.0 as int, p.1@)) == numbered_records(ls.take(i as int)),
    {
        let ghost before = out@.map_values(|p: (usize, String)| (p.0 as int, p.1@));
        assert(ls.take(i + 1).drop_last() =~= ls.take(i as int));
        assert(ls.take(i + 1).last() == lines@[i as int]@);
        if !is_blank_line(lines[i].as_str()) {
            out.push((i + 1, lines[i].clone()));
            assert(out@.map_values(|p: (usize, String)| (p.0 as int, p.1@)) =~= before.push(
                ((i + 1) as int, lines@[i as int]@),
            ));
        }
    }
    assert(ls.take(lines.len() as int) =~= ls);
    out
}

} // verus!
