use fathom::sec::{HeadingSearch, HeadingStep, find_all, is_plausible_heading, locate_item_1a};

#[test]
fn locates_item_1a_with_three_markers() {
    let html = "TOC: Item 1A. Risk Factors p.5. \
        Forward looking: see Item 1A. \
        Item 1A. Risk Factors\n\
        ...real content...\n\
        Item 1B. Unresolved comments";
    let section = locate_item_1a(html).expect("section");
    assert!(section.contains("...real content..."));
    assert!(!section.contains("Item 1B"));
}

#[test]
fn returns_none_when_section_missing() {
    let html = "TOC: Item 1A in toc, but only one occurrence";
    assert!(locate_item_1a(html).is_none());
}

#[test]
fn locate_accepts_no_break_space_and_runs_to_end_without_later_1b() {
    let html = "Item 1B x Item\u{a0}1A a Item 1A b Item\u{a0}1A tail é";
    let section = locate_item_1a(html).expect("section");
    assert_eq!(section, "Item\u{a0}1A tail é");
}

#[test]
fn locate_needs_an_item_1b_marker() {
    assert!(locate_item_1a("Item 1A Item 1A Item 1A").is_none());
}

#[test]
fn find_all_is_non_overlapping_and_gives_byte_offsets() {
    assert_eq!(find_all("aaaa", "aa"), vec![0, 2]);
    assert_eq!(find_all("éxaxa", "xa"), vec![2, 4]);
    assert_eq!(find_all("éx", "x"), vec![2]);
    assert_eq!(find_all("Item 1A Item\u{a0}1A", "Item\u{a0}1A"), vec![8]);
    assert_eq!(find_all("abc", "d"), Vec::<usize>::new());
}

#[test]
fn heading_plausibility_counts_bytes_and_needs_a_period() {
    assert!(is_plausible_heading(&format!("{}.", "a".repeat(29))));
    assert!(!is_plausible_heading(&format!("{}.", "a".repeat(28))));
    assert!(is_plausible_heading(&format!("{}.", "é".repeat(15))));
    assert!(!is_plausible_heading(&format!("{}.", "a".repeat(300))));
    assert!(is_plausible_heading(&format!("{}.", "a".repeat(299))));
    assert!(!is_plausible_heading(&"a".repeat(40)));
}

fn headings(n: usize) -> Vec<String> {
    (0..n)
        .map(|i| format!("Risk factor heading number {i:02} ends with a period."))
        .collect()
}

#[test]
fn heading_search_takes_first_plausible_pattern() {
    let search = HeadingSearch::new();
    let mut texts = headings(5);
    texts.push("short.".to_string());
    let next = match search.step(&texts) {
        HeadingStep::Continue(s) => s,
        HeadingStep::Found(_) => panic!("five headings are not plausible"),
    };
    assert_eq!(next.best_count, 5);
    match next.step(&headings(16)) {
        HeadingStep::Found(h) => assert_eq!(h.len(), 16),
        HeadingStep::Continue(_) => panic!("sixteen headings are plausible"),
    }
    match next.step(&headings(41)) {
        HeadingStep::Continue(s) => assert_eq!(s.best_count, 41),
        HeadingStep::Found(_) => panic!("forty-one headings are not plausible"),
    }
    match next.step(&headings(2)) {
        HeadingStep::Continue(s) => assert_eq!(s.best_count, 5),
        HeadingStep::Found(_) => panic!("two headings are not plausible"),
    }
}

/// The texts that the three markup patterns (italic bold, bold, weight-700
/// spans) extract from a document, in the order the patterns are tried; the
/// search ends at the first plausible list, or with the best count seen.
fn search(per_pattern: &[Vec<String>]) -> Result<Vec<String>, usize> {
    let mut state = HeadingSearch::new();
    for texts in per_pattern {
        match state.step(texts) {
            HeadingStep::Found(h) => return Ok(h),
            HeadingStep::Continue(next) => state = next,
        }
    }
    Err(state.best_count)
}

#[test]
fn picks_pattern_yielding_plausible_count() {
    // Sixteen italic bold headings: the first pattern extracts all of them.
    let italic_bold = headings(16);
    let headings = search(&[italic_bold.clone(), Vec::new(), italic_bold]).expect("ok");
    assert_eq!(headings.len(), 16);
    assert!(headings[0].ends_with("period."));
}

#[test]
fn rejects_when_no_pattern_plausible() {
    // Five bold headings: only the second pattern extracts them, and five is
    // below the fewest plausible.
    let err = search(&[Vec::new(), headings(5), Vec::new()]).expect_err("should fail");
    assert_eq!(err, 5);
}
