use audiobook_studio::headings::{
    add_title, caps_title_at_top, chapter_headings, dedupe_headings, is_caps_line, keep_headings,
};

fn chars(s: &str) -> Vec<char> {
    s.chars().collect()
}

fn text(v: Vec<char>) -> String {
    v.into_iter().collect()
}

fn list(entries: &[(usize, &str)]) -> Vec<(usize, String)> {
    entries.iter().map(|(n, t)| (*n, t.to_string())).collect()
}

#[test]
fn detects_varied_heading_styles() {
    let pages = vec![
        "Front matter line\n\nCHAPTER 1. Loomings.\n\nCall me Ishmael.".to_string(),
        "Chapter II.\n\nIt is a truth universally acknowledged...".to_string(),
        "CHAPTER IV. NATURAL SELECTION.\n\nHow will the struggle for existence act?"
            .to_string(),
        "INTRODUCTION.\n\nWhen on board H.M.S. Beagle...".to_string(),
        "BOOK SECOND\n\nThe family was in mourning.".to_string(),
    ];
    let heads = chapter_headings(&pages);
    let texts: Vec<&str> = heads.iter().map(|(_, t)| t.as_str()).collect();
    assert!(
        texts.iter().any(|t| t.starts_with("CHAPTER 1. Loomings")),
        "{texts:?}"
    );
    assert!(
        texts.iter().any(|t| t.starts_with("Chapter II")),
        "{texts:?}"
    );
    assert!(
        texts.iter().any(|t| t.contains("NATURAL SELECTION")),
        "{texts:?}"
    );
    assert!(
        texts.iter().any(|t| t.starts_with("INTRODUCTION")),
        "{texts:?}"
    );
    assert!(
        texts.iter().any(|t| t.starts_with("BOOK SECOND")),
        "{texts:?}"
    );
    // Pages are 1-indexed; "CHAPTER 1" is on page 1.
    assert_eq!(heads[0].0, 1);
}

#[test]
fn dedupes_toc_keeping_body_heading() {
    // Same titles listed early (TOC, pages 1) then again at real starts.
    let headings = vec![
        (1, "CHAPTER 1. Loomings.".to_string()),
        (1, "CHAPTER 2. The Carpet-Bag.".to_string()),
        (12, "CHAPTER 1. Loomings.".to_string()),
        (20, "CHAPTER 2. The Carpet-Bag.".to_string()),
    ];
    let deduped = dedupe_headings(&headings);
    assert_eq!(deduped.len(), 2, "TOC not deduped: {deduped:?}");
    // Body pages (12, 20) kept, not the TOC page (1).
    assert_eq!(deduped[0].0, 12);
    assert_eq!(deduped[1].0, 20);
}

#[test]
fn heading_detector_ignores_prose_sentences() {
    // Sentences that merely *mention* a chapter/part must not be flagged.
    let pages = vec![
        "In chapter three the author argues at length about the nature of selection \
         and the struggle for life among species across the world."
            .to_string(),
        "Part of the difficulty is that we cannot see the past.".to_string(),
    ];
    let heads = chapter_headings(&pages);
    assert!(heads.is_empty(), "false-positive headings: {heads:?}");
}

#[test]
fn detects_multiline_caps_display_titles() {
    // Each chapter opens a page with a wrapped title in capitals, then a
    // recurring series marker, then body prose.
    let pages = vec![
        "WHAT IS A \nWORLDVIEW?\n\nSEEKiNG\n\nI woke up in the middle of the night."
            .to_string(),
        // Continuation page: opens mid-prose, mixed case -> NOT a heading.
        "coherently from a set of axioms (or intermediate propositions). The third \
         theory follows."
            .to_string(),
        "WHO IS \nJESUS?\n\nSEEKiNG\n\nThe very core of Christianity is the person of Jesus."
            .to_string(),
        "SO, \nWHAT NEXT?\n\nSEEKiNG\n\nWe have surveyed the evidence."
            .to_string(),
    ];
    let heads = chapter_headings(&pages);
    let texts: Vec<&str> = heads.iter().map(|(_, t)| t.as_str()).collect();
    assert!(
        texts.iter().any(|t| *t == "WHAT IS A WORLDVIEW?"),
        "wrapped caps title not joined/detected: {texts:?}"
    );
    assert!(
        texts.iter().any(|t| *t == "WHO IS JESUS?"),
        "caps title missed: {texts:?}"
    );
    assert!(
        texts.iter().any(|t| *t == "SO, WHAT NEXT?"),
        "caps title with punctuation missed: {texts:?}"
    );
    // The continuation page (page 2) must produce no heading.
    assert!(
        !heads.iter().any(|(pg, _)| *pg == 2),
        "continuation page falsely flagged: {heads:?}"
    );
}

#[test]
fn caps_detector_ignores_allcaps_body_and_short_markers() {
    // A long shouted sentence in body prose is not a title; a bare 1-letter
    // or recurring short marker alone should not register as a chapter.
    let pages = vec![
        "THIS IS A VERY LONG ALL CAPS SENTENCE THAT GOES ON AND ON BEYOND ANY \
         REASONABLE HEADING LENGTH AND MUST NOT BE TREATED AS A CHAPTER TITLE AT ALL."
            .to_string(),
        "Ordinary opening prose that begins a continuation page in mixed case here."
            .to_string(),
    ];
    let heads = chapter_headings(&pages);
    assert!(
        heads.is_empty(),
        "all-caps body sentence falsely detected as heading: {heads:?}"
    );
}

#[test]
fn caps_title_does_not_double_count_keyword_heading() {
    // An all-caps "INTRODUCTION." is caught by HEADING; the caps detector
    // must not add a duplicate for the same page.
    let pages = vec!["INTRODUCTION.\n\nWhen on board the Beagle...".to_string()];
    let heads = chapter_headings(&pages);
    let on_p1 = heads.iter().filter(|(pg, _)| *pg == 1).count();
    assert_eq!(on_p1, 1, "duplicate heading emitted: {heads:?}");
}


#[test]
fn caps_lines_are_short_and_loud() {
    assert!(is_caps_line(&chars("WHAT NEXT?")));
    assert!(is_caps_line(&chars("SO, 2")));
    assert!(is_caps_line(&chars("ÉTÉ")));
    assert!(!is_caps_line(&chars("A 1")));
    assert!(!is_caps_line(&chars("SEEKiNG")));
    assert!(!is_caps_line(&chars("ÉTé")));
    assert!(is_caps_line(&chars("AA BB CC DD EE FF GG HH II")));
    assert!(!is_caps_line(&chars("AA BB CC DD EE FF GG HH II JJ")));
    assert!(is_caps_line(&vec!['X'; 60]));
    assert!(!is_caps_line(&vec!['X'; 61]));
}

#[test]
fn caps_titles_have_up_to_three_lines() {
    let title = |s: &str| caps_title_at_top(&chars(s)).map(text);
    assert_eq!(title("\n  THE   LONG\n\nROAD\nHOME\nIt began."), Some("THE LONG ROAD HOME".into()));
    assert_eq!(title("THE END"), None);
    assert_eq!(title("THE\nVERY\nEND\n"), None);
    assert_eq!(title("THE END\n1"), Some("THE END".into()));
    assert_eq!(title("ONE LINE\nTWO LINES\nTHREE LINES\nFOUR LINES\nbody"), None);
    assert_eq!(title("body first\nTHE TITLE"), None);
    assert_eq!(title(""), None);
    let long = format!("{}\n{}\nbody", "X".repeat(50), "Y".repeat(50));
    assert_eq!(title(&long), None);
}

#[test]
fn a_display_title_is_not_added_twice() {
    let found = vec![chars("Introduction.")];
    assert_eq!(add_title(found.clone(), Some(chars("INTRODUCTION."))).len(), 1);
    assert_eq!(add_title(found.clone(), Some(chars("INTRODUCTION"))).len(), 2);
    assert_eq!(add_title(found, None).len(), 1);
}

#[test]
fn headings_come_with_their_page_numbers() {
    let pages: Vec<String> = ["text\n  Chapter 4: Home  ", "nothing here", "PART TWO\nbody\nPrologue"]
        .iter()
        .map(|s| s.to_string())
        .collect();
    assert_eq!(
        chapter_headings(&pages),
        list(&[(1, "Chapter 4: Home"), (3, "PART TWO"), (3, "Prologue")])
    );
}

#[test]
fn a_long_line_is_no_heading() {
    let line = format!("Chapter 1 {}", "x".repeat(81));
    assert!(chapter_headings(&[line]).is_empty());
}

#[test]
fn headings_with_the_same_key_are_one() {
    let got = dedupe_headings(&list(&[
        (9, "zebra"),
        (2, "  Chapter One.) "),
        (9, "Apple"),
        (5, "CHAPTER ONE"),
        (1, "Last"),
    ]));
    assert_eq!(got, list(&[(1, "Last"), (5, "CHAPTER ONE"), (9, "Apple"), (9, "zebra")]));
}

#[test]
fn the_later_heading_wins_even_on_an_earlier_page() {
    assert_eq!(dedupe_headings(&list(&[(7, "A."), (3, "a")])), list(&[(3, "a")]));
    assert!(dedupe_headings(&[]).is_empty());
}

#[test]
fn keys_beyond_ascii_ignore_case_too() {
    assert_eq!(dedupe_headings(&list(&[(1, "ÉPILOGUE"), (8, "épilogue")])), list(&[(8, "épilogue")]));
}

#[test]
fn deduplicating_twice_changes_nothing() {
    let once = dedupe_headings(&list(&[(4, "B"), (4, "A"), (1, "b")]));
    assert_eq!(once, list(&[(1, "b"), (4, "A")]));
    assert_eq!(dedupe_headings(&once), once);
}

#[test]
fn matched_lines_are_kept_unless_empty_or_long() {
    let long = chars(&"x".repeat(91));
    let rows = [chars(" One "), chars("two"), chars("  "), long, chars("five")];
    let lines: Vec<&[char]> = rows.iter().map(|r| r.as_slice()).collect();
    let kept = keep_headings(&lines, &vec![true, false, true, true]);
    assert_eq!(kept.into_iter().map(text).collect::<Vec<_>>(), vec!["One"]);
}

#[test]
fn headings_follow_the_pages() {
    let pages = vec![
        "Preface\nx\nChapter 1".to_string(),
        "nothing here".to_string(),
        "THE END\nbody\nEpilogue".to_string(),
    ];
    let found = chapter_headings(&pages);
    assert_eq!(
        found,
        list(&[(1, "Preface"), (1, "Chapter 1"), (3, "Epilogue"), (3, "THE END")])
    );
    assert!(found.windows(2).all(|w| w[0].0 <= w[1].0));
}

#[test]
fn headings_of_joined_lists_are_joined() {
    let first = vec!["Preface\nx".to_string(), "y".to_string()];
    let second = vec!["Chapter 1".to_string(), "THE ROAD\nz".to_string()];
    let both: Vec<String> = first.iter().chain(&second).cloned().collect();
    let mut expected = chapter_headings(&first);
    expected.extend(chapter_headings(&second).into_iter().map(|(n, t)| (n + first.len(), t)));
    assert_eq!(chapter_headings(&both), expected);
}
