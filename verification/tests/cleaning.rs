use audiobook_studio::cleaning::{
    clean_pages_to_transcript, is_narrated, join_lines, normalize, respaced, stitch_across_breaks,
    Marks,
};
use audiobook_studio::running_heads::{
    candidates, detect_running_heads, header_key, peel_back, peel_front, running_heads,
    strip_running_heads,
};
use audiobook_studio::webview;
use unicode_normalization::UnicodeNormalization;

fn chars(s: &str) -> Vec<char> {
    s.chars().collect()
}

fn text(v: Vec<char>) -> String {
    v.into_iter().collect()
}

fn rows(list: &[&str]) -> Vec<Vec<char>> {
    list.iter().map(|s| chars(s)).collect()
}

fn texts(list: Vec<Vec<char>>) -> Vec<String> {
    list.into_iter().map(text).collect()
}

fn pages(list: &[&str]) -> Vec<String> {
    list.iter().map(|s| s.to_string()).collect()
}

/// Pages with running heads (standalone and fused to the body), a block of
/// footnotes, and inline footnote markers. Enough of them that the running head
/// clears the frequency threshold.
fn sample_pages() -> Vec<String> {
    vec![
        // Recto: header fused onto the start of the body paragraph; body has
        // inline footnote markers (Church.”1, absolutely.2, know. 3).
        "31How Do I Know Christianity Is True?\n\n\
         30 De Fide ground for faith was divine authority. Augustine confessed, \
         “I should not believe the Gospel except as moved by the authority of the \
         Catholic Church.”1 The Scriptures are to be believed absolutely.2 He asserts \
         that one must first believe before he can know. 3"
            .to_string(),
        // Verso: standalone header line, then a footnote block at the bottom.
        "32 De Fide\n\n\
         Their approaches were determinative for the Middle Ages.\n\n\
         1. Augustine, Against the Epistle of Manichaeus 5.6. 2. Augustine, Letters 82.3. \
         3. Augustine, On Free Will 2.1.6."
            .to_string(),
        "33How Do I Know Christianity Is True?\n\n\
         Thomas develops a framework for the relationship of faith and reason."
            .to_string(),
        "34 De Fide\n\n\
         Because these doctrines surpass reason, they are properly objects of faith."
            .to_string(),
        "35How Do I Know Christianity Is True?\n\n\
         The Enlightenment is also known as the Age of Reason."
            .to_string(),
    ]
}

#[test]
fn drops_running_heads_standalone_and_fused() {
    let out = clean_pages_to_transcript(&sample_pages());
    assert!(
        !out.contains("De Fide"),
        "running head 'De Fide' leaked:\n{out}"
    );
    assert!(
        !out.contains("How Do I Know Christianity Is True?"),
        "running head (chapter title) leaked:\n{out}"
    );
    // The body that was fused after the header must survive, header removed.
    assert!(
        out.contains("ground for faith was divine authority"),
        "body lost:\n{out}"
    );
    assert!(
        !out.contains("30 De Fide ground"),
        "fused header not peeled:\n{out}"
    );
}

#[test]
fn drops_footnote_apparatus_block() {
    let out = clean_pages_to_transcript(&sample_pages());
    assert!(
        !out.contains("Against the Epistle of Manichaeus"),
        "footnote block leaked into narration:\n{out}"
    );
    // Real prose on the same page is kept.
    assert!(
        out.contains("determinative for the Middle Ages"),
        "real prose dropped:\n{out}"
    );
}

#[test]
fn strips_inline_footnote_markers() {
    let out = clean_pages_to_transcript(&sample_pages());
    assert!(
        out.contains("Catholic Church.”"),
        "closing quote lost:\n{out}"
    );
    assert!(
        !out.contains("Church.”1"),
        "inline marker after quote not stripped:\n{out}"
    );
    assert!(
        out.contains("believed absolutely."),
        "marker tail not stripped:\n{out}"
    );
    assert!(
        !out.contains("absolutely.2"),
        "inline marker '.2' not stripped:\n{out}"
    );
    assert!(
        out.contains("before he can know."),
        "spaced marker not stripped:\n{out}"
    );
    assert!(
        !out.contains("know. 3"),
        "spaced inline marker not stripped:\n{out}"
    );
}

#[test]
fn keeps_legitimate_numbers_and_scripture_refs() {
    // Numbers that are NOT footnote markers must be preserved.
    let pages = vec![
        "Isaiah 7:9 in the Septuagint. The year 1689 mattered. See 1 Cor. 2:14 \
                      and Rom. 8:15 too. The sum equals 42 here."
            .to_string(),
    ];
    let out = clean_pages_to_transcript(&pages);
    assert!(out.contains("Isaiah 7:9"), "scripture ref mangled:\n{out}");
    assert!(out.contains("1689"), "year dropped:\n{out}");
    assert!(out.contains("1 Cor. 2:14"), "citation dropped:\n{out}");
    assert!(out.contains("Rom. 8:15"), "citation dropped:\n{out}");
    assert!(
        out.contains("equals 42 here"),
        "trailing number dropped:\n{out}"
    );
}

#[test]
fn drops_bibliography_but_keeps_author_led_prose() {
    let pages = vec![
        "Barth, Karl. Dogmatics in Outline. Translated by G. J. Thomson. New York: \
         Philosophical Library, 1947.\n\n\
         ———. The Knowledge of God. London: Hodder, 1939.\n\n\
         Augustine famously argued that faith seeks understanding, and that we must \
         believe in order to know."
            .to_string(),
    ];
    let out = clean_pages_to_transcript(&pages);
    assert!(
        !out.contains("Translated by"),
        "bibliography entry leaked:\n{out}"
    );
    assert!(!out.contains("———"), "continuation entry leaked:\n{out}");
    // Prose that merely opens with a name (no pub signature) must survive.
    assert!(
        out.contains("Augustine famously argued"),
        "author-led prose dropped:\n{out}"
    );
}

#[test]
fn repairs_hyphenation_and_keeps_real_hyphens() {
    let pages = vec!["under-\nstanding the well-\nknown self-\nevident truth".to_string()];
    let out = clean_pages_to_transcript(&pages);
    assert!(
        out.contains("understanding"),
        "soft hyphen not glued:\n{out}"
    );
    assert!(
        out.contains("well-known") || out.contains("wellknown"),
        "{out}"
    );
}


#[test]
fn lines_are_joined_with_spaces_and_blank_ones_skipped() {
    assert_eq!(text(join_lines(&chars("  one\n\t\n two \r\nthree"))), "one two three");
    assert_eq!(text(join_lines(&chars(""))), "");
    assert_eq!(text(join_lines(&chars("\n \n"))), "");
}

#[test]
fn soft_hyphens_go_and_real_ones_stay() {
    assert_eq!(text(join_lines(&chars("exam-\nple"))), "example");
    assert_eq!(text(join_lines(&chars("Anglo-\nSaxon"))), "Anglo-Saxon");
    assert_eq!(text(join_lines(&chars("A-\nb"))), "A-b");
    assert_eq!(text(join_lines(&chars("-\nb"))), "-b");
    assert_eq!(text(join_lines(&chars("été-\nété"))), "étéété");
}

#[test]
fn joining_loses_no_letter() {
    let block = " The un-\nder\tdog -\n-barked\n\nTwice.";
    let keep = |s: &str| -> String {
        s.chars().filter(|c| !c.is_whitespace() && *c != '-').collect()
    };
    assert_eq!(keep(&text(join_lines(&chars(block)))), keep(block));
    assert!(!text(join_lines(&chars(block))).contains('\n'));
}

#[test]
fn paragraphs_are_stitched_across_breaks() {
    let got = stitch_across_breaks(&rows(&[
        "The sentence goes ",
        "on here.",
        "new one after a period",
        "And a capital",
        "half-",
        "way",
        "Semi-",
        "Final",
    ]));
    assert_eq!(
        texts(got),
        vec![
            "The sentence goes on here.",
            "new one after a period",
            "And a capital halfway",
            "Semi-Final",
        ]
    );
}

#[test]
fn a_single_paragraph_stays() {
    assert_eq!(texts(stitch_across_breaks(&rows(&["lower"]))), vec!["lower"]);
    assert!(stitch_across_breaks(&rows(&[])).is_empty());
}

#[test]
fn spacing_is_put_right() {
    assert_eq!(text(respaced(&chars("  a  b \t c , d\n! e\tf "))), "a b c, d! e\tf");
    assert_eq!(text(respaced(&chars(" "))), "");
}

#[test]
fn spacing_put_right_stays_so() {
    let once = respaced(&chars("one  ,two   three ;  four"));
    assert_eq!(text(once.clone()), "one,two three; four");
    assert_eq!(respaced(&once), once);
}

#[test]
fn normalizing_resolves_ligatures_and_drops_markers() {
    assert_eq!(text(normalize(&chars("the \u{fb01}rst  of\u{a0}all ."))), "the first of all.");
    assert_eq!(text(normalize(&chars("Church.\u{201d}1 The end."))), "Church.\u{201d} The end.");
    assert_eq!(text(normalize(&chars("know. 3"))), "know.");
    assert_eq!(text(normalize(&chars("1 Cor. 2:14 holds"))), "1 Cor. 2:14 holds");
}

#[test]
fn typeset_text_is_its_own_normal_form() {
    let ascii = (0..128u8).map(char::from);
    let all: Vec<char> = ascii.chain(['–', '—', '‘', '’', '“', '”']).collect();
    for a in &all {
        for b in &all {
            let t: String = [*a, *b, 'x', *a].iter().collect();
            assert_eq!(t.nfkc().collect::<String>(), t);
        }
    }
}

#[test]
fn every_paragraph_is_one_line() {
    let raw = pages(&[
        "“It be-\ngan,” he\nsaid.12\n\nNew\r\nline — and more,\n\n",
        "\nwhich went\n on.\n\n42\n\nThe end’s\nnear.",
    ]);
    assert_eq!(
        clean_pages_to_transcript(&raw),
        "“It began,” he said.\n\nNew line — and more, which went on.\n\nThe end’s near."
    );
}

#[test]
fn apparatus_is_not_narrated() {
    let body = Marks { folio: false, footnote: false, biblio_start: false, biblio_signature: false };
    let t = chars("text");
    assert!(is_narrated(&t, body));
    assert!(!is_narrated(&[], body));
    assert!(!is_narrated(&t, Marks { folio: true, ..body }));
    assert!(!is_narrated(&t, Marks { footnote: true, ..body }));
    assert!(is_narrated(&t, Marks { biblio_start: true, ..body }));
    assert!(is_narrated(&t, Marks { biblio_signature: true, ..body }));
    assert!(!is_narrated(&t, Marks { biblio_start: true, biblio_signature: true, ..body }));
}

#[test]
fn page_numbers_and_notes_are_dropped() {
    let got = clean_pages_to_transcript(&pages(&[
        "12\n\nFirst paragraph.\n\n 1234 ",
        "12345\n\n3. Smith, Works.\n\n1234. Too long a number.",
    ]));
    assert_eq!(got, "First paragraph.\n\n12345\n\n1234. Too long a number.");
}

#[test]
fn an_entry_with_a_colophon_is_dropped() {
    let got = clean_pages_to_transcript(&pages(&[
        "Barth, Karl. Works. London: Hodder Press, 1939.\n\nLondon is a city.",
    ]));
    assert_eq!(got, "London is a city.");
}

#[test]
fn a_transcript_is_paragraphs_with_blank_lines() {
    assert_eq!(
        clean_pages_to_transcript(&pages(&["One line\nand two.\n\nSecond.", "Third ,  and"])),
        "One line and two.\n\nSecond.\n\nThird, and"
    );
    assert_eq!(clean_pages_to_transcript(&pages(&[])), "");
    assert_eq!(clean_pages_to_transcript(&pages(&["7", " \n\n "])), "");
}

// ---------- Running heads ----------

#[test]
fn keys_lose_their_page_numbers() {
    assert_eq!(text(header_key(&chars("32 De Fide"))), "De Fide");
    assert_eq!(text(header_key(&chars("31How Do I Know"))), "How Do I Know");
    assert_eq!(text(header_key(&chars("  The  Title 204 "))), "The Title");
    assert_eq!(text(header_key(&chars("12345 Title"))), "5 Title");
    assert_eq!(text(header_key(&chars("Title 12345"))), "Title 1");
    assert_eq!(text(header_key(&chars("٣٢ De Fide"))), "De Fide");
    assert_eq!(text(header_key(&chars("42"))), "");
}

#[test]
fn candidates_stand_at_the_edges() {
    let page = "10 Head\n\nfirst\nmiddle\nlast\n foot 10";
    assert_eq!(texts(candidates(&chars(page))), vec!["Head", "first", "foot", "last"]);
    assert_eq!(texts(candidates(&chars("Only"))), vec!["Only", "Only"]);
    assert_eq!(
        texts(candidates(&chars("one two three four five six seven eight nine\n17"))),
        Vec::<String>::new()
    );
}

#[test]
fn heads_recur_on_a_quarter_of_the_pages() {
    let page = |keys: &[&str]| rows(keys);
    let mut list = vec![
        page(&["A", "B", "A"]),
        page(&["A", "C"]),
        page(&["B", "D"]),
        page(&["E"]),
    ];
    assert_eq!(texts(running_heads(&list)), vec!["A", "B"]);
    for _ in 0..5 {
        list.push(page(&["D"]));
    }
    // Nine pages: a head stands on three of them at least.
    assert_eq!(texts(running_heads(&list)), vec!["D"]);
    assert!(running_heads(&vec![page(&["A"]), page(&["A"]), page(&["A"])]).is_empty());
}

#[test]
fn too_few_pages_have_no_heads() {
    assert!(detect_running_heads(&pages(&["H\nx", "H\ny", "H\nz"])).is_empty());
    assert_eq!(
        texts(detect_running_heads(&pages(&["H\nx", "H\ny", "H\nz", "H\nw"]))),
        vec!["H"]
    );
}

#[test]
fn heads_are_peeled_at_boundaries_only() {
    let heads = rows(&["De Fide", "Part"]);
    assert_eq!(peel_front(&chars("De Fide. ground"), &heads).map(text), Some("ground".into()));
    assert_eq!(peel_front(&chars("De Fide"), &heads).map(text), Some("".into()));
    assert_eq!(peel_front(&chars("Partly so"), &heads).map(text), None);
    assert_eq!(peel_front(&chars("Part of it"), &heads).map(text), Some("of it".into()));
    assert_eq!(peel_back(&chars("faith De Fide"), &heads).map(text), Some("faith".into()));
    assert_eq!(peel_back(&chars("faithDe Fide"), &heads).map(text), None);
    assert_eq!(peel_back(&chars("Part"), &heads).map(text), Some("".into()));
}

#[test]
fn heads_are_stripped_off_both_ends() {
    let heads = rows(&["De Fide", "Faith"]);
    let strip = |s: &str| text(strip_running_heads(&chars(s), &heads));
    assert_eq!(strip("30 De Fide ground for"), "ground for");
    assert_eq!(strip("De Fide 12 Faith ground"), "ground");
    assert_eq!(strip("ground for De Fide 31 "), "ground for");
    assert_eq!(strip(" ground for "), "ground for");
    assert_eq!(strip("De Fideism is"), "De Fideism is");
    assert_eq!(text(strip_running_heads(&chars(" as is "), &vec![])), " as is ");
}

// ---------- The simpler cleaner ----------

#[test]
fn the_simpler_cleaner_keeps_notes_and_heads() {
    let list = pages(&["12\n\n1. Augustine, On Free Will.\n\nfi-\nnal words ,  said.1", "H"]);
    assert_eq!(
        webview::clean_pages_to_transcript(&list),
        "1. Augustine, On Free Will.\n\nfinal words, said.1\n\nH"
    );
}

#[test]
fn the_simpler_cleaner_resolves_ligatures() {
    assert_eq!(webview::clean_pages_to_transcript(&pages(&["ﬁne ﬂow"])), "fine flow");
}

#[test]
fn normalizing_drops_nothing_but_blanks_and_digits() {
    for t in [
        "It ended.12 Then  it began , twice.",
        "Isaiah 7:9 and 1 Cor. 2:14 stay.",
        "In 1689 he wrote \u{201c}more.\u{201d}3",
    ] {
        let words = |s: &str| -> String {
            s.chars()
                .filter(|c| !c.is_whitespace() && !c.is_ascii_digit())
                .collect()
        };
        assert_eq!(words(&text(normalize(&chars(t)))), words(t));
    }
    assert_eq!(
        text(normalize(&chars("Isaiah 7:9 and 1 Cor. 2:14 stay."))),
        "Isaiah 7:9 and 1 Cor. 2:14 stay."
    );
}

#[test]
fn a_normal_form_gains_no_newline() {
    for c in '\u{0}'..=char::MAX {
        if c != '\n' {
            assert!(!c.to_string().nfkc().any(|d| d == '\n'), "{c:?}");
        }
    }
}

#[test]
fn paragraphs_are_lines_in_any_script() {
    let raw = pages(&["\u{fb01}rst\nline\u{2028}here\n\n\u{661}. \u{906}\n\u{915}.\u{967}\n\n\u{2460}\u{a0}x"]);
    for paragraph in clean_pages_to_transcript(&raw).split("\n\n") {
        assert!(!paragraph.contains('\n'), "{paragraph:?}");
    }
    assert_eq!(text(normalize(&chars("\u{915}.\u{967} \u{915}"))), "\u{915}. \u{915}");
}

#[test]
fn stitching_again_changes_nothing() {
    let paras = rows(&["one-", "two", "Three", "", "four", "Five.", "six and", "Seven"]);
    let once = stitch_across_breaks(&paras);
    assert_eq!(stitch_across_breaks(&once), once);
    assert_eq!(texts(once), vec!["onetwo", "Three", " four", "Five.", "six and", "Seven"]);
}
