use audiobook_studio::polish::{
    accept_polish, assemble_polish, chunk_paragraphs, settle_chunk, POLISH_CHUNK_CHARS,
};

#[test]
fn chunks_break_on_paragraphs_and_respect_budget() {
    let text = "aaaa\n\nbbbb\n\ncccc\n\ndddd";
    // budget 10 -> ~2 paras per chunk (4 chars + "\n\n").
    let chunks = chunk_paragraphs(text, 10);
    assert!(chunks.len() >= 2, "expected multiple chunks: {chunks:?}");
    // No chunk splits a paragraph: every original para survives intact.
    let rejoined = chunks.join("\n\n");
    for p in ["aaaa", "bbbb", "cccc", "dddd"] {
        assert!(rejoined.contains(p), "lost paragraph {p}");
    }
}

#[test]
fn oversize_paragraph_becomes_its_own_chunk() {
    let big = "x".repeat(20);
    let text = format!("{big}\n\nsmall");
    let chunks = chunk_paragraphs(&text, 8);
    assert_eq!(chunks[0], big, "oversize para should stand alone");
}

#[test]
fn accept_polish_guards_against_rewrite_and_summarize() {
    let original = "The quick, brown fox jumps over the lazy dog; it was fast.";
    // identical -> accept
    assert!(accept_polish(original, original));
    // pure character repair (ligature fix), punctuation intact -> accept
    assert!(accept_polish(
        original,
        "The quick, brown fox jumps over the lazy dog; it was fast."
    ));
    // summarized to a fraction -> reject
    assert!(!accept_polish(original, "A fox jumps."));
    // empty -> reject
    assert!(!accept_polish(original, "   "));
    // ballooned (hallucinated additions) -> reject
    let bloated = original.repeat(3);
    assert!(!accept_polish(original, &bloated));
}

#[test]
fn accept_polish_rejects_punctuation_stripping() {
    // The same words, punctuation removed. Word count and
    // length barely change, but every comma/period/semicolon is gone.
    let original = "There are two ways, one of life, and one of death; a great difference.";
    let stripped = "There are two ways one of life and one of death a great difference";
    assert!(
        !accept_polish(original, stripped),
        "must reject punctuation-stripped output"
    );
}

#[test]
fn chunks_are_filled_up_to_the_budget() {
    let got = chunk_paragraphs("aaaa\n\nbbbb\n\n\n\n cc \n\ndddd", 10);
    assert_eq!(got, vec!["aaaa\n\nbbbb", "cc\n\ndddd"]);
    assert_eq!(chunk_paragraphs("aaaa\n\nbbbb", 9), vec!["aaaa", "bbbb"]);
    assert!(chunk_paragraphs(" \n\n ", 9).is_empty());
    assert_eq!(POLISH_CHUNK_CHARS, 6000);
}

#[test]
fn the_budget_counts_bytes() {
    // Two bytes for each character, so the second paragraph does not fit.
    assert_eq!(chunk_paragraphs("éé\n\néé", 9), vec!["éé", "éé"]);
    assert_eq!(chunk_paragraphs("éé\n\néé", 10), vec!["éé\n\néé"]);
    assert_eq!(chunk_paragraphs("€\n\n𝄞", 8), vec!["€", "𝄞"]);
    assert_eq!(chunk_paragraphs("€\n\n𝄞", 9), vec!["€\n\n𝄞"]);
}

#[test]
fn chunks_joined_again_are_the_paragraphs() {
    let text = "one\n\n two two \n\n\n\nthree";
    for budget in 0..20 {
        assert_eq!(chunk_paragraphs(text, budget).join("\n\n"), "one\n\ntwo two\n\nthree");
    }
}

#[test]
fn the_length_may_vary_within_bounds() {
    let chunk = "x".repeat(100);
    assert!(accept_polish(&chunk, &"x".repeat(90)));
    assert!(!accept_polish(&chunk, &"x".repeat(89)));
    assert!(accept_polish(&chunk, &"x".repeat(100)));
    assert!(accept_polish(&chunk, &format!("  {}\n", "x".repeat(100))));
    assert!(!accept_polish(&chunk, &"x".repeat(101)));
    assert!(!accept_polish("  ", "x"));
}

#[test]
fn nine_tenths_of_the_punctuation_stays() {
    let chunk = format!("{}{}", "x".repeat(90), ".,:;?!.,:;");
    assert!(accept_polish(&chunk, &format!("{}{}", "x".repeat(91), ".,:;?!.,:")));
    assert!(!accept_polish(&chunk, &format!("{}{}", "x".repeat(92), ".,:;?!.,")));
}

#[test]
fn a_chunk_is_settled_by_an_acceptable_reply_only() {
    assert_eq!(settle_chunk("the ﬁne words.", &Some("the fine words.".into())), "the ﬁne words.");
    assert_eq!(settle_chunk("the  fine words, here.", &Some("the fine words, here.".into())), "the fine words, here.");
    assert_eq!(settle_chunk("words.", &Some("".into())), "words.");
    assert_eq!(settle_chunk("words.", &None), "words.");
}

#[test]
fn rejected_replies_change_nothing() {
    let chunks = chunk_paragraphs("First one.\n\nSecond one.", 12);
    assert_eq!(chunks.len(), 2);
    let answers = vec![Some("No.".to_string()), None];
    assert_eq!(assemble_polish(&chunks, &answers), "First one.\n\nSecond one.");
    assert_eq!(assemble_polish(&chunks, &[]), "First one.\n\nSecond one.");
    let answers = vec![Some("First oné.".to_string())];
    assert_eq!(assemble_polish(&chunks, &answers), "First oné.\n\nSecond one.");
}

#[test]
fn no_chunk_has_room_for_the_next_paragraph() {
    let text = "aaa\n\nbb\n\ncccc\n\nd\n\neeeeeeeeeeee\n\nff";
    for budget in 0..30 {
        let chunks = chunk_paragraphs(text, budget);
        for pair in chunks.windows(2) {
            let next = pair[1].split("\n\n").next().unwrap();
            assert!(pair[0].len() + 2 + next.len() > budget, "{budget}: {chunks:?}");
        }
    }
    // Six paragraphs, of which no two can go together in the first case.
    assert_eq!(chunk_paragraphs(text, 4).len(), 6);
    assert_eq!(chunk_paragraphs(text, 7).len(), 4);
    assert_eq!(chunk_paragraphs(text, 1000).len(), 1);
}

#[test]
fn polishing_only_shortens() {
    let chunk = "Words, and more of them, as they were.";
    for reply in [format!("{chunk} x"), format!("{chunk}."), "Words.".to_string()] {
        assert_eq!(settle_chunk(chunk, &Some(reply)), chunk);
    }
    let shorter = "Words, and more of them as they were.";
    assert_eq!(settle_chunk(chunk, &Some(shorter.into())), chunk);
    let shorter = "Words, and more of them, as they wer.";
    assert_eq!(settle_chunk(chunk, &Some(shorter.into())), shorter);
}
