use audiobook_studio::error::AppError;
use audiobook_studio::g2p::{
    apply_overrides, cap_token_len, clean_phonemes, phoneme_chunks, phonemize, reply_text,
    request_line, MAX_PHONEME_CHARS,
};
use audiobook_studio::sentences::split_sentences;
use audiobook_studio::sidecar::{
    ensure_ready, find_first, is_ready_line, plan_launch, resolve_sidecar, settle_start, shutdown,
    Candidate, Machine, ServerState, SidecarResolution, Start,
};

fn lines(list: &[&str]) -> Vec<String> {
    list.iter().map(|s| s.to_string()).collect()
}

#[test]
fn abbrev_keeps_dr_with_name() {
    let s = split_sentences("Dr. Eleanor Vance paused. Next sentence.");
    assert_eq!(s.len(), 2);
    assert!(s[0].starts_with("Dr. Eleanor"));
}

#[test]
fn absorbs_closing_quote() {
    let s = split_sentences("\"...is lost.\" The next.");
    assert_eq!(s.len(), 2);
    assert!(!s[1].trim_start().starts_with('"'));
}

#[test]
fn clean_strips_zwj_and_collapses_ws() {
    // "wɔ<ZWJ>təɹ   stɑnd" -> ZWJ removed, runs of spaces collapsed
    let got = clean_phonemes("wɔ\u{200d}təɹ   stɑnd");
    assert!(!got.contains('\u{200d}'));
    assert!(!got.contains("  "));
}

#[test]
fn clean_strips_midchunk_period_keeps_trailing() {
    let got = clean_phonemes("abc. def.");
    assert_eq!(got, "abc def.");
}

#[test]
fn override_fixes_est_spelling() {
    let got = apply_overrides("nemo sine vitio est.", "vˈɪtɪˌəʊ ˌiːˌɛstˈiː");
    assert_eq!(got, "vˈɪtɪˌəʊ ˈɛst");
}

#[test]
fn cap_token_len_under_budget_is_unchanged() {
    let s = "a b c d";
    assert_eq!(cap_token_len(s, 480), vec![s.to_string()]);
}

#[test]
fn cap_token_len_splits_on_word_boundaries() {
    // 100 "ab" words (~299 chars) capped at 50 -> several pieces, each <=50,
    // none cutting a word.
    let words = vec!["ab"; 100].join(" ");
    let pieces = cap_token_len(&words, 50);
    assert!(pieces.len() > 1);
    for p in &pieces {
        assert!(p.chars().count() <= 50, "piece over budget: {}", p.len());
        assert!(!p.starts_with(' ') && !p.ends_with(' '));
    }
    // round-trips back to the same words
    assert_eq!(pieces.join(" "), words);
}

#[test]
fn sentences_end_at_marks() {
    assert_eq!(
        split_sentences("One. Two? Three!\nFour"),
        vec!["One.", "Two?", "Three!", "Four"]
    );
    assert_eq!(split_sentences(" "), Vec::<String>::new());
    assert_eq!(split_sentences("He said (yes.) Then (no!)\u{201d} left."), vec!["He said (yes.)", "Then (no!)\u{201d}", "left."]);
}

#[test]
fn ellipses_and_abbreviations_end_nothing() {
    assert_eq!(split_sentences("Wait... what. Go"), vec!["Wait... what.", "Go"]);
    assert_eq!(split_sentences("See MR. X, No. 5 and vol. 2. End"), vec!["See MR. X, No. 5 and vol. 2.", "End"]);
    assert_eq!(split_sentences("Is he a Dr? Yes"), vec!["Is he a Dr?", "Yes"]);
    assert_eq!(split_sentences("Really?. Yes."), vec!["Really?.", "Yes."]);
}

#[test]
fn splitting_keeps_every_character() {
    let text = "Dr. No... came. \"So!\" he\nsaid; etc. and left?  ";
    let keep = |s: &str| -> String { s.chars().filter(|c| !c.is_whitespace()).collect() };
    assert_eq!(keep(&split_sentences(text).concat()), keep(text));
    for s in split_sentences(text) {
        assert_eq!(s.trim(), s);
        assert!(!s.is_empty());
    }
}

#[test]
fn clean_phonemes_have_one_period_at_most() {
    assert_eq!(clean_phonemes(" a. .b \u{200d}. . "), "a b .");
    assert_eq!(clean_phonemes(".a"), "a");
    assert_eq!(clean_phonemes(""), "");
    assert_eq!(clean_phonemes("a\t b\n"), "a b");
}

#[test]
fn overrides_need_the_whole_word() {
    let spelled = "x ˌiːˌɛstˈiː ˌiːˌɛstˈiː";
    assert_eq!(apply_overrides("EST!", spelled), "x ˈɛst ˈɛst");
    assert_eq!(apply_overrides("the best", spelled), spelled);
    assert_eq!(apply_overrides("éest", spelled), spelled);
    assert_eq!(apply_overrides("forest est2", spelled), spelled);
    assert_eq!(apply_overrides("", spelled), spelled);
}

#[test]
fn a_word_over_the_limit_is_cut() {
    assert_eq!(cap_token_len("ab cdefgh ij", 3), vec!["ab", "cde", "fgh", "ij"]);
    assert_eq!(cap_token_len("a b c d", 3), vec!["a b", "c d"]);
    assert_eq!(cap_token_len("  ab", 3), vec!["ab"]);
    assert_eq!(cap_token_len("", 3), vec![""]);
    assert_eq!(cap_token_len("  ", 0), Vec::<String>::new());
    assert_eq!(cap_token_len("é é é", 3), vec!["é é", "é"]);
}

#[test]
fn capped_pieces_fit_and_keep_the_text() {
    let text = "one three-letter wordwordword x  y";
    for max in 1..12 {
        let pieces = cap_token_len(text, max);
        for p in &pieces {
            assert!(p.chars().count() <= max);
        }
        let keep = |s: &str| -> String { s.chars().filter(|c| *c != ' ').collect() };
        assert_eq!(keep(&pieces.concat()), keep(text));
    }
}

#[test]
fn a_request_is_one_line() {
    assert_eq!(request_line("two\nlines"), "two lines\n");
}

#[test]
fn banners_answer_nothing() {
    assert_eq!(reply_text("abc\n").as_deref(), Some("abc"));
    assert_eq!(reply_text("\n").as_deref(), Some(""));
    assert_eq!(reply_text("✔ Download complete\n"), None);
    assert_eq!(reply_text("You can now load the package\n"), None);
}

#[test]
fn chunks_are_shaped_from_the_answer() {
    assert_eq!(phoneme_chunks("est.", "ˌiːˌɛstˈiː. x"), vec!["ˈɛst x"]);
    assert_eq!(phoneme_chunks("x", "  "), Vec::<String>::new());
    let long = vec!["ab"; 300].join(" ");
    let got = phoneme_chunks("x", &long);
    assert_eq!(got.len(), 2);
    assert!(got.iter().all(|p| p.chars().count() <= MAX_PHONEME_CHARS));
    assert_eq!(got.join(" "), long);
}

#[test]
fn each_sentence_takes_the_next_answer() {
    let got = phonemize("One. Two.", &lines(&["✔ ready\n", "wan.\n", "You can now load\n", "tu.\n", "rest\n"]));
    assert_eq!(got.unwrap(), vec!["wan.", "tu."]);
    assert_eq!(phonemize("", &[]).unwrap(), Vec::<String>::new());
    match phonemize("One. Two.", &lines(&["wan\n", "✔\n"])) {
        Err(AppError::Sidecar(m)) => assert_eq!(m, "g2p_server closed unexpectedly"),
        other => panic!("{other:?}"),
    }
}

// ---------- The server as a process ----------

fn place(path: Option<&str>, there: bool) -> Candidate {
    Candidate { path: path.map(String::from), there }
}

#[test]
fn the_first_place_that_is_there_wins() {
    assert_eq!(
        find_first(&[place(None, true), place(Some("a"), false), place(Some("b"), true), place(Some("c"), true)]),
        Some("b".to_string())
    );
    assert_eq!(find_first(&[place(Some("a"), false)]), None);
}

#[test]
fn a_binary_goes_before_the_source() {
    let bin = [place(Some("bin"), true)];
    let src = [place(Some("src"), true)];
    assert!(matches!(resolve_sidecar(&bin, &src), SidecarResolution::Frozen(p) if p == "bin"));
    assert!(matches!(resolve_sidecar(&[], &src), SidecarResolution::Dev(p) if p == "src"));
    assert!(matches!(resolve_sidecar(&[], &[]), SidecarResolution::Missing));
}

#[test]
fn launches_are_planned_for_each_form() {
    let machine = |uv: bool, py: Option<&str>| Machine { has_uv: uv, venv_python: py.map(String::from) };
    let l = plan_launch(SidecarResolution::Frozen("d/bin".into()), Some("d".into()), &machine(true, None)).unwrap();
    assert_eq!((l.program.as_str(), l.args.len(), l.work_dir.as_str()), ("d/bin", 0, "d"));
    let l = plan_launch(SidecarResolution::Frozen("bin".into()), None, &machine(true, None)).unwrap();
    assert_eq!(l.work_dir, ".");
    let l = plan_launch(SidecarResolution::Dev("s".into()), None, &machine(true, Some("py"))).unwrap();
    assert_eq!((l.program.as_str(), l.args.clone(), l.work_dir.as_str()), ("uv", lines(&["run", "g2p_server.py"]), "s"));
    let l = plan_launch(SidecarResolution::Dev("s".into()), None, &machine(false, Some("py"))).unwrap();
    assert_eq!((l.program.as_str(), l.args.clone()), ("py", lines(&["g2p_server.py"])));
    let l = plan_launch(SidecarResolution::Dev("s".into()), None, &machine(false, None)).unwrap();
    assert_eq!(l.program, "python3");
    match plan_launch(SidecarResolution::Missing, None, &machine(true, None)) {
        Err(AppError::Sidecar(m)) => {
            assert_eq!(m, "g2p_server not found (no frozen binary or g2p_server.py)")
        }
        other => panic!("{other:?}"),
    }
}

#[test]
fn a_start_ends_up_or_with_its_reason() {
    assert_eq!(settle_start(&Start::Ready).unwrap(), ServerState::Up);
    let reason = |s: Start| settle_start(&s).unwrap_err().message();
    assert_eq!(reason(Start::SpawnFailed("x".into())), "Kokoro sidecar error: spawn g2p_server: x");
    assert_eq!(reason(Start::NoInput), "Kokoro sidecar error: no stdin");
    assert_eq!(reason(Start::NoOutput), "Kokoro sidecar error: no stdout");
    assert_eq!(reason(Start::TimedOut), "Kokoro sidecar error: g2p_server did not become ready in time");
    assert!(is_ready_line("__READY__ now"));
    assert!(!is_ready_line(" __READY__"));
}

#[test]
fn a_running_server_is_kept_and_shut_down_once() {
    assert!(ensure_ready(ServerState::Down));
    assert!(!ensure_ready(ServerState::Up));
    let mut state = ServerState::Up;
    assert_eq!(shutdown(&mut state).as_deref(), Some("__QUIT__\n"));
    assert_eq!(state, ServerState::Down);
    assert_eq!(shutdown(&mut state), None);
    assert!(ensure_ready(state));
}

#[test]
fn no_piece_has_room_for_the_next_word() {
    let line = "aa bbb c dddd ee f ggggg";
    for max in 5..24 {
        let pieces = cap_token_len(line, max);
        assert_eq!(pieces.join(" "), line);
        for pair in pieces.windows(2) {
            let next = pair[1].split(' ').next().unwrap();
            assert!(pair[0].len() + 1 + next.len() > max, "{max}: {pieces:?}");
        }
    }
    assert_eq!(cap_token_len(line, 8).len(), 3);
}

#[test]
fn sentences_end_with_marks_and_closers() {
    let got = split_sentences("He met Dr. No. \"Why?\" she said (twice!) and\nleft... It was no. 5");
    let (last, ended) = got.split_last().unwrap();
    assert!(!ended.is_empty());
    for s in ended {
        let bare = s.trim_end_matches(['"', '\u{201d}', ')', '\'']);
        assert!(bare.ends_with(['.', '?', '!']), "{s}");
        assert!(!bare.ends_with("Dr.") && !bare.ends_with("no."), "{s}");
    }
    assert!(last.ends_with("no. 5"), "{last}");
}

#[test]
fn cleaning_phonemes_again_changes_nothing() {
    for t in ["a. b. c.", " a\u{200d}\u{26a}  \t. b .", ". . .", ""] {
        let once = clean_phonemes(t);
        assert_eq!(clean_phonemes(&once), once);
    }
}

#[test]
fn no_whitespace_is_a_letter_or_a_digit() {
    for c in '\u{0}'..=char::MAX {
        assert!(!(c.is_whitespace() && c.is_alphanumeric()), "{c:?}");
    }
    let got = split_sentences("\u{a0}Dr.\u{3000}No went. He\u{2003}left.");
    assert_eq!(got, vec!["Dr.\u{3000}No went.", "He\u{2003}left."]);
}
