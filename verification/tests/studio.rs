use audiobook_studio::model::{BookInfo, Chapter, Progress};
use audiobook_studio::studio::{
    caption, counter, light_label, output_folder, pick_edit, pick_model_default, recompute,
    review_chapters, review_summary, server_light, title_from_filename, voice_label, voices, Edit,
    Msg, ServerLight, Stage, Studio,
};

fn chapter(order: usize, title: &str, start_page: usize, end_page: usize) -> Chapter {
    Chapter { order, title: title.to_string(), start_page, end_page }
}

fn short(list: &[Chapter]) -> Vec<(usize, String, usize, usize)> {
    list.iter().map(|c| (c.order, c.title.clone(), c.start_page, c.end_page)).collect()
}

fn row(order: usize, title: &str, start: usize, end: usize) -> (usize, String, usize, usize) {
    (order, title.to_string(), start, end)
}

fn book(pages: usize) -> BookInfo {
    BookInfo {
        path: "/books/my_book-two.pdf".to_string(),
        file_name: "my_book-two.pdf".to_string(),
        page_count: pages,
        size_bytes: 7,
        outline: vec![],
    }
}

#[test]
fn prefers_mlx_gemma_when_both_present() {
    // Both the MLX and plain builds are pulled; the Metal-accelerated MLX
    // tag must win regardless of list order (substring matching means
    // "gemma4:e2b" alone would otherwise match either one).
    let models = vec![
        "gemma4:e2b".to_string(),
        "gemma4:e2b-mlx".to_string(),
        "llama2:latest".to_string(),
    ];
    assert_eq!(pick_model_default(&models), "gemma4:e2b-mlx");

    // Order-independent.
    let models_rev = vec![
        "gemma4:e2b-mlx".to_string(),
        "gemma4:e2b".to_string(),
    ];
    assert_eq!(pick_model_default(&models_rev), "gemma4:e2b-mlx");
}

#[test]
fn falls_back_to_plain_gemma_then_first() {
    // No MLX build: plain gemma is acceptable.
    let only_plain = vec!["gemma4:e2b".to_string(), "llama2:latest".to_string()];
    assert_eq!(pick_model_default(&only_plain), "gemma4:e2b");
    // None of the preferred families: first model wins.
    let other = vec!["phi3:mini".to_string()];
    assert_eq!(pick_model_default(&other), "phi3:mini");
}

#[test]
fn no_models_give_no_choice() {
    assert_eq!(pick_model_default(&[]), "");
    let models = vec!["x".to_string(), "my-deepseek".to_string(), "llama3".to_string()];
    assert_eq!(pick_model_default(&models), "llama3");
}

#[test]
fn numbers_and_ends_are_derived_again() {
    let list = vec![chapter(9, "a", 0, 0), chapter(9, "b", 5, 0), chapter(9, "c", 5, 0), chapter(9, "d", 99, 0)];
    let once = recompute(&list, 10);
    assert_eq!(short(&once), vec![row(1, "a", 1, 4), row(2, "b", 5, 5), row(3, "c", 5, 9), row(4, "d", 10, 10)]);
    assert_eq!(short(&recompute(&once, 10)), short(&once));
}

#[test]
fn one_edit_is_made_in_a_frame() {
    assert!(matches!(pick_edit(Some(2), Some(1), Some(0)), Some(Edit::MoveUp(2))));
    assert!(matches!(pick_edit(None, Some(1), Some(0)), Some(Edit::MoveDown(1))));
    assert!(matches!(pick_edit(None, None, Some(0)), Some(Edit::Delete(0))));
    assert!(pick_edit(None, None, None).is_none());
}

#[test]
fn edits_move_and_delete() {
    let list = vec![chapter(1, "a", 1, 3), chapter(2, "b", 4, 6), chapter(3, "c", 7, 9)];
    let up = review_chapters(&list, 9, Some(Edit::MoveUp(1)), false, false);
    assert_eq!(short(&up), vec![row(1, "b", 4, 4), row(2, "a", 1, 6), row(3, "c", 7, 9)]);
    let back = review_chapters(&up, 9, Some(Edit::MoveDown(0)), false, false);
    assert_eq!(short(&back), short(&list));
    let gone = review_chapters(&list, 9, Some(Edit::Delete(0)), false, false);
    assert_eq!(short(&gone), vec![row(1, "b", 4, 6), row(2, "c", 7, 9)]);
}

#[test]
fn a_new_chapter_starts_behind_the_last() {
    let list = vec![chapter(1, "a", 1, 9)];
    let two = review_chapters(&list, 9, None, true, false);
    assert_eq!(short(&two), vec![row(1, "a", 1, 1), row(2, "New Chapter", 2, 9)]);
    let one = review_chapters(&vec![], 9, None, true, false);
    assert_eq!(short(&one), vec![row(1, "New Chapter", 1, 9)]);
    let full = review_chapters(&vec![chapter(1, "a", 9, 9)], 9, None, true, false);
    assert_eq!(short(&full), vec![row(1, "a", 9, 9), row(2, "New Chapter", 9, 9)]);
}

#[test]
fn without_a_change_nothing_is_derived() {
    let list = vec![chapter(5, "a", 3, 2)];
    assert_eq!(short(&review_chapters(&list, 9, None, false, false)), short(&list));
    assert_eq!(short(&review_chapters(&list, 9, None, false, true)), vec![row(1, "a", 3, 9)]);
}

#[test]
fn voices_have_labels() {
    assert_eq!(voice_label("bm_george"), "George — British male");
    assert_eq!(voice_label("af_heart"), "Heart — American female");
    assert_eq!(voice_label("xx"), "xx");
    let all = voices();
    assert_eq!(all.len(), 4);
    for v in &all {
        assert_eq!(voice_label(&v.id), v.label);
    }
    assert_eq!(all[2].lang, "a");
}

#[test]
fn titles_come_from_file_names() {
    assert_eq!(title_from_filename("my_book-two.pdf"), "my book two");
    assert_eq!(title_from_filename("x.pdf.pdf"), "x");
    assert_eq!(title_from_filename("X.PDF"), "X.PDF");
    assert_eq!(title_from_filename(".pdf"), "");
    assert_eq!(output_folder("my book"), "my book - Audiobook");
}

#[test]
fn a_new_studio_is_empty() {
    let s = Studio::new();
    assert_eq!(s.stage, Stage::Drop);
    assert!(s.polish && !s.busy && s.book.is_none());
    assert_eq!((s.voice.voice.as_str(), s.voice.lang.as_str()), ("bm_george", "b"));
    assert_eq!(f32::from_bits(s.voice.speed_bits), 1.0);
    assert!(!s.can_go());
}

#[test]
fn reading_a_document_starts_detection() {
    let mut s = Studio::new();
    s.load_pdf("/x.pdf");
    assert!(s.busy);
    assert_eq!(s.status, "Reading /x.pdf…");
    let models = Progress::new("__models__", "phi,gemma4:e2b", 0, 0);
    let started = s.pump(vec![Msg::Progress(models), Msg::Inspected(book(12), "/out".to_string())]);
    assert_eq!(started.len(), 1);
    assert_eq!((started[0].path.as_str(), started[0].model.as_str()), ("/books/my_book-two.pdf", "gemma4:e2b"));
    assert!(s.busy && s.ollama_up);
    assert_eq!(s.models, vec!["phi", "gemma4:e2b"]);
    assert_eq!((s.title.as_str(), s.out_dir.as_str()), ("my book two", "/out"));
}

#[test]
fn what_the_user_set_is_kept() {
    let mut s = Studio::new();
    s.title = "Mine".to_string();
    s.out_dir = "/mine".to_string();
    s.model = "phi".to_string();
    s.handle(Msg::Progress(Progress::new("__models__", "gemma4:e2b", 0, 0)));
    s.handle(Msg::Inspected(book(3), "/other".to_string()));
    assert_eq!((s.title.as_str(), s.out_dir.as_str(), s.model.as_str()), ("Mine", "/mine", "phi"));
    s.handle(Msg::Progress(Progress::new("__models__", "", 0, 0)));
    assert!(s.models.is_empty() && !s.ollama_up);
}

#[test]
fn chapters_are_shown_for_review() {
    let mut s = Studio::new();
    s.handle(Msg::Inspected(book(9), "/out".to_string()));
    assert!(s.handle(Msg::Chapters(vec![chapter(1, "a", 1, 1), chapter(2, "b", 5, 5)])).is_none());
    assert_eq!(s.stage, Stage::Review);
    assert_eq!(short(&s.chapters), vec![row(1, "a", 1, 4), row(2, "b", 5, 9)]);
    assert!(s.chapters_ordered() && s.can_go());
    s.review(Some(Edit::MoveUp(1)), false, false);
    assert!(!s.chapters_ordered());
    s.review(None, true, false);
    assert_eq!(s.chapters.len(), 3);
}

#[test]
fn a_narration_ends_done_or_in_review() {
    let mut s = Studio::new();
    assert!(s.generate().is_none());
    s.handle(Msg::Inspected(book(9), "/out".to_string()));
    s.handle(Msg::Chapters(vec![chapter(1, "a", 1, 9)]));
    s.choose_voice("am_adam", "a");
    let q = s.generate().unwrap();
    assert_eq!((q.pdf_path.as_str(), q.out_dir.as_str(), q.book_title.as_str()), ("/books/my_book-two.pdf", "/out", "my book two"));
    assert_eq!((q.voice.voice.as_str(), q.polish, q.polish_model.clone(), q.chapters.len()), ("am_adam", true, None, 1));
    assert_eq!(s.stage, Stage::Running);
    s.handle(Msg::Progress(Progress::new("tts", "Narrating", 1, 3)));
    assert_eq!(s.progress.as_ref().unwrap().message, "Narrating");
    s.handle(Msg::Error("no".to_string()));
    assert_eq!((s.stage, s.error.as_deref(), s.busy), (Stage::Review, Some("no"), false));
    s.model = "phi".to_string();
    assert_eq!(s.generate().unwrap().polish_model.as_deref(), Some("phi"));
    s.handle(Msg::Done("/out/x.m4b".to_string()));
    assert_eq!((s.stage, s.result_path.as_deref()), (Stage::Done, Some("/out/x.m4b")));
    s.another();
    assert!(s.stage == Stage::Drop && s.book.is_none() && s.chapters.is_empty());
    assert!(s.result_path.is_none() && s.progress.is_none());
}

#[test]
fn an_error_outside_a_narration_changes_no_screen() {
    let mut s = Studio::new();
    s.handle(Msg::Error("no".to_string()));
    assert_eq!(s.stage, Stage::Drop);
    s.handle(Msg::Inspected(book(1), "/o".to_string()));
    assert!(s.error.is_none());
    s.back();
    assert!(s.book.is_none());
    assert!(s.detect_chapters().is_none());
}

#[test]
fn only_a_pdf_is_dropped_and_only_when_idle() {
    let mut s = Studio::new();
    assert!(s.accepts_drop(Some("pdf")));
    assert!(!s.accepts_drop(Some("PDF")));
    assert!(!s.accepts_drop(None));
    s.load_pdf("x");
    assert!(!s.accepts_drop(Some("pdf")));
}

#[test]
fn the_voice_is_downloaded_once() {
    let mut s = Studio::new();
    assert!(!s.warm_if_needed(true));
    assert!(!s.model_downloading);
    assert!(s.warm_if_needed(false));
    assert!(s.model_downloading);
    s.handle(Msg::ModelReady(true));
    assert!(!s.model_downloading && s.model_failed);
    s.handle(Msg::ModelReady(false));
    assert!(!s.model_failed);
}

#[test]
fn the_window_speaks() {
    let p = Progress::new("tts", "Narrating: A", 1, 3);
    assert_eq!(caption(&p), "tts · Narrating: A");
    assert_eq!(counter(&p).as_deref(), Some("1/3"));
    assert_eq!(counter(&Progress::new("tts", "", 0, 1)), None);
    assert!(review_summary(12).starts_with("12 chapters. Rename, reorder, set"));
    let mut s = Studio::new();
    assert_eq!(server_light(&s), ServerLight::Checking);
    s.handle(Msg::Progress(Progress::new("__models__", "a", 0, 0)));
    assert_eq!(server_light(&s), ServerLight::Online);
    s.ollama_up = false;
    assert_eq!(server_light(&s), ServerLight::Offline);
    assert_eq!(light_label(ServerLight::Checking), "Ollama: checking…");
    assert_eq!(light_label(ServerLight::Online), "Ollama: online");
    assert_eq!(light_label(ServerLight::Offline), "Ollama: offline");
}
