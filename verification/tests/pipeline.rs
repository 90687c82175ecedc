use audiobook_studio::job::{
    is_rendered, job_step, output_name, polish_model_or_default, JobAction, JobEvent, JobState,
};
use audiobook_studio::model::{Boundary, Chapter, OutlineItem, Progress};
use audiobook_studio::pipeline::{
    choose_boundaries, detection_progress, gather_candidates, model_names, page_openings,
    polishable, rebuild_file, settle_chapters, unreachable_error, DetectionStep,
};
use audiobook_studio::split::{
    boundaries_to_chapters, chapter_transcript, file_stem, render_transcripts, transcript_text,
};

fn boundary(title: &str, start_page: usize) -> Boundary {
    Boundary { title: title.to_string(), start_page }
}

fn chapter(order: usize, title: &str, start_page: usize, end_page: usize) -> Chapter {
    Chapter { order, title: title.to_string(), start_page, end_page }
}

fn ranges(list: &[Chapter]) -> Vec<(usize, usize, usize)> {
    list.iter().map(|c| (c.order, c.start_page, c.end_page)).collect()
}

fn strings(list: &[&str]) -> Vec<String> {
    list.iter().map(|s| s.to_string()).collect()
}

// ---------- Splitting ----------

#[test]
fn chapters_run_up_to_the_next_one() {
    let got = boundaries_to_chapters(&[boundary(" One ", 1), boundary("Two", 5), boundary("Three", 9)], 12);
    assert_eq!(ranges(&got), vec![(1, 1, 4), (2, 5, 8), (3, 9, 12)]);
    assert_eq!(got[0].title, "One");
}

#[test]
fn pages_past_the_end_are_brought_back() {
    let got = boundaries_to_chapters(&[boundary("a", 0), boundary("b", 16), boundary("c", 3)], 12);
    assert_eq!(ranges(&got), vec![(1, 1, 12), (2, 12, 12), (3, 3, 12)]);
    let got = boundaries_to_chapters(&[boundary("a", 4)], 0);
    assert_eq!(ranges(&got), vec![(1, 1, 1)]);
    assert!(boundaries_to_chapters(&[], 5).is_empty());
}

#[test]
fn file_names_are_safe_and_numbered() {
    assert_eq!(file_stem(&chapter(3, "Who?  is: \"he\" <a/b|c\\d>*", 1, 1)), "03 - Who is he abcd");
    assert_eq!(file_stem(&chapter(12, " A ", 1, 1)), "12 - A");
    assert_eq!(file_stem(&chapter(123, "", 1, 1)), "123 - ");
}

#[test]
fn file_names_of_different_chapters_differ() {
    for i in 1..120 {
        assert_ne!(file_stem(&chapter(i, "T", 1, 1)), file_stem(&chapter(i + 1, "T", 1, 1)));
    }
}

#[test]
fn transcripts_hold_their_own_pages() {
    let pages = strings(&["First page.", "Second page.", "Third page."]);
    let t = chapter_transcript(&pages, &chapter(2, "Two?", 2, 3), "Book", "Author");
    assert_eq!(t.stem, "02 - Two");
    assert_eq!(t.text, "Book\nAuthor\n\nTwo?\n\nSecond page.\n\nThird page.\n");
    assert_eq!(t.text, transcript_text("Book", "Author", "Two?", "Second page.\n\nThird page."));
}

#[test]
fn ranges_outside_the_book_are_brought_back() {
    let pages = strings(&["First page.", "Second page."]);
    let body = |start: usize, end: usize| {
        chapter_transcript(&pages, &chapter(1, "t", start, end), "b", "a").text
    };
    assert_eq!(body(2, 1), transcript_text("b", "a", "t", ""));
    assert_eq!(body(9, 12), transcript_text("b", "a", "t", ""));
    assert_eq!(body(0, 1), transcript_text("b", "a", "t", "First page."));
    assert_eq!(body(2, 99), transcript_text("b", "a", "t", "Second page."));
}

#[test]
fn every_chapter_has_its_transcript() {
    let pages = strings(&["One.", "Two."]);
    let list = render_transcripts(&pages, &[chapter(1, "a", 1, 1), chapter(2, "b", 2, 2)], "B", "A");
    assert_eq!(list.len(), 2);
    assert_eq!(list[1].stem, "02 - b");
    assert_eq!(list[1].text, "B\nA\n\nb\n\nTwo.\n");
}

// ---------- Detection ----------

#[test]
fn openings_are_first_lines() {
    let long = "x".repeat(90);
    let pages = vec!["\n \n  Hello \nworld".to_string(), "".to_string(), long.clone()];
    assert_eq!(
        page_openings(&pages),
        vec![(1, "Hello".to_string()), (2, "".to_string()), (3, "x".repeat(80))]
    );
}

#[test]
fn candidates_are_gathered_without_the_contents() {
    let pages = strings(&["Chapter 1\nChapter 2", "Chapter 1\ntext", "Chapter 2\ntext"]);
    let outline = vec![OutlineItem { level: 0, title: "T".to_string(), page: 1 }];
    let c = gather_candidates(&outline, &pages);
    assert_eq!(c.headings, vec![(2, "Chapter 1".to_string()), (3, "Chapter 2".to_string())]);
    assert_eq!(
        c.text,
        "PDF OUTLINE (level: title @ page):\n0: T @ 1\n\nDETECTED HEADING LINES (page: text):\n2: Chapter 1\n3: Chapter 2\n"
    );
}

#[test]
fn an_empty_answer_falls_back_on_headings() {
    let heads = vec![(2, " A ".to_string()), (5, "B".to_string())];
    let got = choose_boundaries(vec![boundary("X", 1)], &heads);
    assert_eq!((got.len(), got[0].title.as_str()), (1, "X"));
    let got = choose_boundaries(vec![], &heads);
    assert_eq!((got.len(), got[0].title.as_str(), got[0].start_page), (2, "A", 2));
    let got = choose_boundaries(vec![], &[]);
    assert_eq!((got.len(), got[0].title.as_str(), got[0].start_page), (1, "Full Book", 1));
    assert_eq!(ranges(&settle_chapters(vec![], &heads, 9)), vec![(1, 2, 4), (2, 5, 9)]);
    assert_eq!(ranges(&settle_chapters(vec![], &[], 9)), vec![(1, 1, 9)]);
}

fn shown(p: &Progress) -> (String, String, u32, u32) {
    (p.stage.clone(), p.message.clone(), p.current, p.total)
}

fn report(stage: &str, message: &str, current: u32, total: u32) -> (String, String, u32, u32) {
    (stage.to_string(), message.to_string(), current, total)
}

#[test]
fn detection_reports_its_steps() {
    let line = |s: DetectionStep| shown(&detection_progress(&s));
    assert_eq!(line(DetectionStep::Reading), report("extract", "Reading PDF…", 0, 1));
    assert_eq!(line(DetectionStep::Extracted(120)), report("extract", "Extracted 120 pages", 1, 1));
    assert_eq!(line(DetectionStep::Asking("phi".into())), report("boundaries", "Asking phi to find chapters…", 0, 1));
    assert_eq!(line(DetectionStep::Found(0)), report("boundaries", "Found 0 chapters", 1, 1));
}

#[test]
fn entries_without_a_name_are_no_models() {
    assert_eq!(model_names(&[Some("a".into()), None, Some("b".into())]), vec!["a", "b"]);
    assert_eq!(unreachable_error("x").message(), "LLM error: Ollama not reachable: x");
}

// ---------- Polishing a file ----------

#[test]
fn a_file_is_split_and_put_together() {
    let full = "Book\nAuthor\n\nChapter\n\nFirst.\n\nSecond.\n";
    let parts = polishable(full).unwrap();
    assert_eq!((parts.title.as_str(), parts.chapter.as_str(), parts.body.as_str()), ("Book\nAuthor", "Chapter", "First.\n\nSecond.\n"));
    assert_eq!(rebuild_file(&parts, " First!\n\nSecond. "), "Book\nAuthor\n\nChapter\n\nFirst!\n\nSecond.\n");
    assert_eq!(rebuild_file(&parts, &parts.body), full);
}

#[test]
fn a_file_without_a_body_is_left_alone() {
    assert!(polishable("Book\nAuthor\n\nChapter").is_none());
    assert!(polishable("Book\n\nChapter\n\n \n").is_none());
    assert!(polishable("").is_none());
    // Without an author the head still comes back as it was.
    let full = "Book\n\n\nChapter\n\nBody\n";
    let parts = polishable(full).unwrap();
    assert_eq!(rebuild_file(&parts, "Body"), full);
}

// ---------- The job ----------

fn run(titles: &[&str], polish: bool, reachable: bool, audio: &[Option<u64>], cover: bool) -> (Vec<JobAction>, Vec<(String, String, u32, u32)>) {
    let titles = strings(titles);
    let mut state = JobState::Created;
    let mut event = JobEvent::Done;
    let mut actions = vec![];
    let mut reports = vec![];
    loop {
        let step = job_step(&titles, polish, state, event);
        reports.extend(step.reports.iter().map(shown));
        actions.push(step.action);
        state = step.state;
        event = match step.action {
            JobAction::Finish | JobAction::Fail => return (actions, reports),
            JobAction::ProbeModel => JobEvent::Answer(reachable),
            JobAction::CheckAudio(i) => JobEvent::AudioSize(audio[i]),
            JobAction::LookForCover => JobEvent::Answer(cover),
            JobAction::Polish(_) | JobAction::RenderCover => JobEvent::Failed,
            _ => JobEvent::Done,
        };
    }
}

#[test]
fn a_whole_job_runs_in_order() {
    let (actions, reports) = run(&["A", "B"], true, true, &[None, Some(2000)], false);
    assert_eq!(
        actions,
        vec![
            JobAction::MakeFolder,
            JobAction::Extract,
            JobAction::WriteTranscripts,
            JobAction::ProbeModel,
            JobAction::Polish(0),
            JobAction::Polish(1),
            JobAction::Warm,
            JobAction::CheckAudio(0),
            JobAction::Synthesize(0),
            JobAction::CheckAudio(1),
            JobAction::LookForCover,
            JobAction::RenderCover,
            JobAction::Bundle,
            JobAction::Finish,
        ]
    );
    assert_eq!(
        reports,
        vec![
            report("split", "Building transcripts…", 0, 2),
            report("split", "Transcripts ready", 2, 2),
            report("polish", "Polishing transcript: A", 0, 2),
            report("polish", "Polishing transcript: B", 1, 2),
            report("polish", "Transcripts polished", 2, 2),
            report("tts", "Waiting for Kokoro sidecar…", 0, 1),
            report("tts", "Narrating: A", 0, 2),
            report("tts", "Narrating: B", 1, 2),
            report("tts", "All chapters narrated", 2, 2),
            report("bundle", "Rendering cover…", 0, 1),
            report("bundle", "Bundling .m4b…", 0, 1),
            report("done", "Audiobook ready", 1, 1),
        ]
    );
}

#[test]
fn polishing_and_the_cover_can_be_left_out() {
    let (actions, _) = run(&["A"], true, false, &[Some(1)], true);
    assert!(!actions.contains(&JobAction::Polish(0)));
    assert!(!actions.contains(&JobAction::RenderCover));
    assert!(!actions.contains(&JobAction::Synthesize(0)));
    let (actions, _) = run(&["A"], false, true, &[None], true);
    assert!(!actions.contains(&JobAction::ProbeModel));
    assert!(actions.contains(&JobAction::Synthesize(0)));
}

#[test]
fn a_failed_step_ends_the_job() {
    let titles = strings(&["A"]);
    for state in [JobState::MakingFolder, JobState::Extracting, JobState::Writing, JobState::Warming, JobState::Narrating(0), JobState::Bundling] {
        let step = job_step(&titles, true, state, JobEvent::Failed);
        assert_eq!((step.state, step.action, step.reports.len()), (JobState::Failed, JobAction::Fail, 0));
    }
}

#[test]
fn audio_that_is_there_is_not_rendered_again() {
    assert!(!is_rendered(None));
    assert!(is_rendered(Some(0)));
    assert!(is_rendered(Some(1000)));
    assert!(is_rendered(Some(1001)));
    let titles = strings(&["A", "B"]);
    for size in [0, 1000, 5000] {
        let event = JobEvent::AudioSize(Some(size));
        let step = job_step(&titles, true, JobState::Checking(0), event);
        assert_eq!((step.state, step.action), (JobState::Checking(1), JobAction::CheckAudio(1)));
    }
}

#[test]
fn names_and_defaults_of_a_job() {
    assert_eq!(output_name("Either/Or"), "Either-Or (Audiobook).m4b");
    assert_eq!(polish_model_or_default(None), "gemma4:e2b");
    assert_eq!(polish_model_or_default(Some("phi".into())), "phi");
}
