use audiobook_studio::bundle::{
    bundle_args, concat_text, find_cover, metadata_text, plan_bundle, total_duration,
};
use audiobook_studio::cli::{
    all_ok, chapters_table, doctor_checks, doctor_line, doctor_verdict, models_text, progress_line,
    require_chapters, title_from_pdf, Findings,
};
use audiobook_studio::environment::{
    bundle_settings, in_bundle, page_index, reveal_command, Platform,
};
use audiobook_studio::error::AppError;
use audiobook_studio::model::{Chapter, Progress, VoiceConfig};
use audiobook_studio::outline::{
    decode_pdf_string, resolve_dest_page, walk_outline, Bookmark, Destination, Element, ObjectId,
};
use audiobook_studio::speech::{
    cache_name, encode_args, hub_dir, lay_out, model_input, needs_reload, silence_after, speech_error,
    spoken_paragraphs, warm, Loaded, MAX_MODEL_TOKENS, SR,
};
use audiobook_studio::webview::{
    health_request, is_healthy, plan_sidecar, poll_health, tts_failure, Launch, Surroundings,
    SIDECAR_AUTHORITY, SIDECAR_BASE,
};

fn chapter(order: usize, title: &str, start_page: usize, end_page: usize) -> Chapter {
    Chapter { order, title: title.to_string(), start_page, end_page }
}

fn strings(list: &[&str]) -> Vec<String> {
    list.iter().map(|s| s.to_string()).collect()
}

// ---------- Errors ----------

#[test]
fn every_error_says_what_failed() {
    let m = |s: &str| s.to_string();
    assert_eq!(AppError::Pdf(m("x")).message(), "PDF error: x");
    assert_eq!(AppError::Llm(m("x")).message(), "LLM error: x");
    assert_eq!(AppError::Sidecar(m("x")).message(), "Kokoro sidecar error: x");
    assert_eq!(AppError::Ffmpeg(m("x")).message(), "ffmpeg error: x");
    assert_eq!(AppError::Io(m("x")).message(), "I/O error: x");
    assert_eq!(AppError::Ocr(m("x")).message(), "OCR error: x");
    assert_eq!(AppError::Tts(m("x")).message(), "TTS error: x");
    assert_eq!(AppError::Other(m("x")).message(), "x");
}

#[test]
fn the_default_voice_speaks_british_at_normal_speed() {
    let v = VoiceConfig::default();
    assert_eq!((v.voice.as_str(), v.lang.as_str()), ("bm_george", "b"));
    assert_eq!(f32::from_bits(v.speed_bits), 1.0);
}

// ---------- Outlines ----------

#[test]
fn pdf_strings_are_decoded() {
    assert_eq!(decode_pdf_string(b"Caf\xe9"), "Café");
    assert_eq!(decode_pdf_string(&[0xfe, 0xff, 0x00, 0x41, 0x20, 0xac]), "A€");
    assert_eq!(decode_pdf_string(&[0xfe, 0xff, 0xd8, 0x34, 0xdd, 0x1e]), "𝄞");
    assert_eq!(decode_pdf_string(&[0xfe, 0xff, 0xd8, 0x34, 0x00, 0x41, 0xdd, 0x1e]), "\u{fffd}A\u{fffd}");
    assert_eq!(decode_pdf_string(&[0xfe, 0xff, 0xd8, 0x34]), "\u{fffd}");
    assert_eq!(decode_pdf_string(&[0xfe, 0xff, 0x00, 0x41, 0x00]), "A");
    assert_eq!(decode_pdf_string(&[0xfe]), "þ");
    assert_eq!(decode_pdf_string(&[]), "");
    let units = [0x48u16, 0xd800, 0xdbff, 0xdfff, 0xe000, 0xffff, 0xdc00];
    let mut bytes = vec![0xfe, 0xff];
    for u in units {
        bytes.extend_from_slice(&u.to_be_bytes());
    }
    assert_eq!(decode_pdf_string(&bytes), String::from_utf16_lossy(&units));
}

fn id(number: u32) -> ObjectId {
    ObjectId { number, generation: 0 }
}

fn mark(number: u32, title: &str, page: Option<u32>, first: Option<u32>, next: Option<u32>) -> Bookmark {
    Bookmark {
        id: id(number),
        title: if title.is_empty() { None } else { Some(title.as_bytes().to_vec()) },
        dest: page.map(|p| Destination::Array(vec![Element::Reference(id(p)), Element::Other])),
        action: None,
        first: first.map(id),
        next: next.map(id),
    }
}

#[test]
fn an_outline_lists_children_before_followers() {
    let table = vec![
        mark(1, "One", Some(100), Some(2), Some(3)),
        mark(2, "One.A", Some(101), None, None),
        mark(3, "", Some(102), Some(4), Some(9)),
        mark(4, "Deep", Some(555), None, None),
    ];
    let pages = vec![(id(100), 1), (id(101), 2), (id(102), 3)];
    let got: Vec<(usize, String, usize)> = walk_outline(&table, &pages, Some(id(1)))
        .unwrap()
        .into_iter()
        .map(|o| (o.level, o.title, o.page))
        .collect();
    assert_eq!(
        got,
        vec![(0, "One".to_string(), 1), (1, "One.A".to_string(), 2), (1, "Deep".to_string(), 0)]
    );
    assert_eq!(walk_outline(&table, &pages, None).unwrap().len(), 0);
    assert_eq!(walk_outline(&vec![], &pages, Some(id(1))).unwrap().len(), 0);
}

#[test]
fn bookmarks_that_lead_back_have_no_outline() {
    let table = vec![mark(1, "A", None, None, Some(2)), mark(2, "B", None, None, Some(1))];
    assert!(walk_outline(&table, &vec![], Some(id(1))).is_none());
    let table = vec![mark(1, "A", None, Some(1), None)];
    assert!(walk_outline(&table, &vec![], Some(id(1))).is_none());
}

#[test]
fn a_long_row_of_bookmarks_is_followed_to_its_end() {
    let n = 2000;
    let table: Vec<Bookmark> = (0..n)
        .map(|i| mark(i, "x", None, None, if i + 1 < n { Some(i + 1) } else { None }))
        .collect();
    assert_eq!(walk_outline(&table, &vec![], Some(id(0))).unwrap().len(), n as usize);
}

#[test]
fn destinations_lead_to_pages() {
    let pages = vec![(id(7), 1), (id(8), 2), (id(7), 3)];
    let mut b = mark(1, "x", Some(7), None, None);
    assert_eq!(resolve_dest_page(&b, &pages), Some(3));
    b.dest = None;
    assert_eq!(resolve_dest_page(&b, &pages), None);
    b.action = Some(Destination::Array(vec![Element::Reference(id(8))]));
    assert_eq!(resolve_dest_page(&b, &pages), Some(2));
    b.dest = Some(Destination::Other);
    assert_eq!(resolve_dest_page(&b, &pages), None);
    b.dest = Some(Destination::Array(vec![]));
    assert_eq!(resolve_dest_page(&b, &pages), None);
    b.dest = Some(Destination::Array(vec![Element::Other]));
    assert_eq!(resolve_dest_page(&b, &pages), None);
}

// ---------- Bundling ----------

#[test]
fn marks_follow_each_other() {
    let got = metadata_text("T", "A", &[1500, 20], &[chapter(1, "One", 1, 2)]);
    assert_eq!(
        got,
        ";FFMETADATA1\ntitle=T\nartist=A\nalbum=T\nalbum_artist=A\ngenre=Audiobook\nmedia_type=2\n\
         \n[CHAPTER]\nTIMEBASE=1/1000\nSTART=0\nEND=1500\ntitle=One\n\
         \n[CHAPTER]\nTIMEBASE=1/1000\nSTART=1500\nEND=1520\ntitle=Chapter 2\n"
    );
    assert_eq!(total_duration(&[1500, 20]), Some(1520));
    assert_eq!(total_duration(&[u64::MAX, 1]), None);
}

#[test]
fn quotes_in_paths_are_escaped() {
    assert_eq!(concat_text(&strings(&["/a/it's.mp3", "/b"])), "file '/a/it'\\''s.mp3'\nfile '/b'\n");
    assert_eq!(concat_text(&[]), "");
}

#[test]
fn a_bundle_needs_audio() {
    let plan = plan_bundle(&strings(&["a.mp3"]), &[5], &[], "T", "A").unwrap();
    assert_eq!(plan.list, "file 'a.mp3'\n");
    assert!(plan.metadata.ends_with("START=0\nEND=5\ntitle=Chapter 1\n"));
    match plan_bundle(&[], &[], &[], "T", "A") {
        Err(AppError::Ffmpeg(m)) => assert_eq!(m, "no MP3s to bundle"),
        other => panic!("{other:?}"),
    }
}

#[test]
fn the_first_cover_is_taken() {
    assert_eq!(find_cover(true, true, true).as_deref(), Some("cover.jpg"));
    assert_eq!(find_cover(false, true, true).as_deref(), Some("cover.jpeg"));
    assert_eq!(find_cover(false, false, true).as_deref(), Some("cover.png"));
    assert_eq!(find_cover(false, false, false), None);
}

#[test]
fn the_command_maps_the_cover_if_there_is_one() {
    assert_eq!(
        bundle_args("l", "m", None, "64k", "o").join(" "),
        "-y -loglevel error -f concat -safe 0 -i l -i m -map 0:a -map_metadata 1 -c:a aac -b:a 64k -movflags +faststart o"
    );
    assert_eq!(
        bundle_args("l", "m", Some("c"), "64k", "o").join(" "),
        "-y -loglevel error -f concat -safe 0 -i l -i m -i c -map 0:a -map_metadata 1 -map 2:v -c:v copy -disposition:v:0 attached_pic -c:a aac -b:a 64k -movflags +faststart o"
    );
}

// ---------- Speech ----------

#[test]
fn the_model_gets_what_it_takes() {
    assert_eq!(model_input(" \n"), None);
    assert_eq!(model_input(" a b").as_deref(), Some(" a b"));
    assert_eq!(MAX_MODEL_TOKENS, 512);
    let fits = "x".repeat(510);
    assert_eq!(model_input(&fits), Some(fits.clone()));
    assert_eq!(model_input(&"x".repeat(600)), Some(fits));
    let words = format!("{} {} {}", "a".repeat(300), "b".repeat(200), "c".repeat(100));
    assert_eq!(model_input(&words), Some(format!("{} {}", "a".repeat(300), "b".repeat(200))));
}

#[test]
fn another_voice_is_loaded_anew() {
    let loaded = Some(Loaded { repo: "r".to_string(), voice: "v".to_string() });
    assert!(!needs_reload(&loaded, "r", "v"));
    assert!(needs_reload(&loaded, "r", "w"));
    assert!(needs_reload(&loaded, "q", "v"));
    assert!(needs_reload(&None, "r", "v"));
    assert_eq!(warm(true, &loaded, "r", "v").unwrap(), false);
    assert_eq!(warm(true, &None, "r", "v").unwrap(), true);
    assert_eq!(
        warm(false, &None, "r", "v").unwrap_err().message(),
        "TTS error: native MLX TTS is only available on macOS (Apple Silicon)"
    );
    assert_eq!(speech_error("eval", "x").message(), "TTS error: eval: x");
}

#[test]
fn the_cache_is_found_from_the_environment() {
    assert_eq!(cache_name("prince-canuma/Kokoro-82M"), "models--prince-canuma--Kokoro-82M");
    let d = hub_dir(Some("/hf"), Some("/c"), Some("/h"));
    assert_eq!((d.base.as_str(), d.below.as_str()), ("/hf", "hub"));
    let d = hub_dir(None, Some("/c"), Some("/h"));
    assert_eq!((d.base.as_str(), d.below.as_str()), ("/c", ""));
    let d = hub_dir(None, None, Some("/h"));
    assert_eq!((d.base.as_str(), d.below.as_str()), ("/h", ".cache/huggingface/hub"));
    assert_eq!(hub_dir(None, None, None).base, "");
}

#[test]
fn paragraphs_are_spoken_with_gaps() {
    assert_eq!(spoken_paragraphs("A\nB\n\n\n\n C \n").unwrap(), vec!["A\nB", "C"]);
    assert_eq!(spoken_paragraphs(" \n\n ").unwrap_err().message(), "TTS error: empty transcript");
    assert_eq!((silence_after(0), silence_after(1), silence_after(2)), (19200, 19200, 9600));
    assert_eq!(silence_after(0), (SR as f32 * 0.80) as usize);
    assert_eq!(silence_after(2), (SR as f32 * 0.40) as usize);
    assert_eq!(encode_args("w", "o").join(" "), "-y -loglevel error -i w -b:a 128k o");
}

#[test]
fn the_audio_of_a_chapter_has_silence_between() {
    let got = lay_out(&vec![vec![1.5f32, 2.5], vec![], vec![3.5]], 0.0);
    assert_eq!(got.len(), 3 + 19200 + 19200 + 9600);
    assert_eq!(&got[..2], &[1.5, 2.5]);
    assert_eq!(got[2 + 19200 + 19200], 3.5);
    assert_eq!(got.iter().filter(|s| **s != 0.0).count(), 3);
    assert!(lay_out(&vec![], 0u8).is_empty());
}

// ---------- The machine ----------

#[test]
fn a_bundle_is_known_by_its_directories() {
    assert!(in_bundle(Some("MacOS"), Some("Contents")));
    assert!(!in_bundle(Some("debug"), Some("Contents")));
    assert!(!in_bundle(Some("MacOS"), Some("target")));
    assert!(!in_bundle(Some("MacOS"), None));
    let s = bundle_settings(true, false, true);
    assert!(s.cache && !s.offline);
    let s = bundle_settings(false, false, false);
    assert!(!s.cache && !s.offline);
}

#[test]
fn a_page_beyond_the_last_is_the_last() {
    assert_eq!(page_index(1, 5), 0);
    assert_eq!(page_index(0, 5), 0);
    assert_eq!(page_index(9, 5), 4);
    assert_eq!(page_index(3, 0), 0);
}

#[test]
fn files_are_revealed_on_each_platform() {
    assert_eq!(reveal_command(Platform::Mac, "/a/b", Some("/a")), strings(&["open", "-R", "/a/b"]));
    assert_eq!(reveal_command(Platform::Windows, "b", None), strings(&["explorer", "/select,", "b"]));
    assert_eq!(reveal_command(Platform::Other, "/a/b", Some("/a")), strings(&["xdg-open", "/a"]));
    assert_eq!(reveal_command(Platform::Other, "b", None), strings(&["xdg-open", "."]));
}

// ---------- The command line ----------

#[test]
fn reports_are_lines() {
    assert_eq!(progress_line(&Progress::new("tts", "A", 1, 3)), "[tts] A (1/3)");
    assert_eq!(progress_line(&Progress::new("tts", "A", 0, 1)), "[tts] A");
}

#[test]
fn chapters_are_a_table() {
    let long = "x".repeat(60);
    let got = chapters_table(&[chapter(1, "One", 1, 4), chapter(1234, &long, 15, 120)]);
    let expected = format!(
        "{:>3}  {:<48}  pages\n{:>3}  {:<48}  {}-{}\n{:>3}  {:<48}  {}-{}\n",
        "#", "title", 1, "One", 1, 4, 1234, "x".repeat(48), 15, 120
    );
    assert_eq!(got, expected);
}

#[test]
fn models_are_listed() {
    assert_eq!(models_text(&[]), "(no models — is Ollama running?)\n");
    assert_eq!(models_text(&strings(&["a", "b"])), "a\nb\n");
}

#[test]
fn small_rules_of_the_command_line() {
    assert_eq!(title_from_pdf(Some("my_great-book")), "my_great-book");
    assert_eq!(title_from_pdf(None), "Audiobook");
    assert!(require_chapters(1).is_ok());
    assert_eq!(require_chapters(0).unwrap_err(), "no chapters to generate");
}

fn findings() -> Findings {
    Findings {
        models: strings(&["gemma4:e2b-mlx", "other"]),
        ocr_model: "glm-ocr:q8_0".to_string(),
        ocr_available: true,
        ffmpeg: true,
        pdfium: true,
        sidecar: true,
    }
}

#[test]
fn a_complete_machine_passes() {
    let list = doctor_checks(&findings());
    assert!(all_ok(&list));
    assert!(doctor_verdict(&list).is_ok());
    let lines: Vec<String> = list.iter().map(doctor_line).collect();
    assert_eq!(
        lines,
        vec![
            "[ok  ] ollama       2 model(s) available",
            "[ok  ] llm-model    gemma4:e2b-mlx present",
            "[ok  ] ocr-model    glm-ocr:q8_0 present",
            "[ok  ] ffmpeg       found on PATH",
            "[ok  ] libpdfium    found",
            "[ok  ] g2p-sidecar  g2p_server.py found",
        ]
    );
}

#[test]
fn only_a_missing_encoder_is_an_error() {
    let mut f = findings();
    f.models = vec![];
    f.ocr_available = false;
    f.pdfium = false;
    f.sidecar = false;
    let list = doctor_checks(&f);
    assert!(!all_ok(&list));
    assert!(doctor_verdict(&list).is_ok());
    assert_eq!(doctor_line(&list[0]), "[FAIL] ollama       not reachable (start `ollama serve`)");
    assert_eq!(doctor_line(&list[1]), "[FAIL] llm-model    missing — `ollama pull gemma4:e2b-mlx`");
    assert_eq!(doctor_line(&list[2]), "[FAIL] ocr-model    missing (scanned-PDF OCR off) — `ollama pull glm-ocr:q8_0`");
    assert_eq!(doctor_line(&list[4]), "[FAIL] libpdfium    not found (cover/OCR render off) — place libpdfium next to the binary");
    assert_eq!(doctor_line(&list[5]), "[FAIL] g2p-sidecar  sidecar not found — set AUDIOBOOK_SIDECAR_DIR");
    f.ffmpeg = false;
    f.models = strings(&["gemma4:e2b"]);
    let list = doctor_checks(&f);
    assert_eq!(doctor_line(&list[1]), "[ok  ] llm-model    gemma4:e2b present (mlx build recommended)");
    assert_eq!(doctor_line(&list[3]), "[FAIL] ffmpeg       missing — install ffmpeg");
    assert_eq!(doctor_verdict(&list).unwrap_err(), "ffmpeg is required for audio output");
}

// ---------- The speech server behind a port ----------

#[test]
fn health_is_asked_and_recognized() {
    assert_eq!(SIDECAR_BASE.strip_prefix("http://"), Some(SIDECAR_AUTHORITY));
    assert_eq!(
        health_request(),
        "GET /health HTTP/1.0\r\nHost: 127.0.0.1:8765\r\nConnection: close\r\n\r\n"
    );
    assert!(is_healthy("HTTP/1.1 200 OK\r\n\r\n{\"status\":\"ok\"}"));
    assert!(!is_healthy("HTTP/1.1 500 X\r\n\r\n{\"status\":\"ok\"}"));
    assert!(!is_healthy("HTTP/1.1 200 OK\r\n\r\nhello"));
    assert!(!is_healthy("HTTP/2 200 OK \"status\" \"ok\""));
    assert!(!is_healthy(""));
}

#[test]
fn the_speech_server_is_launched_only_if_needed() {
    let mut s = Surroundings {
        running: true,
        directory: Some("d".to_string()),
        has_uv: true,
        venv_python: Some("py".to_string()),
        has_python312: true,
    };
    assert!(matches!(plan_sidecar(&s), Launch::Reuse));
    s.running = false;
    let started = |s: &Surroundings| match plan_sidecar(s) {
        Launch::Start(p, a, d) => (p, a.join(" "), d),
        other => panic!("{other:?}"),
    };
    let expect = |p: &str, a: &str| (p.to_string(), a.to_string(), "d".to_string());
    assert_eq!(started(&s), expect("uv", "run kokoro_server.py --warm"));
    s.has_uv = false;
    assert_eq!(started(&s), expect("py", "kokoro_server.py --warm"));
    s.venv_python = None;
    assert_eq!(started(&s), expect("python3.12", "kokoro_server.py --warm"));
    s.has_python312 = false;
    assert_eq!(started(&s), expect("python3", "kokoro_server.py --warm"));
    s.directory = None;
    assert!(matches!(plan_sidecar(&s), Launch::NotFound));
}

#[test]
fn waiting_ends_with_health_or_time() {
    assert_eq!(poll_health(true, true).unwrap(), true);
    assert_eq!(poll_health(false, false).unwrap(), false);
    assert_eq!(
        poll_health(false, true).unwrap_err().message(),
        "Kokoro sidecar error: Kokoro sidecar did not become ready in time"
    );
    assert_eq!(tts_failure("x").message(), "Kokoro sidecar error: /tts failed: x");
}
