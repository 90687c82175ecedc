use audiobook_studio::agent::{
    boundary_prompt, boundary_request, build_candidates, chat_url, headings_too_sparse,
    polish_request, settle_detection, settle_reply, tags_url, POLISH_SYSTEM, SYSTEM,
};
use audiobook_studio::boundaries::{
    extract_json_object, json_part, parse_error, select_boundaries,
};
use audiobook_studio::error::AppError;
use audiobook_studio::model::{Boundary, OutlineItem};
use audiobook_studio::webview;

fn boundary(title: &str, start_page: usize) -> Boundary {
    Boundary { title: title.to_string(), start_page }
}

fn item(level: usize, title: &str, page: usize) -> OutlineItem {
    OutlineItem { level, title: title.to_string(), page }
}

#[test]
fn build_candidates_adds_page_openings_when_headings_sparse() {
    // A 19-page book with a single detected heading:
    // page openings must be offered as a safety net so the LLM can divide.
    let headings = vec![(14, "Conclusion".to_string())];
    let page_heads: Vec<(usize, String)> =
        (1..=19).map(|i| (i, format!("opening line {i}"))).collect();
    let s = build_candidates(&[], &headings, &page_heads);
    assert!(
        s.contains("PAGE OPENINGS"),
        "sparse headings should trigger page-openings fallback:\n{s}"
    );
    // Strong heading list (>= one per ~12 pages) should NOT need the fallback.
    let strong: Vec<(usize, String)> =
        (1..=6).map(|i| (i * 3, format!("CHAPTER {i}"))).collect();
    let s2 = build_candidates(&[], &strong, &page_heads);
    assert!(
        !s2.contains("PAGE OPENINGS"),
        "strong heading list should not add page openings:\n{s2}"
    );
}

#[test]
fn candidates_list_every_signal() {
    let outline = vec![item(0, "Intro", 1)];
    let headings = vec![(3, "Chapter 1".to_string())];
    let openings = vec![(1, "Title".to_string()), (2, "".to_string())];
    assert_eq!(
        build_candidates(&outline, &headings, &openings),
        "PDF OUTLINE (level: title @ page):\n0: Intro @ 1\n\
         \nDETECTED HEADING LINES (page: text):\n3: Chapter 1\n\
         \nPAGE OPENINGS (page: first line):\n1: Title\n2: \n"
    );
    let outline = vec![item(0, "Intro", 1), item(1, "One", 23)];
    assert_eq!(
        build_candidates(&outline, &[], &openings),
        "PDF OUTLINE (level: title @ page):\n0: Intro @ 1\n1: One @ 23\n"
    );
    assert_eq!(build_candidates(&[], &[], &[]), "");
}

#[test]
fn the_simpler_candidates_hold_one_signal() {
    let openings = vec![(12, "Title".to_string())];
    assert_eq!(
        webview::build_candidates(&[item(2, "One", 7)], &openings),
        "PDF OUTLINE (level: title @ page):\n2: One @ 7\n"
    );
    assert_eq!(
        webview::build_candidates(&[], &openings),
        "PAGE OPENINGS (page: first line):\n12: Title\n"
    );
}

#[test]
fn one_heading_in_twelve_pages_is_enough() {
    let heads = |n: usize| vec![(1, "h".to_string()); n];
    assert!(headings_too_sparse(&heads(1), 5));
    assert!(!headings_too_sparse(&heads(2), 35));
    assert!(headings_too_sparse(&heads(2), 36));
    assert!(!headings_too_sparse(&heads(3), 36));
}

#[test]
fn the_prompt_asks_for_json() {
    assert_eq!(
        boundary_prompt("C"),
        "C\n\nReturn the chapter boundaries as STRICT JSON now."
    );
}

#[test]
fn requests_carry_both_messages() {
    let r = boundary_request("m", "p");
    assert_eq!((r.model.as_str(), r.format.as_str(), r.stream), ("m", "json", false));
    assert_eq!(r.messages.len(), 2);
    assert_eq!(r.messages[0].role, "system");
    assert_eq!(r.messages[0].content, SYSTEM);
    assert_eq!((r.messages[1].role.as_str(), r.messages[1].content.as_str()), ("user", "p"));
    let r = polish_request("m", "chunk");
    assert_eq!(r.format, "");
    assert_eq!(r.messages[0].content, POLISH_SYSTEM);
    assert_eq!(r.messages[1].content, "chunk");
    assert!(SYSTEM.contains("{\"chapters\":[{\"title\":\"...\",\"start_page\":N}, ...]}"));
    assert!(POLISH_SYSTEM.contains("'exam-\\nple'"));
}

#[test]
fn addresses_lose_their_last_slashes() {
    assert_eq!(chat_url(None), "http://localhost:11434/api/chat");
    assert_eq!(chat_url(Some("http://host:1//")), "http://host:1/api/chat");
    assert_eq!(tags_url(Some("http://host:1")), "http://host:1/api/tags");
}

#[test]
fn the_object_is_found_in_talk() {
    let obj = r#"{"a": "}\\\"{", "b": {"c": 1}}"#;
    assert_eq!(extract_json_object(obj).as_deref(), Some(obj));
    let chatty = format!("Sure! \"Here\" it is: {obj} Anything {{else}}?");
    assert_eq!(extract_json_object(&chatty).as_deref(), Some(obj));
    assert_eq!(extract_json_object("no object"), None);
    assert_eq!(extract_json_object("{ open"), None);
    assert_eq!(extract_json_object("{\"open: }"), None);
    assert_eq!(extract_json_object("é{ü}ß").as_deref(), Some("{ü}"));
}

#[test]
fn a_reply_without_an_object_is_an_error() {
    assert_eq!(json_part("x {1} y").unwrap(), "{1}");
    let long = "é".repeat(300);
    match json_part(&long) {
        Err(AppError::Llm(m)) => {
            assert_eq!(m, format!("no JSON object in LLM output: {}", "é".repeat(200)))
        }
        other => panic!("{other:?}"),
    }
    match parse_error("bad", "{1}") {
        AppError::Llm(m) => assert_eq!(m, "parse boundaries: bad; raw={1}"),
        other => panic!("{other:?}"),
    }
}

#[test]
fn usable_boundaries_are_kept_in_order() {
    let got = select_boundaries(&[
        boundary("C", 9),
        boundary("zero", 0),
        boundary("A", 2),
        boundary("  ", 3),
        boundary("A again", 2),
        boundary("B", 4),
    ]);
    let got: Vec<(String, usize)> = got.into_iter().map(|b| (b.title, b.start_page)).collect();
    assert_eq!(
        got,
        vec![("A".to_string(), 2), ("B".to_string(), 4), ("C".to_string(), 9)]
    );
    assert!(select_boundaries(&[]).is_empty());
}

#[test]
fn an_empty_or_failed_answer_asks_again() {
    assert!(settle_detection(Ok(vec![])).is_none());
    assert!(settle_detection(Err(AppError::Llm("x".into()))).is_none());
    assert_eq!(settle_detection(Ok(vec![boundary("A", 1)])).unwrap().len(), 1);
    assert_eq!(settle_reply(Ok(" text \n".into())).as_deref(), Some("text"));
    assert_eq!(settle_reply(Ok(" \n".into())), None);
    assert_eq!(settle_reply(Err(AppError::Other("x".into()))), None);
}
