use audiobook_studio::error::AppError;
use audiobook_studio::ocr::{
    empty_page_indices, is_empty_page, is_listed, model, ocr_request, page_png, pages_to_read,
    recognized, settle_png, take_reading, DEFAULT_OCR_MODEL, EMPTY_PAGE_CHAR_THRESHOLD,
};

#[test]
fn empty_page_detection() {
    assert!(is_empty_page(""));
    assert!(is_empty_page("   \n  \n "));
    assert!(is_empty_page("12")); // bare folio on a scanned page
    assert!(is_empty_page("  page  3  ")); // 6 non-ws chars < 20
    assert!(!is_empty_page(
        "This page has a genuine and sufficiently long text layer."
    ));
}

#[test]
fn empty_indices_selects_only_sparse_pages() {
    let pages = vec![
        "Real prose with plenty of extractable characters here.".to_string(),
        "".to_string(),
        "7".to_string(),
        "Another solid page of actual text content for the reader.".to_string(),
    ];
    assert_eq!(empty_page_indices(&pages), vec![1, 2]);
}


#[test]
fn model_default_and_override() {
    assert_eq!(model(None), DEFAULT_OCR_MODEL);
    assert_eq!(model(Some("other:1b")), "other:1b");
    assert_eq!(DEFAULT_OCR_MODEL, "glm-ocr:q8_0");
}

#[test]
fn twenty_characters_are_a_text() {
    assert_eq!(EMPTY_PAGE_CHAR_THRESHOLD, 20);
    assert!(is_empty_page(&"a ".repeat(19)));
    assert!(!is_empty_page(&"é ".repeat(20)));
}

#[test]
fn a_model_is_listed_with_or_without_its_tag() {
    assert!(is_listed("[\"glm-ocr:q8_0\"]", "glm-ocr:q8_0"));
    assert!(is_listed("[\"glm-ocr:latest\"]", "glm-ocr:q8_0"));
    assert!(!is_listed("[\"gemma\"]", "glm-ocr:q8_0"));
    assert!(is_listed("x plain y", "plain"));
}

#[test]
fn an_image_is_sent_in_base64() {
    let q = ocr_request("m", b"Man").unwrap();
    assert_eq!(q.images, vec!["TWFu"]);
    assert_eq!((q.model.as_str(), q.role.as_str(), q.content.as_str(), q.stream), ("m", "user", "Text Recognition:", false));
    assert_eq!(ocr_request("m", b"Ma").unwrap().images, vec!["TWE="]);
    assert_eq!(ocr_request("m", b"M").unwrap().images, vec!["TQ=="]);
    assert_eq!(ocr_request("m", b"").unwrap().images, vec![""]);
    assert_eq!(ocr_request("m", &[0xfb, 0xff, 0xfe, 0x00]).unwrap().images, vec!["+//+AA=="]);
}

#[test]
fn readings_are_trimmed() {
    assert_eq!(recognized("  text\n"), "text");
}

#[test]
fn sparse_pages_are_read_if_the_model_is_there() {
    let pages = vec!["7".to_string(), "A page with quite enough characters.".to_string()];
    assert_eq!(pages_to_read(&pages, true), vec![0]);
    assert!(pages_to_read(&pages, false).is_empty());
}

#[test]
fn a_page_that_could_not_be_read_stays() {
    let mut pages = vec!["7".to_string(), "8".to_string()];
    take_reading(&mut pages, 0, &Some("  Read off.  ".to_string()));
    assert_eq!(pages, vec!["Read off.", "8"]);
    take_reading(&mut pages, 1, &None);
    take_reading(&mut pages, 1, &Some(" \n".to_string()));
    assert_eq!(pages, vec!["Read off.", "8"]);
}

#[test]
fn a_rendered_page_becomes_a_png() {
    let pixels: Vec<u8> = (0..18).map(|i| i * 14).collect();
    let png = page_png(3, 2, &pixels).unwrap();
    assert_eq!(&png[..8], b"\x89PNG\r\n\x1a\n");
    let image = image::load_from_memory(&png).unwrap().into_rgb8();
    assert_eq!(image.dimensions(), (3, 2));
    assert_eq!(image.into_raw(), pixels);
    assert_eq!(page_png(3, 2, &pixels).unwrap(), png);
}

#[test]
fn an_image_without_pixels_has_no_png() {
    for (width, height) in [(0, 0), (0, 5), (5, 0)] {
        match page_png(width, height, &[]) {
            Err(AppError::Other(m)) => assert!(m.starts_with("encode png: "), "{m}"),
            other => panic!("{other:?}"),
        }
    }
}

#[test]
fn an_encoded_image_is_settled() {
    assert_eq!(settle_png(Ok(vec![1, 2])).unwrap(), vec![1, 2]);
    let e = settle_png(Err("no room".to_string())).unwrap_err();
    assert_eq!(e.message(), "encode png: no room");
}
