//! Scanned pages: which pages have no text of their own, and what the model
//! that reads them is asked.
use crate::chars;
use crate::chars::CharClass;
use crate::error::{AppError, AppResult};
use crate::model;
use crate::text;
use crate::text::{append_str, chars_of, counted, found_from, has, string_of, trimmed};
use base64::Engine;
use image::ImageEncoder;
use vstd::prelude::*;
use vstd::slice::slice_subrange;

verus! {

/// The model that reads scanned pages, unless another is configured.
pub const DEFAULT_OCR_MODEL: &'static str = "glm-ocr:q8_0";

/// A page with fewer characters than this, whitespace not counted, has no
/// usable text.
pub const EMPTY_PAGE_CHAR_THRESHOLD: usize = 20;

/// The model to use: the configured one, or the default.
pub fn model(configured: Option<&str>) -> (r: String)
    ensures
        r@ == match configured {
            Some(m) => m@,
            None => DEFAULT_OCR_MODEL@,
        },
{
    match configured {
        Some(m) => m.to_owned(),
        None => DEFAULT_OCR_MODEL.to_owned(),
    }
}

/// The page has too few characters for a text of its own.
pub open spec fn sparse_page(page: Seq<char>) -> bool {
    text::count(page, CharClass::NotWhite) < EMPTY_PAGE_CHAR_THRESHOLD
}

/// Is the text of a page too sparse to be a real text layer?
pub fn is_empty_page(page: &str) -> (r: bool)
    ensures
        r == sparse_page(page@),
{
    counted(chars_of(page).as_slice(), CharClass::NotWhite) < EMPTY_PAGE_CHAR_THRESHOLD
}

/// The places of the sparse pages, counted from zero.
pub open spec fn sparse_pages(pages: Seq<Seq<char>>) -> Seq<int>
    decreases pages.len(),
{
    if pages.len() == 0 {
        seq![]
    } else if sparse_page(pages.last()) {
        sparse_pages(pages.drop_last()).push(pages.len() - 1)
    } else {
        sparse_pages(pages.drop_last())
    }
}

/// The pages whose text layer is empty or nearly so, counted from zero.
pub fn empty_page_indices(pages: &[String]) -> (r: Vec<usize>)
    ensures
        r@.map_values(|i: usize| i as int) == sparse_pages(text::texts(pages@)),
{
    let ghost ps = text::texts(pages@);
    let mut out: Vec<usize> = Vec::new();
    proof {
        assert(out@.map_values(|i: usize| i as int) =~= seq![]);
    }
    for i in 0..pages.len()
        invariant
            ps == text::texts(pages@),
            out@.map_values(|i: usize| i as int) == sparse_pages(ps.take(i as int)),
    {
        proof {
            assert(ps.take(i + 1).drop_last() =~= ps.take(i as int));
            assert(ps.take(i + 1).last() == pages@[i as int]@);
            assert(out@.push(i).map_values(|i: usize| i as int) =~= out@.map_values(
                |i: usize| i as int,
            ).push(i as int));
        }
        if is_empty_page(pages[i].as_str()) {
            out.push(i);
        }
    }
    assert(ps.take(ps.len() as int) =~= ps);
    out
}

/// The places that are found are those of the sparse pages, in order.
pub proof fn sparse_pages_are_found(pages: Seq<Seq<char>>, i: int)
    ensures
        sparse_pages(pages).contains(i) <==> 0 <= i < pages.len() && sparse_page(pages[i]),
        forall|j: int, k: int|
            0 <= j < k < sparse_pages(pages).len() ==> #[trigger] sparse_pages(pages)[j]
                < #[trigger] sparse_pages(pages)[k],
        forall|j: int|
            0 <= j < sparse_pages(pages).len() ==> 0 <= #[trigger] sparse_pages(pages)[j]
                < pages.len(),
    decreases pages.len(),
{
    if pages.len() > 0 {
        let front = sparse_pages(pages.drop_last());
        let n = pages.len() - 1;
        sparse_pages_are_found(pages.drop_last(), i);
        if 0 <= i < n {
            assert(pages.drop_last()[i] == pages[i]);
        }
        if sparse_page(pages.last()) {
            let all = front.push(n);
            if front.contains(i) {
                let j = front.index_of(i);
                assert(all[j] == i);
            }
            assert(all[front.len() as int] == n);
            if all.contains(i) && i != n {
                let j = all.index_of(i);
                assert(front[j] == i);
            }
        } else if i == n {
            if front.contains(i) {
                let j = front.index_of(i);
                assert(front[j] == i);
            }
        }
    }
}

/// The name of a model without its tag.
pub open spec fn family(name: Seq<char>) -> Seq<char> {
    match text::find(name, seq![':']) {
        Some(i) => name.take(i),
        None => name,
    }
}

/// Does the listing of the installed models name this one, with or without its
/// tag?
pub fn is_listed(listing: &str, name: &str) -> (r: bool)
    ensures
        r == (text::contains(listing@, name@) || text::contains(listing@, family(name@))),
{
    let body = chars_of(listing);
    let whole = chars_of(name);
    let mut colon: Vec<char> = Vec::new();
    colon.push(':');
    proof {
        assert(colon@ =~= seq![':']);
        assert(whole@.skip(0) =~= whole@);
    }
    let short: &[char] = match found_from(whole.as_slice(), colon.as_slice(), 0) {
        Some(i) => {
            proof {
                assert(whole@.subrange(0, i as int) =~= whole@.take(i as int));
            }
            slice_subrange(whole.as_slice(), 0, i)
        },
        None => whole.as_slice(),
    };
    has(body.as_slice(), whole.as_slice()) || has(body.as_slice(), short)
}

/// The symbol of a value under 64 in the standard base64 alphabet.
pub open spec fn symbol(v: int) -> char {
    if v < 26 {
        ('A' as int + v) as char
    } else if v < 52 {
        ('a' as int + (v - 26)) as char
    } else if v < 62 {
        ('0' as int + (v - 52)) as char
    } else if v == 62 {
        '+'
    } else {
        '/'
    }
}

/// The standard base64 text of some bytes: four symbols of six bits for each
/// three bytes, the last group filled up with padding.
pub open spec fn base64_text(b: Seq<u8>) -> Seq<char>
    decreases b.len(),
{
    if b.len() == 0 {
        seq![]
    } else if b.len() == 1 {
        seq![symbol(b[0] as int / 4), symbol(b[0] as int % 4 * 16), '=', '=']
    } else if b.len() == 2 {
        seq![
            symbol(b[0] as int / 4),
            symbol(b[0] as int % 4 * 16 + b[1] as int / 16),
            symbol(b[1] as int % 16 * 4),
            '=',
        ]
    } else {
        seq![
            symbol(b[0] as int / 4),
            symbol(b[0] as int % 4 * 16 + b[1] as int / 16),
            symbol(b[1] as int % 16 * 4 + b[2] as int / 64),
            symbol(b[2] as int % 64),
        ] + base64_text(b.skip(3))
    }
}

/// `base64::Engine::encode` of `base64::engine::general_purpose::STANDARD`: the
/// text is that of the standard alphabet with padding. A text that memory could
/// not hold is left out.
#[verifier::external_body]
fn encode_base64(bytes: &[u8]) -> (r: String)
    requires
        (bytes@.len() + 2) / 3 * 4 <= isize::MAX,
    ensures
        r@ == base64_text(bytes@),
{
    base64::engine::general_purpose::STANDARD.encode(bytes)
}

/// The PNG file of an image of red, green and blue bytes, or why there is none.
pub uninterp spec fn png(width: u32, height: u32, pixels: Seq<u8>) -> Result<Seq<u8>, Seq<char>>;

/// An encoded image, or the reason against it, as plain values.
pub open spec fn encoded(r: Result<Vec<u8>, String>) -> Result<Seq<u8>, Seq<char>> {
    match r {
        Ok(bytes) => Ok(bytes@),
        Err(reason) => Err(reason@),
    }
}

/// `image::codecs::png::PngEncoder::write_image` into memory, for three bytes to
/// a pixel: the file, or the reason against it, depends on the size and the
/// pixels alone. The function panics on a buffer of another length.
#[verifier::external_body]
fn encode_png(width: u32, height: u32, pixels: &[u8]) -> (r: Result<Vec<u8>, String>)
    requires
        pixels@.len() == 3 * width * height,
    ensures
        encoded(r) == png(width, height, pixels@),
{
    let mut out: Vec<u8> = Vec::new();
    let kind = image::ExtendedColorType::Rgb8;
    let done = image::codecs::png::PngEncoder::new(&mut out).write_image(pixels, width, height, kind);
    match done {
        Ok(()) => Ok(out),
        Err(e) => Err(e.to_string()),
    }
}

/// What becomes of an encoded image: the bytes, or an error with the reason.
pub fn settle_png(r: Result<Vec<u8>, String>) -> (s: AppResult<Vec<u8>>)
    ensures
        match encoded(r) {
            Ok(bytes) => s matches Ok(v) && v@ == bytes,
            Err(reason) => s matches Err(AppError::Other(m)) && m@ == "encode png: "@ + reason,
        },
{
    match r {
        Ok(bytes) => Ok(bytes),
        Err(reason) => {
            let mut m = chars_of("encode png: ");
            append_str(&mut m, reason.as_str());
            Err(AppError::Other(string_of(m.as_slice())))
        },
    }
}

/// The PNG file of a rendered page, which is given as its size and its red,
/// green and blue bytes.
pub fn page_png(width: u32, height: u32, pixels: &[u8]) -> (r: AppResult<Vec<u8>>)
    requires
        pixels@.len() == 3 * width * height,
    ensures
        match png(width, height, pixels@) {
            Ok(bytes) => r matches Ok(v) && v@ == bytes,
            Err(reason) => r matches Err(AppError::Other(m)) && m@ == "encode png: "@ + reason,
        },
{
    settle_png(encode_png(width, height, pixels))
}

/// A request to read one page. The prompt is what the model is trained on.
#[derive(Debug)]
pub struct OcrRequest {
    pub model: String,
    pub role: String,
    pub content: String,
    pub images: Vec<String>,
    pub stream: bool,
}

/// The request to read a page from its image, or nothing for an image so large
/// that its encoding cannot be held.
pub fn ocr_request(model: &str, image_bytes: &[u8]) -> (r: Option<OcrRequest>)
    ensures
        match r {
            Some(q) => {
                &&& (image_bytes@.len() + 2) / 3 * 4 <= isize::MAX
                &&& q.model@ == model@
                &&& q.role@ == "user"@
                &&& q.content@ == "Text Recognition:"@
                &&& text::texts(q.images@) == seq![base64_text(image_bytes@)]
                &&& !q.stream
            },
            None => (image_bytes@.len() + 2) / 3 * 4 > isize::MAX,
        },
{
    let n: u128 = image_bytes.len() as u128;
    if (n + 2) / 3 * 4 > isize::MAX as u128 {
        return None;
    }
    let mut images: Vec<String> = Vec::new();
    let image = encode_base64(image_bytes);
    images.push(image);
    assert(text::texts(images@) =~= seq![base64_text(image_bytes@)]);
    Some(
        OcrRequest {
            model: model.to_owned(),
            role: "user".to_owned(),
            content: "Text Recognition:".to_owned(),
            images,
            stream: false,
        },
    )
}

/// The text that was read off a page, trimmed.
pub fn recognized(content: &str) -> (r: String)
    ensures
        r@ == text::trim(content@),
{
    let all = chars_of(content);
    string_of(trimmed(all.as_slice()))
}

// ---------- Reading a book ----------

/// The pages to read: the sparse ones, if the model is there to read them.
pub fn pages_to_read(pages: &[String], available: bool) -> (r: Vec<usize>)
    ensures
        r@.map_values(|i: usize| i as int) == if available {
            sparse_pages(text::texts(pages@))
        } else {
            seq![]
        },
{
    if available {
        empty_page_indices(pages)
    } else {
        let none: Vec<usize> = Vec::new();
        assert(none@.map_values(|i: usize| i as int) =~= seq![]);
        none
    }
}

/// A page after it was read: what was read off it, if that is anything, and
/// else what it held before.
pub open spec fn read_page(page: Seq<char>, reading: Option<Seq<char>>) -> Seq<char> {
    match reading {
        Some(t) => if text::trim(t).len() > 0 {
            text::trim(t)
        } else {
            page
        },
        None => page,
    }
}

/// Take one reading into the book: the page at `i` gets the text that was read
/// off it. A page that could not be read stays as it was.
pub fn take_reading(pages: &mut Vec<String>, i: usize, reading: &Option<String>)
    requires
        i < old(pages)@.len(),
    ensures
        text::texts(final(pages)@) == text::texts(old(pages)@).update(
            i as int,
            read_page(old(pages)@[i as int]@, model::optional(*reading)),
        ),
{
    if let Some(t) = reading {
        let all = chars_of(t.as_str());
        let kept = trimmed(all.as_slice());
        if kept.len() > 0 {
            let page = string_of(kept);
            pages.set(i, page);
        }
    }
    proof {
        let r = model::optional(*reading);
        assert(text::texts(pages@) =~= text::texts(old(pages)@).update(
            i as int,
            read_page(old(pages)@[i as int]@, r),
        ));
    }
}

// ---------- What reading a page is for ----------

proof fn lemma_count_solid(s: Seq<char>)
    ensures
        text::count(s, CharClass::NotWhite) == text::without(s, CharClass::White).len(),
    decreases s.len(),
{
    if s.len() > 0 {
        lemma_count_solid(s.drop_last());
    }
}

/// A page is to be read by the model where fewer than twenty characters are left
/// of it without its whitespace.
pub proof fn sparse_pages_hold_little(page: Seq<char>)
    ensures
        sparse_page(page) <==> text::without(page, CharClass::White).len() < 20,
{
    lemma_count_solid(page);
}

/// The family of a model is its name up to the first colon, or the whole name.
pub proof fn family_is_named_first(name: Seq<char>, tag: Seq<char>)
    requires
        !name.contains(':'),
    ensures
        family(name) == name,
        family(name + ":"@ + tag) == name,
{
    reveal_strlit(":");
    let colon = seq![':'];
    assert(":"@ =~= colon);
    let n = name.len() as int;
    text::lemma_find(name, colon);
    if let Some(i) = text::find(name, colon) {
        assert(name.subrange(i, i + 1)[0] == name[i]);
        assert(name.contains(':'));
    }
    let s = name + ":"@ + tag;
    text::lemma_find(s, colon);
    assert(s.subrange(n, n + 1) =~= colon);
    assert(text::has_at(s, colon, n));
    let k = text::find(s, colon)->0;
    assert(text::has_at(s, colon, k));
    assert(s.subrange(k, k + 1)[0] == s[k]);
    if k < n {
        assert(name[k] == ':');
    }
    assert(s.take(n) =~= name);
}

/// A reading takes the place of the page, trimmed, where it holds anything; a
/// blank one, or none, leaves the page as it was.
pub proof fn readings_replace_pages(page: Seq<char>, reading: Seq<char>)
    ensures
        read_page(page, None) == page,
        (exists|k: int| 0 <= k < reading.len() && !chars::white(#[trigger] reading[k]))
            ==> read_page(page, Some(reading)) == text::trim(reading) && text::without(
            read_page(page, Some(reading)),
            CharClass::White,
        ) == text::without(reading, CharClass::White),
        (forall|k: int| 0 <= k < reading.len() ==> chars::white(#[trigger] reading[k]))
            ==> read_page(page, Some(reading)) == page,
{
    text::lemma_trim_blank(reading);
    text::lemma_without_trim(reading, CharClass::White);
}

/// The value of a character of the encoding.
pub open spec fn sextet(c: char) -> int {
    if 'A' <= c <= 'Z' {
        c as int - 'A' as int
    } else if 'a' <= c <= 'z' {
        c as int - 'a' as int + 26
    } else if '0' <= c <= '9' {
        c as int - '0' as int + 52
    } else if c == '+' {
        62
    } else {
        63
    }
}

/// The bytes that four characters at a time stand for.
pub open spec fn decoded(s: Seq<char>) -> Seq<u8>
    decreases s.len(),
{
    if s.len() < 4 {
        seq![]
    } else {
        let a = (sextet(s[0]) * 4 + sextet(s[1]) / 16) as u8;
        let b = (sextet(s[1]) % 16 * 16 + sextet(s[2]) / 4) as u8;
        let c = (sextet(s[2]) % 4 * 64 + sextet(s[3])) as u8;
        if s[2] == '=' {
            seq![a]
        } else if s[3] == '=' {
            seq![a, b]
        } else {
            seq![a, b, c] + decoded(s.skip(4))
        }
    }
}

proof fn lemma_sextet(v: int)
    requires
        0 <= v < 64,
    ensures
        sextet(symbol(v)) == v,
        symbol(v) != '=',
{
}

/// An encoded image can be decoded again, and takes four characters for every
/// three bytes that are begun.
pub proof fn encoding_reads_back(b: Seq<u8>)
    ensures
        decoded(base64_text(b)) == b,
        base64_text(b).len() == (b.len() + 2) / 3 * 4,
    decreases b.len(),
{
    let t = base64_text(b);
    reveal_with_fuel(decoded, 2);
    if b.len() > 0 {
        let x = b[0] as int;
        lemma_sextet(x / 4);
        if b.len() == 1 {
            lemma_sextet(x % 4 * 16);
            assert(decoded(t) =~= b);
        } else {
            let y = b[1] as int;
            lemma_sextet(x % 4 * 16 + y / 16);
            if b.len() == 2 {
                lemma_sextet(y % 16 * 4);
                assert(decoded(t) =~= b);
            } else {
                let z = b[2] as int;
                lemma_sextet(y % 16 * 4 + z / 64);
                lemma_sextet(z % 64);
                encoding_reads_back(b.skip(3));
                assert(t.skip(4) =~= base64_text(b.skip(3)));
                assert(decoded(t) =~= b);
            }
        }
    }
}

} // verus!
