//! What the language model is asked: candidates for chapter starts, requests
//! to the chat endpoint, and when a second endpoint is tried.
use crate::error::AppResult;
use crate::model::{Boundary, OutlineItem, OutlineItemView};
use crate::model;
use crate::headings;
use crate::chars::CharClass;
use crate::text;
use crate::text::{
    append_decimal, append_str, chars_of, copied, string_of, trimmed, trimmed_back,
};
use vstd::prelude::*;

verus! {

/// What the model is told before it is asked for chapter boundaries.
pub const SYSTEM: &'static str = "You are a meticulous book-structure analyst. \
Given a list of candidate headings with their page numbers from a book PDF, \
identify the real top-level sections a listener would want as audiobook chapters: \
front matter (Introduction/Preface), each numbered Chapter, and back matter \
(Conclusion/Epilogue). Ignore sub-headings, figure captions, running headers, \
and bibliography sections. Return STRICT JSON only — no prose, no markdown — \
matching: {\"chapters\":[{\"title\":\"...\",\"start_page\":N}, ...]}. \
Titles must be clean and human-readable. Order by start_page ascending.";

/// What the model is told before it is given a chunk to repair.
pub const POLISH_SYSTEM: &'static str = "You repair character-level extraction glitches in a \
book passage so it reads aloud cleanly in text-to-speech. You will receive prose \
extracted from a PDF. You make ONLY mechanical character fixes — you are NOT an \
editor. \
WHAT TO FIX: \
(1) Broken ligatures and mojibake: e.g. 'ﬁ'->'fi', 'ﬂ'->'fl', garbled accented \
letters, stray control characters, and obvious OCR letter errors (e.g. 'rn'->'m' \
only when unmistakable). \
(2) Words split by a hyphen across a line break: rejoin them (e.g. 'exam-\\nple' \
-> 'example'). \
(3) Spacing only: collapse doubled spaces and insert a missing space between two \
run-together words. \
ABSOLUTE RULES — violating any means failure: \
(A) PRESERVE EVERY WORD and the sentence order exactly. Do NOT rewrite, \
paraphrase, summarize, translate, shorten, or add words. \
(B) PRESERVE ALL PUNCTUATION EXACTLY — every period, comma, colon, semicolon, \
question mark, exclamation mark, quote, and apostrophe must remain. NEVER remove \
or add sentence punctuation. \
(C) Do NOT delete lines, headings, or any content. Removal of artifacts is \
handled elsewhere — your job is only character repair. \
(D) If the passage has no character glitches, return it completely UNCHANGED. \
Return ONLY the repaired prose as plain text — no preamble, commentary, markdown, \
or surrounding quotes.";

// ---------- Candidates ----------

/// The lines for the entries of an outline.
pub open spec fn outline_lines(items: Seq<OutlineItemView>) -> Seq<char>
    decreases items.len(),
{
    if items.len() == 0 {
        seq![]
    } else {
        let it = items.last();
        outline_lines(items.drop_last()) + text::decimal(it.level as nat) + ": "@ + it.title
            + " @ "@ + text::decimal(it.page as nat) + "\n"@
    }
}

/// The lines for texts with their page numbers.
pub open spec fn page_lines(list: Seq<(int, Seq<char>)>) -> Seq<char>
    decreases list.len(),
{
    if list.len() == 0 {
        seq![]
    } else {
        let h = list.last();
        page_lines(list.drop_last()) + text::decimal(h.0 as nat) + ": "@ + h.1 + "\n"@
    }
}

/// The headings are too few for the chapters of a book of this length: under
/// two, or under one in twelve pages.
pub open spec fn sparse(headings: nat, pages: nat) -> bool {
    headings < 2 || headings < pages / 12
}

/// The outline part of the candidates.
pub open spec fn outline_part(items: Seq<OutlineItemView>) -> Seq<char> {
    if items.len() == 0 {
        seq![]
    } else {
        "PDF OUTLINE (level: title @ page):\n"@ + outline_lines(items)
    }
}

/// The headings part of the candidates.
pub open spec fn headings_part(list: Seq<(int, Seq<char>)>) -> Seq<char> {
    if list.len() == 0 {
        seq![]
    } else {
        "\nDETECTED HEADING LINES (page: text):\n"@ + page_lines(list)
    }
}

/// The page openings part of the candidates.
pub open spec fn openings_part(list: Seq<(int, Seq<char>)>) -> Seq<char> {
    if list.len() == 0 {
        seq![]
    } else {
        "\nPAGE OPENINGS (page: first line):\n"@ + page_lines(list)
    }
}

/// The candidates: outline and headings as far as there are any, and the page
/// openings where both are weak.
pub open spec fn candidates(
    items: Seq<OutlineItemView>,
    found: Seq<(int, Seq<char>)>,
    openings: Seq<(int, Seq<char>)>,
) -> Seq<char> {
    let strong = outline_part(items) + headings_part(found);
    if items.len() < 2 && sparse(found.len(), openings.len()) {
        strong + openings_part(openings)
    } else {
        strong
    }
}

/// Are the detected headings too few to be the chapters of a book of this
/// length?
pub fn headings_too_sparse(headings: &[(usize, String)], page_count: usize) -> (r: bool)
    ensures
        r == sparse(headings@.len(), page_count as nat),
{
    headings.len() < 2 || headings.len() < page_count / 12
}

/// Append the lines for the entries of an outline.
pub fn append_outline_lines(out: &mut Vec<char>, outline: &[OutlineItem])
    ensures
        final(out)@ == old(out)@ + outline_lines(model::outline_items(outline@)),
{
    let ghost before = out@;
    let ghost os = model::outline_items(outline@);
    proof {
        assert(before + outline_lines(os.take(0)) =~= before);
    }
    for i in 0..outline.len()
        invariant
            os == model::outline_items(outline@),
            out@ == before + outline_lines(os.take(i as int)),
    {
        let it: &OutlineItem = &outline[i];
        append_decimal(out, it.level as u64);
        append_str(out, ": ");
        append_str(out, it.title.as_str());
        append_str(out, " @ ");
        append_decimal(out, it.page as u64);
        append_str(out, "\n");
        proof {
            assert(os.take(i + 1).drop_last() =~= os.take(i as int));
            assert(os.take(i + 1).last() == it@);
            assert(out@ =~= before + outline_lines(os.take(i + 1)));
        }
    }
    assert(os.take(os.len() as int) =~= os);
}

/// Append the lines for texts with their page numbers.
pub fn append_page_lines(out: &mut Vec<char>, list: &[(usize, String)])
    ensures
        final(out)@ == old(out)@ + page_lines(headings::entries(list@)),
{
    let ghost before = out@;
    let ghost es = headings::entries(list@);
    proof {
        assert(before + page_lines(es.take(0)) =~= before);
    }
    for i in 0..list.len()
        invariant
            es == headings::entries(list@),
            out@ == before + page_lines(es.take(i as int)),
    {
        append_decimal(out, list[i].0 as u64);
        append_str(out, ": ");
        append_str(out, list[i].1.as_str());
        append_str(out, "\n");
        proof {
            assert(es.take(i + 1).drop_last() =~= es.take(i as int));
            assert(es.take(i + 1).last() == (list@[i as int].0 as int, list@[i as int].1@));
            assert(out@ =~= before + page_lines(es.take(i + 1)));
        }
    }
    assert(es.take(es.len() as int) =~= es);
}

/// Build the candidates the model reasons over: the embedded outline, the
/// detected headings, and, only if neither is informative, the first line of
/// each page.
pub fn build_candidates(
    outline: &[OutlineItem],
    headings: &[(usize, String)],
    page_heads: &[(usize, String)],
) -> (r: String)
    ensures
        r@ == candidates(
            model::outline_items(outline@),
            headings::entries(headings@),
            headings::entries(page_heads@),
        ),
{
    let mut out: Vec<char> = Vec::new();
    if outline.len() > 0 {
        append_str(&mut out, "PDF OUTLINE (level: title @ page):\n");
        append_outline_lines(&mut out, outline);
    }
    assert(out@ =~= outline_part(model::outline_items(outline@)));
    if headings.len() > 0 {
        append_str(&mut out, "\nDETECTED HEADING LINES (page: text):\n");
        append_page_lines(&mut out, headings);
    }
    assert(out@ =~= outline_part(model::outline_items(outline@)) + headings_part(
        headings::entries(headings@),
    ));
    if outline.len() < 2 && headings_too_sparse(headings, page_heads.len()) {
        let ghost strong = out@;
        if page_heads.len() > 0 {
            append_str(&mut out, "\nPAGE OPENINGS (page: first line):\n");
            append_page_lines(&mut out, page_heads);
        }
        assert(out@ =~= strong + openings_part(headings::entries(page_heads@)));
    }
    string_of(out.as_slice())
}

/// The question itself.
pub fn boundary_prompt(candidates: &str) -> (r: String)
    ensures
        r@ == candidates@ + "\n\nReturn the chapter boundaries as STRICT JSON now."@,
{
    let mut out = chars_of(candidates);
    append_str(&mut out, "\n\nReturn the chapter boundaries as STRICT JSON now.");
    string_of(out.as_slice())
}

// ---------- Requests ----------

/// A message of a chat.
#[derive(Debug)]
pub struct ChatMessage {
    pub role: String,
    pub content: String,
}

/// A request to the chat endpoint. An empty format asks for plain prose.
#[derive(Debug)]
pub struct ChatRequest {
    pub model: String,
    pub messages: Vec<ChatMessage>,
    pub stream: bool,
    pub format: String,
}

/// The request holds these two messages.
pub open spec fn asks(
    r: ChatRequest,
    model: Seq<char>,
    system: Seq<char>,
    user: Seq<char>,
    format: Seq<char>,
) -> bool {
    &&& r.model@ == model
    &&& !r.stream
    &&& r.format@ == format
    &&& r.messages@.len() == 2
    &&& r.messages@[0].role@ == "system"@
    &&& r.messages@[0].content@ == system
    &&& r.messages@[1].role@ == "user"@
    &&& r.messages@[1].content@ == user
}

fn chat_request(model: &str, system: &str, user: &str, format: &str) -> (r: ChatRequest)
    ensures
        asks(r, model@, system@, user@, format@),
{
    let mut messages: Vec<ChatMessage> = Vec::new();
    messages.push(ChatMessage { role: "system".to_owned(), content: system.to_owned() });
    messages.push(ChatMessage { role: "user".to_owned(), content: user.to_owned() });
    ChatRequest { model: model.to_owned(), messages, stream: false, format: format.to_owned() }
}

/// The request for chapter boundaries.
pub fn boundary_request(model: &str, prompt: &str) -> (r: ChatRequest)
    ensures
        asks(r, model@, SYSTEM@, prompt@, "json"@),
{
    chat_request(model, SYSTEM, prompt, "json")
}

/// The request to polish a chunk.
pub fn polish_request(model: &str, chunk: &str) -> (r: ChatRequest)
    ensures
        asks(r, model@, POLISH_SYSTEM@, chunk@, ""@),
{
    chat_request(model, POLISH_SYSTEM, chunk, "")
}

/// The address of a server without slashes at its end, and the path.
pub open spec fn endpoint(base: Option<Seq<char>>, path: Seq<char>) -> Seq<char> {
    let host = match base {
        Some(b) => b,
        None => "http://localhost:11434"@,
    };
    text::trim_back(host, CharClass::Slash) + path
}

fn endpoint_of(base: Option<&str>, path: &str) -> (r: String)
    ensures
        r@ == endpoint(
            match base {
                Some(b) => Some(b@),
                None => None,
            },
            path@,
        ),
{
    let host = chars_of(
        match base {
            Some(b) => b,
            None => "http://localhost:11434",
        },
    );
    let mut out = copied(trimmed_back(host.as_slice(), CharClass::Slash));
    append_str(&mut out, path);
    string_of(out.as_slice())
}

/// The address of the chat endpoint, on the configured host or else on this
/// machine.
pub fn chat_url(base: Option<&str>) -> (r: String)
    ensures
        r@ == endpoint(
            match base {
                Some(b) => Some(b@),
                None => None,
            },
            "/api/chat"@,
        ),
{
    endpoint_of(base, "/api/chat")
}

/// The address that lists the installed models.
pub fn tags_url(base: Option<&str>) -> (r: String)
    ensures
        r@ == endpoint(
            match base {
                Some(b) => Some(b@),
                None => None,
            },
            "/api/tags"@,
        ),
{
    endpoint_of(base, "/api/tags")
}

// ---------- Which answer counts ----------

/// What the agent found, if it is worth keeping; nothing asks for a direct
/// request.
pub fn settle_detection(found: AppResult<Vec<Boundary>>) -> (r: Option<Vec<Boundary>>)
    ensures
        match found {
            Ok(b) => if b@.len() > 0 {
                r == Some(b)
            } else {
                r is None
            },
            Err(_) => r is None,
        },
{
    match found {
        Ok(b) => if b.len() > 0 {
            Some(b)
        } else {
            None
        },
        Err(_) => None,
    }
}

/// The agent's reply to a chunk, trimmed, if anything is left of it; nothing
/// asks for a direct request.
pub fn settle_reply(reply: AppResult<String>) -> (r: Option<String>)
    ensures
        match reply {
            Ok(t) => if text::trim(t@).len() > 0 {
                r matches Some(x) && x@ == text::trim(t@)
            } else {
                r is None
            },
            Err(_) => r is None,
        },
{
    match reply {
        Ok(t) => {
            let all = chars_of(t.as_str());
            let kept = trimmed(all.as_slice());
            if kept.len() > 0 {
                Some(string_of(kept))
            } else {
                None
            }
        },
        Err(_) => None,
    }
}

// ---------- What the model is shown ----------

/// The lines of two lists are those of the first and then those of the second.
pub proof fn page_lines_of_joined_lists(a: Seq<(int, Seq<char>)>, b: Seq<(int, Seq<char>)>)
    ensures
        page_lines(a + b) == page_lines(a) + page_lines(b),
    decreases b.len(),
{
    if b.len() == 0 {
        assert(a + b =~= a);
        assert(page_lines(a + b) =~= page_lines(a) + page_lines(b));
    } else {
        page_lines_of_joined_lists(a, b.drop_last());
        assert((a + b).drop_last() =~= a + b.drop_last());
        assert(page_lines(a + b) =~= page_lines(a) + page_lines(b));
    }
}

/// Each entry has a line with its page and its whole text, in its place.
pub proof fn each_entry_has_a_line(list: Seq<(int, Seq<char>)>, i: int)
    requires
        0 <= i < list.len(),
    ensures
        page_lines(list) == page_lines(list.take(i)) + (text::decimal(list[i].0 as nat) + ": "@
            + list[i].1 + "\n"@) + page_lines(list.skip(i + 1)),
{
    let one = seq![list[i]];
    assert(list =~= list.take(i) + one + list.skip(i + 1));
    page_lines_of_joined_lists(list.take(i), one);
    page_lines_of_joined_lists(list.take(i) + one, list.skip(i + 1));
    assert(one.drop_last() =~= seq![]);
    reveal_with_fuel(page_lines, 2);
    assert(page_lines(one) =~= text::decimal(list[i].0 as nat) + ": "@ + list[i].1 + "\n"@);
}

/// The lines of two outlines are those of the first and then those of the
/// second.
pub proof fn outline_lines_of_joined_lists(a: Seq<OutlineItemView>, b: Seq<OutlineItemView>)
    ensures
        outline_lines(a + b) == outline_lines(a) + outline_lines(b),
    decreases b.len(),
{
    if b.len() == 0 {
        assert(a + b =~= a);
        assert(outline_lines(a + b) =~= outline_lines(a) + outline_lines(b));
    } else {
        outline_lines_of_joined_lists(a, b.drop_last());
        assert((a + b).drop_last() =~= a + b.drop_last());
        assert(outline_lines(a + b) =~= outline_lines(a) + outline_lines(b));
    }
}

/// Each item of an outline has a line with its level, its whole title and its
/// page, in its place.
pub proof fn each_item_has_a_line(items: Seq<OutlineItemView>, i: int)
    requires
        0 <= i < items.len(),
    ensures
        outline_lines(items) == outline_lines(items.take(i)) + (text::decimal(
            items[i].level as nat,
        ) + ": "@ + items[i].title + " @ "@ + text::decimal(items[i].page as nat) + "\n"@)
            + outline_lines(items.skip(i + 1)),
{
    let one = seq![items[i]];
    assert(items =~= items.take(i) + one + items.skip(i + 1));
    outline_lines_of_joined_lists(items.take(i), one);
    outline_lines_of_joined_lists(items.take(i) + one, items.skip(i + 1));
    assert(one.drop_last() =~= seq![]);
    reveal_with_fuel(outline_lines, 2);
    assert(outline_lines(one) =~= text::decimal(items[i].level as nat) + ": "@ + items[i].title
        + " @ "@ + text::decimal(items[i].page as nat) + "\n"@);
}

/// Headings are sparse where there is one at most, or a dozen pages and more for
/// each of them and one besides.
pub proof fn sparse_headings(headings: nat, pages: nat)
    ensures
        sparse(headings, pages) <==> headings <= 1 || pages >= 12 * (headings + 1),
{
}

/// The outline comes first and the headings next, each under its own title and
/// only if there are any. The openings of the pages come last, and only where
/// the outline has one item at most and the headings are sparse.
pub proof fn candidates_are_shown(
    items: Seq<OutlineItemView>,
    found: Seq<(int, Seq<char>)>,
    openings: Seq<(int, Seq<char>)>,
)
    ensures
        ({
            let all = candidates(items, found, openings);
            let a = if items.len() > 0 {
                "PDF OUTLINE (level: title @ page):\n"@ + outline_lines(items)
            } else {
                seq![]
            };
            let b = if found.len() > 0 {
                "\nDETECTED HEADING LINES (page: text):\n"@ + page_lines(found)
            } else {
                seq![]
            };
            let weak = items.len() <= 1 && (found.len() <= 1 || openings.len() >= 12 * (
            found.len() + 1));
            &&& a + b == all.take((a + b).len() as int)
            &&& all.skip((a + b).len() as int) == if weak && openings.len() > 0 {
                "\nPAGE OPENINGS (page: first line):\n"@ + page_lines(openings)
            } else {
                seq![]
            }
        }),
{
    sparse_headings(found.len(), openings.len());
    let all = candidates(items, found, openings);
    let a = outline_part(items);
    let b = headings_part(found);
    let c = openings_part(openings);
    assert((a + b + c).take((a + b).len() as int) =~= a + b);
    assert((a + b + c).skip((a + b).len() as int) =~= c);
    assert((a + b).take((a + b).len() as int) =~= a + b);
    assert((a + b).skip((a + b).len() as int) =~= seq![]);
}

/// Slashes at the end of an address do not count; without any an address is
/// followed by the path; in want of one the local server is meant.
pub proof fn addresses_take_paths(base: Seq<char>, path: Seq<char>)
    ensures
        endpoint(Some(base.push('/')), path) == endpoint(Some(base), path),
        base.len() > 0 && base.last() != '/' ==> endpoint(Some(base), path) == base + path,
        endpoint(None, path) == "http://localhost:11434"@ + path,
{
    assert(base.push('/').drop_last() =~= base);
    reveal_strlit("http://localhost:11434");
}

/// The model is told what it is by the first message and what to do by the
/// second, and answers at once.
pub proof fn requests_hold_two_messages(
    r: ChatRequest,
    model: Seq<char>,
    system: Seq<char>,
    user: Seq<char>,
    format: Seq<char>,
)
    requires
        asks(r, model, system, user, format),
    ensures
        r.model@ == model,
        r.format@ == format,
        !r.stream,
        r.messages@.len() == 2,
        r.messages@[0].role@ == "system"@ && r.messages@[0].content@ == system,
        r.messages@[1].role@ == "user"@ && r.messages@[1].content@ == user,
{
}

} // verus!
