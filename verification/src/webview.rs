//! The web front end's own variants: a simpler cleaner and simpler candidates,
//! and its speech server behind a local port.
use crate::agent;
use crate::agent::{append_outline_lines, append_page_lines};
use crate::chars;
use crate::chars::CharClass;
use crate::cleaning;
use crate::cleaning::{compatible_form, join_lines, respaced, stitch_across_breaks};
use crate::error::{AppError, AppResult};
use crate::headings;
use crate::model;
use crate::model::{OutlineItem, OutlineItemView};
use crate::patterns;
use crate::text;
use crate::text::{
    append_str, chars_of, copied, has, is_at, joined_rows, rows_of, string_of,
    trimmed,
};
use vstd::prelude::*;

verus! {

// ---------- Cleaning ----------

/// The joined blocks that hold anything but a page number.
pub open spec fn bodies(blocks: Seq<Seq<char>>) -> Seq<Seq<char>>
    decreases blocks.len(),
{
    if blocks.len() == 0 {
        seq![]
    } else {
        let t = text::trim(cleaning::join_block(blocks.last()));
        if t.len() == 0 || patterns::folio(t) {
            bodies(blocks.drop_last())
        } else {
            bodies(blocks.drop_last()).push(t)
        }
    }
}

/// One paragraph in its final form.
pub open spec fn normal(t: Seq<char>) -> Seq<char> {
    cleaning::spaced(cleaning::compatible(t))
}

/// The paragraphs in their final form, without those that are then empty.
pub open spec fn finished(paras: Seq<Seq<char>>) -> Seq<Seq<char>>
    decreases paras.len(),
{
    if paras.len() == 0 {
        seq![]
    } else {
        let p = normal(paras.last());
        if p.len() == 0 {
            finished(paras.drop_last())
        } else {
            finished(paras.drop_last()).push(p)
        }
    }
}

/// The paragraphs of the transcript of some pages.
pub open spec fn paragraphs(pages: Seq<Seq<char>>) -> Seq<Seq<char>> {
    finished(cleaning::stitch(bodies(cleaning::blocks_in(pages))))
}

/// The transcript of some pages.
pub open spec fn transcript(pages: Seq<Seq<char>>) -> Seq<char> {
    text::join(paragraphs(pages), "\n\n"@)
}

fn bodies_of(blocks: &Vec<Vec<char>>) -> (r: Vec<Vec<char>>)
    ensures
        text::rows(r@) == bodies(text::rows(blocks@)),
        cleaning::all_lines(text::rows(r@)),
{
    let ghost bs = text::rows(blocks@);
    let mut out: Vec<Vec<char>> = Vec::new();
    proof {
        assert(text::rows(out@) =~= seq![]);
    }
    for i in 0..blocks.len()
        invariant
            bs == text::rows(blocks@),
            text::rows(out@) == bodies(bs.take(i as int)),
            cleaning::all_lines(text::rows(out@)),
    {
        proof {
            assert(bs.take(i + 1).drop_last() =~= bs.take(i as int));
            assert(bs.take(i + 1).last() == blocks@[i as int]@);
        }
        let whole = join_lines(blocks[i].as_slice());
        let t = trimmed(whole.as_slice());
        proof {
            cleaning::joined_block_is_one_line(bs[i as int]);
            text::lemma_free_trims(whole@, CharClass::White, CharClass::Newline);
        }
        if t.len() > 0 && !patterns::is_folio(t) {
            let kept = copied(t);
            proof {
                assert(text::rows(out@.push(kept)) =~= text::rows(out@).push(kept@));
            }
            out.push(kept);
        }
    }
    assert(bs.take(bs.len() as int) =~= bs);
    out
}

/// Bring one paragraph to its final form: ligatures resolved and spacing put
/// right. One line stays one line.
pub fn normalize(t: &[char]) -> (r: Vec<char>)
    ensures
        r@ == normal(t@),
        text::free(t@, CharClass::Newline) ==> text::free(r@, CharClass::Newline),
{
    let plain = compatible_form(t);
    respaced(plain.as_slice())
}

fn finish(paras: &Vec<Vec<char>>) -> (r: Vec<Vec<char>>)
    ensures
        text::rows(r@) == finished(text::rows(paras@)),
        cleaning::all_lines(text::rows(paras@)) ==> cleaning::all_lines(text::rows(r@)),
{
    let ghost ps = text::rows(paras@);
    let mut out: Vec<Vec<char>> = Vec::new();
    proof {
        assert(text::rows(out@) =~= seq![]);
    }
    for i in 0..paras.len()
        invariant
            ps == text::rows(paras@),
            text::rows(out@) == finished(ps.take(i as int)),
            cleaning::all_lines(ps) ==> cleaning::all_lines(text::rows(out@)),
    {
        proof {
            assert(ps.take(i + 1).drop_last() =~= ps.take(i as int));
            assert(ps.take(i + 1).last() == paras@[i as int]@);
        }
        let p = normalize(paras[i].as_slice());
        if p.len() > 0 {
            proof {
                assert(cleaning::all_lines(ps) ==> text::free(ps[i as int], CharClass::Newline));
                assert(text::rows(out@.push(p)) =~= text::rows(out@).push(p@));
            }
            out.push(p);
        }
    }
    assert(ps.take(ps.len() as int) =~= ps);
    out
}

/// Clean raw page texts into flowing paragraphs: lines joined, page numbers
/// dropped, paragraphs stitched, spacing put right. Each paragraph is one line.
pub fn clean_pages_to_transcript(raw_pages: &[String]) -> (r: String)
    ensures
        r@ == transcript(text::texts(raw_pages@)),
        cleaning::all_lines(paragraphs(text::texts(raw_pages@))),
{
    let pages = rows_of(raw_pages);
    let blocks = cleaning::blocks_of(&pages);
    let kept = bodies_of(&blocks);
    let merged = stitch_across_breaks(&kept);
    proof {
        cleaning::stitching_keeps_lines(text::rows(kept@));
    }
    let paras = finish(&merged);
    let out = joined_rows(&paras, chars_of("\n\n").as_slice());
    string_of(out.as_slice())
}

// ---------- Candidates ----------

/// The candidates: the outline if there is one, and else the page openings.
pub open spec fn candidates(
    items: Seq<OutlineItemView>,
    openings: Seq<(int, Seq<char>)>,
) -> Seq<char> {
    if items.len() > 0 {
        "PDF OUTLINE (level: title @ page):\n"@ + agent::outline_lines(items)
    } else {
        "PAGE OPENINGS (page: first line):\n"@ + agent::page_lines(openings)
    }
}

/// Build the candidates the model reasons over.
pub fn build_candidates(outline: &[OutlineItem], page_heads: &[(usize, String)]) -> (r: String)
    ensures
        r@ == candidates(
            model::outline_items(outline@),
            headings::entries(page_heads@),
        ),
{
    assert(model::outline_items(outline@).len() == outline@.len());
    let mut out: Vec<char>;
    if outline.len() > 0 {
        out = chars_of("PDF OUTLINE (level: title @ page):\n");
        append_outline_lines(&mut out, outline);
    } else {
        out = chars_of("PAGE OPENINGS (page: first line):\n");
        append_page_lines(&mut out, page_heads);
    }
    string_of(out.as_slice())
}

// ---------- The speech server ----------

/// The address of the speech server.
pub const SIDECAR_BASE: &'static str = "http://127.0.0.1:8765";

/// Host and port of the speech server.
pub const SIDECAR_AUTHORITY: &'static str = "127.0.0.1:8765";

/// The address is made of the protocol, and host and port.
pub proof fn base_and_authority_agree()
    ensures
        SIDECAR_BASE@ == "http://"@ + SIDECAR_AUTHORITY@,
{
    reveal_strlit("http://127.0.0.1:8765");
    reveal_strlit("127.0.0.1:8765");
    reveal_strlit("http://");
    assert(SIDECAR_BASE@ =~= "http://"@ + SIDECAR_AUTHORITY@);
}

/// The request that asks the server for its health.
pub fn health_request() -> (r: String)
    ensures
        r@ == "GET /health HTTP/1.0\r\nHost: "@ + SIDECAR_AUTHORITY@
            + "\r\nConnection: close\r\n\r\n"@,
{
    let mut out = chars_of("GET /health HTTP/1.0\r\nHost: ");
    append_str(&mut out, SIDECAR_AUTHORITY);
    append_str(&mut out, "\r\nConnection: close\r\n\r\n");
    string_of(out.as_slice())
}

/// The response is that of a healthy server: a success, with the payload that
/// only this server gives.
pub open spec fn healthy(resp: Seq<char>) -> bool {
    &&& text::starts_with(resp, "HTTP/1."@)
    &&& text::contains(resp, " 200 "@)
    &&& text::contains(resp, "\"status\""@)
    &&& text::contains(resp, "\"ok\""@)
}

/// Does the response come from a healthy server?
pub fn is_healthy(resp: &str) -> (r: bool)
    ensures
        r == healthy(resp@),
{
    let all = chars_of(resp);
    let s: &[char] = all.as_slice();
    is_at(s, chars_of("HTTP/1.").as_slice(), 0) && has(s, chars_of(" 200 ").as_slice()) && has(
        s,
        chars_of("\"status\"").as_slice(),
    ) && has(s, chars_of("\"ok\"").as_slice())
}

/// What is known before the server is launched.
#[derive(Debug)]
pub struct Surroundings {
    /// A healthy server answers already.
    pub running: bool,
    /// The directory with its source, if it was found.
    pub directory: Option<String>,
    pub has_uv: bool,
    pub venv_python: Option<String>,
    pub has_python312: bool,
}

/// What is done about the server.
#[derive(Debug)]
pub enum Launch {
    /// The running one is used.
    Reuse,
    /// There is nothing to launch.
    NotFound,
    /// A program is started in a directory.
    Start(String, Vec<String>, String),
}

/// The program that runs the server.
pub open spec fn program(s: Surroundings) -> Seq<char> {
    if s.has_uv {
        "uv"@
    } else {
        match s.venv_python {
            Some(p) => p@,
            None => if s.has_python312 {
                "python3.12"@
            } else {
                "python3"@
            },
        }
    }
}

/// Its arguments.
pub open spec fn arguments(s: Surroundings) -> Seq<Seq<char>> {
    if s.has_uv {
        seq!["run"@, "kokoro_server.py"@, "--warm"@]
    } else {
        seq!["kokoro_server.py"@, "--warm"@]
    }
}

/// Decide what is done about the server: a healthy one is used, so that no
/// second one fights for its port.
pub fn plan_sidecar(s: &Surroundings) -> (r: Launch)
    ensures
        s.running ==> r is Reuse,
        !s.running && s.directory is None ==> r is NotFound,
        !s.running && s.directory is Some ==> (r matches Launch::Start(p, a, d) && p@ == program(
            *s,
        ) && text::texts(a@) == arguments(*s) && d@ == s.directory->0@),
{
    if s.running {
        return Launch::Reuse;
    }
    match &s.directory {
        None => Launch::NotFound,
        Some(d) => {
            let mut args: Vec<String> = Vec::new();
            let p: String;
            if s.has_uv {
                p = "uv".to_owned();
                args.push("run".to_owned());
            } else {
                p = match &s.venv_python {
                    Some(v) => v.clone(),
                    None => if s.has_python312 {
                        "python3.12".to_owned()
                    } else {
                        "python3".to_owned()
                    },
                };
            }
            args.push("kokoro_server.py".to_owned());
            args.push("--warm".to_owned());
            assert(text::texts(args@) =~= arguments(*s));
            Launch::Start(p, args, d.clone())
        },
    }
}

/// Whether the wait for the server goes on: it is ready, or time is up, or it is
/// asked again.
pub fn poll_health(success: bool, expired: bool) -> (r: AppResult<bool>)
    ensures
        success ==> r == Ok::<bool, AppError>(true),
        !success && !expired ==> r == Ok::<bool, AppError>(false),
        !success && expired ==> (r matches Err(AppError::Sidecar(m)) && m@
            == "Kokoro sidecar did not become ready in time"@),
{
    if success {
        Ok(true)
    } else if expired {
        Err(AppError::Sidecar("Kokoro sidecar did not become ready in time".to_owned()))
    } else {
        Ok(false)
    }
}

/// The error for a chapter that the server did not speak.
pub fn tts_failure(body: &str) -> (r: AppError)
    ensures
        r matches AppError::Sidecar(m) && m@ == "/tts failed: "@ + body@,
{
    let mut m = chars_of("/tts failed: ");
    append_str(&mut m, body);
    AppError::Sidecar(string_of(m.as_slice()))
}

// ---------- What cleaning keeps ----------

/// The blocks of two lists are kept as those of the first and then those of the
/// second.
pub proof fn bodies_of_joined_lists(a: Seq<Seq<char>>, b: Seq<Seq<char>>)
    ensures
        bodies(a + b) == bodies(a) + bodies(b),
    decreases b.len(),
{
    if b.len() == 0 {
        assert(a + b =~= a);
        assert(bodies(a + b) =~= bodies(a) + bodies(b));
    } else {
        bodies_of_joined_lists(a, b.drop_last());
        assert((a + b).drop_last() =~= a + b.drop_last());
        assert((a + b).last() == b.last());
        assert(bodies(a + b) =~= bodies(a) + bodies(b));
    }
}

/// Every block but a blank one and a page number is kept, in its place; those
/// two are not.
pub proof fn every_block_of_text_is_kept(blocks: Seq<Seq<char>>, i: int)
    requires
        0 <= i < blocks.len(),
    ensures
        ({
            let t = text::trim(cleaning::join_block(blocks[i]));
            let before = bodies(blocks.take(i));
            let after = bodies(blocks.skip(i + 1));
            &&& t.len() > 0 && !patterns::folio(t) ==> bodies(blocks) == before + seq![t] + after
            &&& t.len() == 0 || patterns::folio(t) ==> bodies(blocks) == before + after
        }),
{
    let one = seq![blocks[i]];
    let t = text::trim(cleaning::join_block(blocks[i]));
    assert(blocks =~= blocks.take(i) + one + blocks.skip(i + 1));
    bodies_of_joined_lists(blocks.take(i), one);
    bodies_of_joined_lists(blocks.take(i) + one, blocks.skip(i + 1));
    assert(one.drop_last() =~= seq![]);
    reveal_with_fuel(bodies, 2);
    if t.len() == 0 || patterns::folio(t) {
        assert(bodies(one) =~= seq![]);
        assert(bodies(blocks.take(i)) + Seq::<Seq<char>>::empty() =~= bodies(blocks.take(i)));
    } else {
        assert(bodies(one) =~= seq![t]);
    }
}

proof fn lemma_bodies_keep(blocks: Seq<Seq<char>>)
    requires
        cleaning::all_free(blocks, CharClass::Foreign),
        forall|i: int|
            0 <= i < blocks.len() ==> !patterns::folio(
                text::trim(cleaning::join_block(#[trigger] blocks[i])),
            ),
    ensures
        text::residue(bodies(blocks), CharClass::Seam) == text::residue(blocks, CharClass::Seam),
        cleaning::all_free(bodies(blocks), CharClass::Foreign),
    decreases blocks.len(),
{
    let cl = CharClass::Seam;
    if blocks.len() > 0 {
        let front = blocks.drop_last();
        let last = blocks[blocks.len() - 1];
        assert forall|i: int| 0 <= i < front.len() implies text::free(
            #[trigger] front[i],
            CharClass::Foreign,
        ) && !patterns::folio(text::trim(cleaning::join_block(front[i]))) by {
            assert(front[i] == blocks[i]);
        }
        lemma_bodies_keep(front);
        assert(text::free(last, CharClass::Foreign));
        cleaning::lemma_joined_typeset(last);
        let t = text::trim(cleaning::join_block(last));
        cleaning::lemma_join_block(last, cl);
        text::lemma_without_trim(cleaning::join_block(last), cl);
        if t.len() == 0 {
            assert(text::without(t, cl) =~= seq![]);
            assert(text::residue(blocks, cl) =~= text::residue(front, cl));
        } else {
            assert(bodies(blocks).drop_last() =~= bodies(front));
            assert(bodies(blocks).last() == t);
        }
    }
}

proof fn lemma_finished_keeps(paras: Seq<Seq<char>>)
    requires
        cleaning::all_free(paras, CharClass::Foreign),
    ensures
        text::residue(finished(paras), CharClass::Seam) == text::residue(paras, CharClass::Seam),
    decreases paras.len(),
{
    let cl = CharClass::Seam;
    if paras.len() > 0 {
        let front = paras.drop_last();
        let last = paras[paras.len() - 1];
        assert forall|i: int| 0 <= i < front.len() implies text::free(
            #[trigger] front[i],
            CharClass::Foreign,
        ) by {
            assert(front[i] == paras[i]);
        }
        lemma_finished_keeps(front);
        assert(text::free(last, CharClass::Foreign));
        cleaning::lemma_foreign(last);
        let p = normal(last);
        cleaning::spacing_keeps_text(last, cl);
        if p.len() == 0 {
            assert(text::without(p, cl) =~= seq![]);
            assert(text::residue(paras, cl) =~= text::residue(front, cl));
        } else {
            assert(finished(paras).drop_last() =~= finished(front));
            assert(finished(paras).last() == p);
        }
    }
}

/// Cleaning loses no text: where no block of the pages is a page number, the
/// transcript holds all the characters of the pages in order, but for whitespace
/// and hyphens, and holds no others.
pub proof fn cleaning_keeps_text(pages: Seq<Seq<char>>)
    requires
        forall|i: int| 0 <= i < pages.len() ==> text::all_typeset(#[trigger] pages[i]),
        forall|i: int|
            0 <= i < cleaning::blocks_in(pages).len() ==> !patterns::folio(
                text::trim(cleaning::join_block(#[trigger] cleaning::blocks_in(pages)[i])),
            ),
    ensures
        text::without(transcript(pages), CharClass::Seam) == text::residue(pages, CharClass::Seam),
{
    let cl = CharClass::Seam;
    assert forall|i: int| 0 <= i < pages.len() implies text::free(
        #[trigger] pages[i],
        CharClass::Foreign,
    ) by {
        cleaning::lemma_foreign(pages[i]);
    }
    let blocks = cleaning::blocks_in(pages);
    let kept = bodies(blocks);
    cleaning::lemma_blocks_free(pages, CharClass::Foreign);
    cleaning::blocks_keep_text(pages, cl);
    lemma_bodies_keep(blocks);
    cleaning::lemma_stitch(kept, cl);
    cleaning::lemma_stitch_free(kept, CharClass::Foreign);
    lemma_finished_keeps(cleaning::stitch(kept));
    cleaning::lemma_gap(cl);
    text::lemma_residue_join(paragraphs(pages), "\n\n"@, cl);
}

/// Paragraphs of the transcript are not empty, and spaced right.
pub proof fn paragraphs_are_clean(paras: Seq<Seq<char>>, p: Seq<char>)
    requires
        finished(paras).contains(p),
    ensures
        p.len() > 0,
        !chars::white(p[0]) && !chars::white(p.last()),
        cleaning::never_before(p, CharClass::Blank, CharClass::Blank),
        cleaning::never_before(p, CharClass::White, CharClass::TightPunctuation),
    decreases paras.len(),
{
    if paras.len() > 0 {
        let front = finished(paras.drop_last());
        let last = normal(paras.last());
        if p == last && last.len() > 0 {
            cleaning::spacing_is_right(cleaning::compatible(paras.last()));
        } else {
            let i = finished(paras).index_of(p);
            assert(front[i] == p);
            paragraphs_are_clean(paras.drop_last(), p);
        }
    }
}

/// A typeset paragraph whose spacing is right stays as it is.
pub proof fn finished_paragraph_stays(t: Seq<char>)
    requires
        text::all_typeset(t),
        cleaning::never_before(t, CharClass::Blank, CharClass::Blank),
        cleaning::never_before(t, CharClass::White, CharClass::TightPunctuation),
        t.len() > 0 ==> !chars::white(t[0]) && !chars::white(t.last()),
    ensures
        normal(t) == t,
{
    cleaning::right_spacing_stays(t);
}

/// The model sees every item of an outline, or, where there is none, the opening
/// of every page.
pub proof fn candidates_are_shown(items: Seq<OutlineItemView>, openings: Seq<(int, Seq<char>)>)
    ensures
        items.len() > 0 ==> text::ends_with(
            candidates(items, openings),
            "\n"@ + agent::outline_lines(items),
        ),
        items.len() == 0 ==> text::ends_with(
            candidates(items, openings),
            "\n"@ + agent::page_lines(openings),
        ),
{
    reveal_strlit("\n");
    reveal_strlit("PDF OUTLINE (level: title @ page):\n");
    reveal_strlit("PAGE OPENINGS (page: first line):\n");
    let s = candidates(items, openings);
    let x = "\n"@ + agent::outline_lines(items);
    let y = "\n"@ + agent::page_lines(openings);
    if items.len() > 0 {
        assert(s.subrange(s.len() - x.len(), s.len() as int) =~= x);
    } else {
        assert(s.subrange(s.len() - y.len(), s.len() as int) =~= y);
    }
}

/// An answer counts as healthy only with the status line of a success and the
/// payload of this server; any such answer does.
pub proof fn healthy_answers(version: Seq<char>, head: Seq<char>, tail: Seq<char>)
    ensures
        healthy("HTTP/1."@ + version + " 200 "@ + head + "\"status\""@ + ":\"ok\""@ + tail),
        !text::starts_with(head, "HTTP/1."@) ==> !healthy(head),
        !text::contains(head, " 200 "@) ==> !healthy(head),
{
    reveal_strlit("HTTP/1.");
    reveal_strlit(" 200 ");
    reveal_strlit("\"status\"");
    reveal_strlit(":\"ok\"");
    reveal_strlit("\"ok\"");
    let s = "HTTP/1."@ + version + " 200 "@ + head + "\"status\""@ + ":\"ok\""@ + tail;
    assert(s.subrange(0, 7) =~= "HTTP/1."@);
    let a = 7 + version.len() as int;
    assert(s.subrange(a, a + 5) =~= " 200 "@);
    assert(text::has_at(s, " 200 "@, a));
    let b = a + 5 + head.len();
    assert(s.subrange(b, b + 8) =~= "\"status\""@);
    assert(text::has_at(s, "\"status\""@, b));
    assert(s.subrange(b + 9, b + 13) =~= "\"ok\""@);
    assert(text::has_at(s, "\"ok\""@, b + 9));
}

/// The server is run with the tool that brings its packages, where there is one;
/// else with the interpreter of its own, and else with the best of the machine.
/// It is always asked to warm up.
pub proof fn server_is_run(s: Surroundings)
    ensures
        arguments(s).last() == "--warm"@,
        arguments(s).contains("kokoro_server.py"@),
        s.has_uv ==> program(s) == "uv"@ && arguments(s)[0] == "run"@,
        !s.has_uv && s.venv_python is Some ==> program(s) == s.venv_python->0@,
        !s.has_uv && s.venv_python is None && s.has_python312 ==> program(s) == "python3.12"@,
        !s.has_uv && s.venv_python is None && !s.has_python312 ==> program(s) == "python3"@,
{
    let i: int = if s.has_uv {
        1
    } else {
        0
    };
    assert(arguments(s)[i] == "kokoro_server.py"@);
}

} // verus!
