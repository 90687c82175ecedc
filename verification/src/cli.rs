//! The command line: its reports, its tables, and the check-up of the machine.
use crate::chars::CharClass;
use crate::model;
use crate::model::{Chapter, ChapterView, Progress, ProgressView};
use crate::text;
use crate::text::{
    append, append_decimal, append_str, chars_of, decimal_of, has, is_text, string_of,
};
use vstd::prelude::*;
use vstd::slice::slice_subrange;

verus! {

// ---------- Columns ----------

/// So many spaces.
pub open spec fn spaces(n: int) -> Seq<char> {
    if n <= 0 {
        seq![]
    } else {
        Seq::new(n as nat, |i: int| ' ')
    }
}

/// A text at the left of a column.
pub open spec fn left(s: Seq<char>, width: int) -> Seq<char> {
    s + spaces(width - s.len())
}

/// A text at the right of a column.
pub open spec fn right(s: Seq<char>, width: int) -> Seq<char> {
    spaces(width - s.len()) + s
}

fn append_spaces(out: &mut Vec<char>, n: usize)
    ensures
        final(out)@ == old(out)@ + spaces(n as int),
{
    let ghost before = out@;
    proof {
        assert(before + spaces(0) =~= before);
    }
    for i in 0..n
        invariant
            out@ == before + spaces(i as int),
    {
        out.push(' ');
        assert(out@ =~= before + spaces(i + 1));
    }
}

fn append_left(out: &mut Vec<char>, s: &[char], width: usize)
    ensures
        final(out)@ == old(out)@ + left(s@, width as int),
{
    let ghost before = out@;
    append(out, s);
    if s.len() < width {
        append_spaces(out, width - s.len());
    }
    assert(out@ =~= before + left(s@, width as int));
}

fn append_right(out: &mut Vec<char>, s: &[char], width: usize)
    ensures
        final(out)@ == old(out)@ + right(s@, width as int),
{
    let ghost before = out@;
    if s.len() < width {
        append_spaces(out, width - s.len());
    }
    append(out, s);
    assert(out@ =~= before + right(s@, width as int));
}

// ---------- Reports ----------

/// A report in one line. Where there is more than one step it says which one.
pub open spec fn report_line(p: ProgressView) -> Seq<char> {
    let line = "["@ + p.stage + "] "@ + p.message;
    if p.total > 1 {
        line + " ("@ + text::decimal(p.current as nat) + "/"@ + text::decimal(p.total as nat)
            + ")"@
    } else {
        line
    }
}

/// A report in one line.
pub fn progress_line(p: &Progress) -> (r: String)
    ensures
        r@ == report_line(p@),
{
    let mut out = chars_of("[");
    append_str(&mut out, p.stage.as_str());
    append_str(&mut out, "] ");
    append_str(&mut out, p.message.as_str());
    if p.total > 1 {
        append_str(&mut out, " (");
        append_decimal(&mut out, p.current as u64);
        append_str(&mut out, "/");
        append_decimal(&mut out, p.total as u64);
        append_str(&mut out, ")");
    }
    string_of(out.as_slice())
}

// ---------- Tables ----------

/// The title of a chapter as far as its column goes.
pub open spec fn short_title(t: Seq<char>) -> Seq<char> {
    if t.len() <= 48 {
        t
    } else {
        t.take(48)
    }
}

/// The row of a chapter.
pub open spec fn chapter_row(c: ChapterView) -> Seq<char> {
    right(text::decimal(c.order as nat), 3) + "  "@ + left(short_title(c.title), 48) + "  "@
        + text::decimal(c.start_page as nat) + "-"@ + text::decimal(c.end_page as nat) + "\n"@
}

/// The rows of some chapters.
pub open spec fn chapter_rows(cs: Seq<ChapterView>) -> Seq<char>
    decreases cs.len(),
{
    if cs.len() == 0 {
        seq![]
    } else {
        chapter_rows(cs.drop_last()) + chapter_row(cs.last())
    }
}

/// The head of the table.
pub open spec fn table_head() -> Seq<char> {
    right("#"@, 3) + "  "@ + left("title"@, 48) + "  pages\n"@
}

fn append_row(out: &mut Vec<char>, c: &Chapter)
    ensures
        final(out)@ == old(out)@ + chapter_row(c@),
{
    let ghost before = out@;
    append_right(out, decimal_of(c.order as u64).as_slice(), 3);
    append_str(out, "  ");
    let title = chars_of(c.title.as_str());
    let short: &[char] = if title.len() <= 48 {
        title.as_slice()
    } else {
        slice_subrange(title.as_slice(), 0, 48)
    };
    assert(short@ =~= short_title(c.title@));
    append_left(out, short, 48);
    append_str(out, "  ");
    append_decimal(out, c.start_page as u64);
    append_str(out, "-");
    append_decimal(out, c.end_page as u64);
    append_str(out, "\n");
    assert(out@ =~= before + chapter_row(c@));
}

/// The chapters as a table.
pub fn chapters_table(chapters: &[Chapter]) -> (r: String)
    ensures
        r@ == table_head() + chapter_rows(model::chapters(chapters@)),
{
    let ghost cs = model::chapters(chapters@);
    let mut out: Vec<char> = Vec::new();
    append_right(&mut out, chars_of("#").as_slice(), 3);
    append_str(&mut out, "  ");
    append_left(&mut out, chars_of("title").as_slice(), 48);
    append_str(&mut out, "  pages\n");
    assert(out@ =~= table_head());
    proof {
        assert(table_head() + chapter_rows(cs.take(0)) =~= table_head());
    }
    for i in 0..chapters.len()
        invariant
            cs == model::chapters(chapters@),
            out@ == table_head() + chapter_rows(cs.take(i as int)),
    {
        proof {
            assert(cs.take(i + 1).drop_last() =~= cs.take(i as int));
            assert(cs.take(i + 1).last() == chapters@[i as int]@);
            let rows = chapter_rows(cs.take(i as int));
            let row = chapter_row(chapters@[i as int]@);
            assert(table_head() + rows + row =~= table_head() + (rows + row));
        }
        append_row(&mut out, &chapters[i]);
    }
    assert(cs.take(cs.len() as int) =~= cs);
    string_of(out.as_slice())
}

/// The texts of a list, each on its line.
pub open spec fn text_lines(list: Seq<Seq<char>>) -> Seq<char>
    decreases list.len(),
{
    if list.len() == 0 {
        seq![]
    } else {
        text_lines(list.drop_last()) + list.last() + "\n"@
    }
}

/// The installed models, one on each line.
pub fn models_text(models: &[String]) -> (r: String)
    ensures
        r@ == if models@.len() == 0 {
            "(no models — is Ollama running?)\n"@
        } else {
            text_lines(text::texts(models@))
        },
{
    if models.len() == 0 {
        return "(no models — is Ollama running?)\n".to_owned();
    }
    let ghost ms = text::texts(models@);
    let mut out: Vec<char> = Vec::new();
    for i in 0..models.len()
        invariant
            ms == text::texts(models@),
            out@ == text_lines(ms.take(i as int)),
    {
        proof {
            assert(ms.take(i + 1).drop_last() =~= ms.take(i as int));
            assert(ms.take(i + 1).last() == models@[i as int]@);
        }
        append_str(&mut out, models[i].as_str());
        append_str(&mut out, "\n");
    }
    assert(ms.take(ms.len() as int) =~= ms);
    string_of(out.as_slice())
}

/// The title of a book: the name of its file without the extension.
pub fn title_from_pdf(stem: Option<&str>) -> (r: String)
    ensures
        r@ == match stem {
            Some(s) => s@,
            None => "Audiobook"@,
        },
{
    match stem {
        Some(s) => s.to_owned(),
        None => "Audiobook".to_owned(),
    }
}

/// A narration needs chapters.
pub fn require_chapters(count: usize) -> (r: Result<(), String>)
    ensures
        match r {
            Ok(_) => count > 0,
            Err(e) => count == 0 && e@ == "no chapters to generate"@,
        },
{
    if count == 0 {
        Err("no chapters to generate".to_owned())
    } else {
        Ok(())
    }
}

// ---------- Check-up ----------

/// The result of one check.
#[derive(Debug)]
pub struct Check {
    pub name: String,
    pub ok: bool,
    pub detail: String,
}

/// A check as plain values.
pub struct CheckView {
    pub name: Seq<char>,
    pub ok: bool,
    pub detail: Seq<char>,
}

impl View for Check {
    type V = CheckView;

    open spec fn view(&self) -> CheckView {
        CheckView { name: self.name@, ok: self.ok, detail: self.detail@ }
    }
}

/// The checks of a list as plain values.
pub open spec fn checks(v: Seq<Check>) -> Seq<CheckView> {
    v.map_values(|c: Check| c@)
}

/// What was found on the machine.
#[derive(Debug)]
pub struct Findings {
    pub models: Vec<String>,
    pub ocr_model: String,
    pub ocr_available: bool,
    pub ffmpeg: bool,
    pub pdfium: bool,
    pub sidecar: bool,
}

/// The name of some installed model holds this text.
pub open spec fn installed(models: Seq<Seq<char>>, needle: Seq<char>) -> bool {
    exists|i: int| 0 <= i < models.len() && text::contains(#[trigger] models[i], needle)
}

pub open spec fn check_ollama(models: Seq<Seq<char>>) -> CheckView {
    CheckView {
        name: "ollama"@,
        ok: models.len() > 0,
        detail: if models.len() > 0 {
            text::decimal(models.len()) + " model(s) available"@
        } else {
            "not reachable (start `ollama serve`)"@
        },
    }
}

pub open spec fn check_llm(models: Seq<Seq<char>>) -> CheckView {
    let mlx = installed(models, "gemma4:e2b-mlx"@);
    let plain = installed(models, "gemma4:e2b"@);
    CheckView {
        name: "llm-model"@,
        ok: mlx || plain,
        detail: if mlx {
            "gemma4:e2b-mlx present"@
        } else if plain {
            "gemma4:e2b present (mlx build recommended)"@
        } else {
            "missing — `ollama pull gemma4:e2b-mlx`"@
        },
    }
}

pub open spec fn check_ocr(model: Seq<char>, ok: bool) -> CheckView {
    CheckView {
        name: "ocr-model"@,
        ok,
        detail: if ok {
            model + " present"@
        } else {
            "missing (scanned-PDF OCR off) — `ollama pull "@ + model + "`"@
        },
    }
}

pub open spec fn check_plain(
    name: Seq<char>,
    ok: bool,
    good: Seq<char>,
    bad: Seq<char>,
) -> CheckView {
    CheckView {
        name,
        ok,
        detail: if ok {
            good
        } else {
            bad
        },
    }
}

/// The checks of a machine, from what was found on it.
pub open spec fn all_checks(f: Findings) -> Seq<CheckView> {
    let models = text::texts(f.models@);
    seq![
        check_ollama(models),
        check_llm(models),
        check_ocr(f.ocr_model@, f.ocr_available),
        check_plain("ffmpeg"@, f.ffmpeg, "found on PATH"@, "missing — install ffmpeg"@),
        check_plain(
            "libpdfium"@,
            f.pdfium,
            "found"@,
            "not found (cover/OCR render off) — place libpdfium next to the binary"@,
        ),
        check_plain(
            "g2p-sidecar"@,
            f.sidecar,
            "g2p_server.py found"@,
            "sidecar not found — set AUDIOBOOK_SIDECAR_DIR"@,
        ),
    ]
}

fn is_installed(models: &Vec<String>, needle: &str) -> (r: bool)
    ensures
        r == installed(text::texts(models@), needle@),
{
    let ghost ms = text::texts(models@);
    let want = chars_of(needle);
    for i in 0..models.len()
        invariant
            ms == text::texts(models@),
            want@ == needle@,
            forall|j: int| 0 <= j < i ==> !text::contains(#[trigger] ms[j], needle@),
    {
        if has(chars_of(models[i].as_str()).as_slice(), want.as_slice()) {
            assert(text::contains(ms[i as int], needle@));
            return true;
        }
    }
    false
}

fn plain_check(name: &str, ok: bool, good: &str, bad: &str) -> (r: Check)
    ensures
        r@ == check_plain(name@, ok, good@, bad@),
{
    let detail = if ok {
        good
    } else {
        bad
    };
    Check { name: name.to_owned(), ok, detail: detail.to_owned() }
}

fn ollama_check(models: &Vec<String>) -> (r: Check)
    ensures
        r@ == check_ollama(text::texts(models@)),
{
    let n: usize = models.len();
    let detail = if n > 0 {
        let mut d = decimal_of(n as u64);
        append_str(&mut d, " model(s) available");
        string_of(d.as_slice())
    } else {
        "not reachable (start `ollama serve`)".to_owned()
    };
    Check { name: "ollama".to_owned(), ok: n > 0, detail }
}

fn llm_check(models: &Vec<String>) -> (r: Check)
    ensures
        r@ == check_llm(text::texts(models@)),
{
    let mlx = is_installed(models, "gemma4:e2b-mlx");
    let plain = is_installed(models, "gemma4:e2b");
    let detail = if mlx {
        "gemma4:e2b-mlx present"
    } else if plain {
        "gemma4:e2b present (mlx build recommended)"
    } else {
        "missing — `ollama pull gemma4:e2b-mlx`"
    };
    Check { name: "llm-model".to_owned(), ok: mlx || plain, detail: detail.to_owned() }
}

fn ocr_check(model: &String, ok: bool) -> (r: Check)
    ensures
        r@ == check_ocr(model@, ok),
{
    let mut d: Vec<char>;
    if ok {
        d = chars_of(model.as_str());
        append_str(&mut d, " present");
    } else {
        d = chars_of("missing (scanned-PDF OCR off) — `ollama pull ");
        append_str(&mut d, model.as_str());
        append_str(&mut d, "`");
    }
    Check { name: "ocr-model".to_owned(), ok, detail: string_of(d.as_slice()) }
}

/// Check what is needed: the model server, its models, the programs and files.
pub fn doctor_checks(f: &Findings) -> (r: Vec<Check>)
    ensures
        checks(r@) == all_checks(*f),
{
    let mut out: Vec<Check> = Vec::new();
    out.push(ollama_check(&f.models));
    out.push(llm_check(&f.models));
    out.push(ocr_check(&f.ocr_model, f.ocr_available));
    out.push(plain_check("ffmpeg", f.ffmpeg, "found on PATH", "missing — install ffmpeg"));
    out.push(
        plain_check(
            "libpdfium",
            f.pdfium,
            "found",
            "not found (cover/OCR render off) — place libpdfium next to the binary",
        ),
    );
    out.push(
        plain_check(
            "g2p-sidecar",
            f.sidecar,
            "g2p_server.py found",
            "sidecar not found — set AUDIOBOOK_SIDECAR_DIR",
        ),
    );
    assert(checks(out@) =~= all_checks(*f));
    out
}

/// Are all checks passed?
pub fn all_ok(list: &[Check]) -> (r: bool)
    ensures
        r == forall|i: int| 0 <= i < list@.len() ==> (#[trigger] list@[i]).ok,
{
    for i in 0..list.len()
        invariant
            forall|j: int| 0 <= j < i ==> (#[trigger] list@[j]).ok,
    {
        if !list[i].ok {
            return false;
        }
    }
    true
}

/// A check in one line.
pub open spec fn check_line(c: CheckView) -> Seq<char> {
    "["@ + if c.ok {
        "ok  "@
    } else {
        "FAIL"@
    } + "] "@ + left(c.name, 12) + " "@ + c.detail
}

/// A check in one line.
pub fn doctor_line(c: &Check) -> (r: String)
    ensures
        r@ == check_line(c@),
{
    let mut out = chars_of("[");
    append_str(
        &mut out,
        if c.ok {
            "ok  "
        } else {
            "FAIL"
        },
    );
    append_str(&mut out, "] ");
    append_left(&mut out, chars_of(c.name.as_str()).as_slice(), 12);
    append_str(&mut out, " ");
    append_str(&mut out, c.detail.as_str());
    string_of(out.as_slice())
}

/// The check is the one without which there is no audio, and it failed.
pub open spec fn blocks(c: CheckView) -> bool {
    c.name == "ffmpeg"@ && !c.ok
}

/// The verdict of a check-up. Only a missing encoder is an error: nothing can
/// be narrated without it.
pub fn doctor_verdict(list: &[Check]) -> (r: Result<(), String>)
    ensures
        match r {
            Ok(_) => forall|i: int| 0 <= i < list@.len() ==> !blocks((#[trigger] list@[i])@),
            Err(e) => e@ == "ffmpeg is required for audio output"@ && exists|i: int|
                0 <= i < list@.len() && blocks((#[trigger] list@[i])@),
        },
{
    for i in 0..list.len()
        invariant
            forall|j: int| 0 <= j < i ==> !blocks((#[trigger] list@[j])@),
    {
        if !list[i].ok && is_text(chars_of(list[i].name.as_str()).as_slice(), "ffmpeg") {
            assert(blocks(list@[i as int]@));
            return Err("ffmpeg is required for audio output".to_owned());
        }
    }
    Ok(())
}

/// A machine passes the check-up if and only if it has the encoder.
pub proof fn verdict_is_the_encoder(f: Findings)
    ensures
        f.ffmpeg <==> forall|i: int|
            0 <= i < all_checks(f).len() ==> !blocks(#[trigger] all_checks(f)[i]),
{
    reveal_strlit("ffmpeg");
    reveal_strlit("ollama");
    reveal_strlit("llm-model");
    reveal_strlit("ocr-model");
    reveal_strlit("libpdfium");
    reveal_strlit("g2p-sidecar");
    assert("ffmpeg"@[0] == 'f');
    assert("ollama"@[0] == 'o');
    assert("llm-model"@[0] == 'l');
    assert("ocr-model"@[0] == 'o');
    assert("libpdfium"@[0] == 'l');
    assert("g2p-sidecar"@[0] == 'g');
    assert(blocks(all_checks(f)[3]) <==> !f.ffmpeg);
}

// ---------- What is printed ----------

/// A text in a column stands at its left or right edge, whole, with spaces up to
/// the width.
pub proof fn columns_hold_whole_texts(s: Seq<char>, width: int)
    ensures
        s.is_prefix_of(left(s, width)),
        s.len() <= width ==> left(s, width).len() == width && right(s, width).len() == width,
        s.len() >= width ==> left(s, width) == s && right(s, width) == s,
        right(s, width).skip(right(s, width).len() - s.len()) == s,
        text::without(left(s, width), CharClass::White) == text::without(s, CharClass::White),
        text::without(right(s, width), CharClass::White) == text::without(s, CharClass::White),
{
    let gap = spaces(width - s.len());
    assert(left(s, width).take(s.len() as int) =~= s);
    assert(right(s, width).skip(right(s, width).len() - s.len()) =~= s);
    if s.len() >= width {
        assert(left(s, width) =~= s);
        assert(right(s, width) =~= s);
    }
    lemma_spaces(gap);
    text::lemma_without_concat(s, gap, CharClass::White);
    text::lemma_without_concat(gap, s, CharClass::White);
    assert(text::without(s, CharClass::White) + Seq::<char>::empty() =~= text::without(
        s,
        CharClass::White,
    ));
    assert(Seq::<char>::empty() + text::without(s, CharClass::White) =~= text::without(
        s,
        CharClass::White,
    ));
}

proof fn lemma_spaces(gap: Seq<char>)
    requires
        forall|i: int| 0 <= i < gap.len() ==> #[trigger] gap[i] == ' ',
    ensures
        text::without(gap, CharClass::White) == Seq::<char>::empty(),
    decreases gap.len(),
{
    if gap.len() > 0 {
        lemma_spaces(gap.drop_last());
        assert(gap[gap.len() - 1] == ' ');
    }
}

/// The rows of two lists are those of the first and then those of the second.
pub proof fn rows_of_joined_lists(a: Seq<ChapterView>, b: Seq<ChapterView>)
    ensures
        chapter_rows(a + b) == chapter_rows(a) + chapter_rows(b),
    decreases b.len(),
{
    if b.len() == 0 {
        assert(a + b =~= a);
        assert(chapter_rows(a + b) =~= chapter_rows(a) + chapter_rows(b));
    } else {
        rows_of_joined_lists(a, b.drop_last());
        assert((a + b).drop_last() =~= a + b.drop_last());
        assert(chapter_rows(a + b) =~= chapter_rows(a) + chapter_rows(b));
    }
}

/// Every chapter has a row, in its place. It holds the chapter's number, its
/// title, whole up to forty-eight characters, and its first and last page.
pub proof fn every_chapter_has_a_row(cs: Seq<ChapterView>, i: int)
    requires
        0 <= i < cs.len(),
    ensures
        ({
            let c = cs[i];
            let title = if c.title.len() <= 48 {
                c.title
            } else {
                c.title.take(48)
            };
            let row = right(text::decimal(c.order as nat), 3) + "  "@ + left(title, 48) + "  "@
                + text::decimal(c.start_page as nat) + "-"@ + text::decimal(c.end_page as nat)
                + "\n"@;
            chapter_rows(cs) == chapter_rows(cs.take(i)) + row + chapter_rows(cs.skip(i + 1))
        }),
{
    let one = seq![cs[i]];
    assert(cs =~= cs.take(i) + one + cs.skip(i + 1));
    rows_of_joined_lists(cs.take(i), one);
    rows_of_joined_lists(cs.take(i) + one, cs.skip(i + 1));
    assert(one.drop_last() =~= seq![]);
    reveal_with_fuel(chapter_rows, 2);
    assert(chapter_rows(one) =~= chapter_row(cs[i]));
}

/// A list is printed with every text on a line of its own: a list of lines comes
/// back as it was.
pub proof fn every_text_has_a_line(list: Seq<Seq<char>>)
    requires
        forall|i: int|
            0 <= i < list.len() ==> text::free(#[trigger] list[i], CharClass::Newline) && (
            list[i].len() == 0 || list[i].last() != '\r'),
    ensures
        text::lines(text_lines(list)) == list,
    decreases list.len(),
{
    if list.len() == 0 {
        assert(text::lines(text_lines(list)) =~= list);
    } else {
        let first = list[0];
        let rest = list.skip(1);
        assert forall|i: int| 0 <= i < rest.len() implies text::free(
            #[trigger] rest[i],
            CharClass::Newline,
        ) && (rest[i].len() == 0 || rest[i].last() != '\r') by {
            assert(rest[i] == list[i + 1]);
        }
        every_text_has_a_line(rest);
        lemma_text_lines_front(first, rest);
        assert(list =~= seq![first] + rest);
        reveal_strlit("\n");
        assert("\n"@ =~= seq!['\n']);
        text::newlines_end_lines(first, text_lines(rest));
        assert(text::strip_cr(first) == first);
    }
}

proof fn lemma_text_lines_front(first: Seq<char>, rest: Seq<Seq<char>>)
    ensures
        text_lines(seq![first] + rest) == first + "\n"@ + text_lines(rest),
    decreases rest.len(),
{
    let all = seq![first] + rest;
    if rest.len() == 0 {
        assert(all.drop_last() =~= seq![]);
        assert(all.last() == first);
        reveal_with_fuel(text_lines, 2);
        assert(text_lines(all) =~= first + "\n"@ + text_lines(rest));
    } else {
        lemma_text_lines_front(first, rest.drop_last());
        assert(all.drop_last() =~= seq![first] + rest.drop_last());
        assert(all.last() == rest.last());
        assert(text_lines(all) =~= first + "\n"@ + text_lines(rest));
    }
}

/// A report is printed with its stage and its message, and with how far it is
/// where there is more than one thing to do.
pub proof fn reports_are_printed_whole(p: ProgressView)
    ensures
        ("["@ + p.stage + "] "@ + p.message).is_prefix_of(report_line(p)),
        p.total <= 1 ==> report_line(p) == "["@ + p.stage + "] "@ + p.message,
        p.total > 1 ==> text::ends_with(
            report_line(p),
            " ("@ + text::decimal(p.current as nat) + "/"@ + text::decimal(p.total as nat) + ")"@,
        ),
{
    let line = "["@ + p.stage + "] "@ + p.message;
    let tail = " ("@ + text::decimal(p.current as nat) + "/"@ + text::decimal(p.total as nat)
        + ")"@;
    if p.total > 1 {
        assert(report_line(p) =~= line + tail);
        assert((line + tail).take(line.len() as int) =~= line);
        assert((line + tail).subrange(line.len() as int, (line + tail).len() as int) =~= tail);
    }
}

/// The checks stand in a fixed order, and each passes exactly where what it asks
/// for was found.
pub proof fn checks_say_what_was_found(f: Findings)
    ensures
        ({
            let c = all_checks(f);
            let models = text::texts(f.models@);
            &&& c.len() == 6
            &&& c[0].name == "ollama"@ && (c[0].ok <==> f.models@.len() > 0)
            &&& c[1].name == "llm-model"@ && (c[1].ok <==> exists|i: int|
                0 <= i < models.len() && text::contains(#[trigger] models[i], "gemma4:e2b"@))
            &&& c[2].name == "ocr-model"@ && c[2].ok == f.ocr_available
            &&& c[3].name == "ffmpeg"@ && c[3].ok == f.ffmpeg
            &&& c[4].name == "libpdfium"@ && c[4].ok == f.pdfium
            &&& c[5].name == "g2p-sidecar"@ && c[5].ok == f.sidecar
        }),
{
    let models = text::texts(f.models@);
    reveal_strlit("gemma4:e2b-mlx");
    reveal_strlit("gemma4:e2b");
    assert forall|i: int| 0 <= i < models.len() && text::contains(
        #[trigger] models[i],
        "gemma4:e2b-mlx"@,
    ) implies text::contains(models[i], "gemma4:e2b"@) by {
        let m = models[i];
        let k = choose|k: int| text::has_at(m, "gemma4:e2b-mlx"@, k);
        assert(m.subrange(k, k + 10) =~= m.subrange(k, k + 14).take(10));
        assert("gemma4:e2b-mlx"@.take(10) =~= "gemma4:e2b"@);
        assert(text::has_at(m, "gemma4:e2b"@, k));
    }
}

/// A check is printed with its verdict, its name and its detail.
pub proof fn checks_are_printed_whole(c: CheckView)
    ensures
        text::starts_with(
            check_line(c),
            if c.ok {
                "[ok  ] "@
            } else {
                "[FAIL] "@
            } + c.name,
        ),
        text::ends_with(check_line(c), " "@ + c.detail),
{
    reveal_strlit("[");
    reveal_strlit("] ");
    reveal_strlit("ok  ");
    reveal_strlit("FAIL");
    reveal_strlit("[ok  ] ");
    reveal_strlit("[FAIL] ");
    let line = check_line(c);
    let head = if c.ok {
        "[ok  ] "@
    } else {
        "[FAIL] "@
    };
    assert("["@ + "ok  "@ + "] "@ =~= "[ok  ] "@);
    assert("["@ + "FAIL"@ + "] "@ =~= "[FAIL] "@);
    let start = head + c.name;
    let tail = " "@ + c.detail;
    assert(line =~= head + left(c.name, 12) + tail);
    assert(line.subrange(0, start.len() as int) =~= start);
    assert(line.subrange(line.len() - tail.len(), line.len() as int) =~= tail);
}

/// The checks of a check-up are seen whole and in order.
pub proof fn checks_are_seen_in_order(v: Seq<Check>, i: int)
    requires
        0 <= i < v.len(),
    ensures
        checks(v).len() == v.len(),
        checks(v)[i].name == v[i].name@,
        checks(v)[i].ok == v[i].ok,
        checks(v)[i].detail == v[i].detail@,
{
}

} // verus!
