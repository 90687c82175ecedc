//! Chapter detection around the language model: what it is given, what is made
//! of its answer, and how a polished body goes back into its transcript file.
use crate::agent;
use crate::agent::build_candidates;
use crate::chars;
use crate::chars::CharClass;
use crate::error::AppError;
use crate::headings;
use crate::headings::{chapter_headings, dedupe_headings};
use crate::model;
use crate::model::{
    Boundary, BoundaryView, Chapter, OutlineItem, Progress, ProgressView,
};
use crate::running_heads::nonblank_lines;
use crate::split;
use crate::split::boundaries_to_chapters;
use crate::text;
use crate::text::{
    append, append_decimal, append_str, chars_of, copied, found_from, string_of, trimmed,
};
use vstd::prelude::*;
use vstd::slice::slice_subrange;

verus! {

// ---------- Candidates ----------

/// The opening of a page: the first 80 characters of its first nonblank line.
pub open spec fn opening(page: Seq<char>) -> Seq<char> {
    let lines = text::nonblank(text::lines(page));
    if lines.len() == 0 {
        seq![]
    } else if lines[0].len() <= 80 {
        lines[0]
    } else {
        lines[0].take(80)
    }
}

/// The openings of all pages, each with the number of its page.
pub open spec fn openings(pages: Seq<Seq<char>>) -> Seq<(int, Seq<char>)> {
    Seq::new(pages.len(), |i: int| (i + 1, opening(pages[i])))
}

fn opening_of(page: &[char]) -> (r: Vec<char>)
    ensures
        r@ == opening(page@),
{
    let lines = nonblank_lines(page);
    let ghost ls = text::spans(lines@);
    assert(ls.len() == lines@.len());
    if lines.len() == 0 {
        return Vec::new();
    }
    let first: &[char] = lines[0];
    assert(ls[0] == first@);
    if first.len() <= 80 {
        copied(first)
    } else {
        proof {
            assert(first@.subrange(0, 80) =~= first@.take(80));
        }
        copied(slice_subrange(first, 0, 80))
    }
}

/// The opening of each page, with its number.
pub fn page_openings(pages: &[String]) -> (r: Vec<(usize, String)>)
    ensures
        headings::entries(r@) == openings(text::texts(pages@)),
{
    let ghost ps = text::texts(pages@);
    let n: usize = pages.len();
    let mut out: Vec<(usize, String)> = Vec::new();
    for i in 0..n
        invariant
            n == pages@.len(),
            ps == text::texts(pages@),
            headings::entries(out@) == openings(ps).take(i as int),
    {
        let page = chars_of(pages[i].as_str());
        let h: (usize, String) = (i + 1, string_of(opening_of(page.as_slice()).as_slice()));
        proof {
            assert(headings::entries(out@.push(h)) =~= headings::entries(out@).push(
                (i + 1, opening(ps[i as int])),
            ));
            assert(openings(ps).take(i + 1) =~= openings(ps).take(i as int).push(
                openings(ps)[i as int],
            ));
        }
        out.push(h);
    }
    assert(openings(ps).take(n as int) =~= openings(ps));
    out
}

/// What the model is asked about a book, and the headings to fall back on.
#[derive(Debug)]
pub struct Candidates {
    pub text: String,
    pub headings: Vec<(usize, String)>,
}

/// Gather the candidates of a book: its outline, its headings without the table
/// of contents, and the openings of its pages.
pub fn gather_candidates(outline: &[OutlineItem], pages: &[String]) -> (r: Candidates)
    ensures
        headings::deduped(
            headings::headings(text::texts(pages@)),
            headings::entries(r.headings@),
        ),
        r.text@ == agent::candidates(
            model::outline_items(outline@),
            headings::entries(r.headings@),
            openings(text::texts(pages@)),
        ),
{
    let found = chapter_headings(pages);
    let kept = dedupe_headings(found.as_slice());
    let heads = page_openings(pages);
    let text = build_candidates(outline, kept.as_slice(), heads.as_slice());
    Candidates { text, headings: kept }
}

// ---------- Chapters ----------

/// The boundaries that headings make.
pub open spec fn heading_boundaries(hs: Seq<(int, Seq<char>)>) -> Seq<BoundaryView> {
    hs.map_values(|h: (int, Seq<char>)| BoundaryView { title: text::trim(h.1), start_page: h.0 })
}

/// The boundaries of a book: those the model found, or else those of its
/// headings, or else one for the whole book.
pub open spec fn chosen(
    found: Seq<BoundaryView>,
    hs: Seq<(int, Seq<char>)>,
) -> Seq<BoundaryView> {
    if found.len() > 0 {
        found
    } else if hs.len() > 0 {
        heading_boundaries(hs)
    } else {
        seq![BoundaryView { title: "Full Book"@, start_page: 1 }]
    }
}

fn boundaries_of(hs: &[(usize, String)]) -> (r: Vec<Boundary>)
    ensures
        model::boundaries(r@) == heading_boundaries(headings::entries(hs@)),
{
    let ghost all = heading_boundaries(headings::entries(hs@));
    let mut out: Vec<Boundary> = Vec::new();
    for i in 0..hs.len()
        invariant
            all == heading_boundaries(headings::entries(hs@)),
            model::boundaries(out@) == all.take(i as int),
    {
        let title = chars_of(hs[i].1.as_str());
        let b = Boundary { title: string_of(trimmed(title.as_slice())), start_page: hs[i].0 };
        proof {
            assert(b@ == all[i as int]);
            assert(model::boundaries(out@.push(b)) =~= model::boundaries(out@).push(b@));
            assert(all.take(i + 1) =~= all.take(i as int).push(all[i as int]));
        }
        out.push(b);
    }
    assert(all.take(all.len() as int) =~= all);
    out
}

/// Choose the boundaries of a book, so that an empty answer of the model never
/// makes a structured book one chapter.
pub fn choose_boundaries(found: Vec<Boundary>, headings: &[(usize, String)]) -> (r: Vec<Boundary>)
    ensures
        model::boundaries(r@) == chosen(
            model::boundaries(found@),
            headings::entries(headings@),
        ),
{
    assert(model::boundaries(found@).len() == found@.len());
    assert(headings::entries(headings@).len() == headings@.len());
    if found.len() > 0 {
        found
    } else if headings.len() > 0 {
        boundaries_of(headings)
    } else {
        let mut out: Vec<Boundary> = Vec::new();
        out.push(Boundary { title: "Full Book".to_owned(), start_page: 1 });
        assert(model::boundaries(out@) =~= seq![
            BoundaryView { title: "Full Book"@, start_page: 1 },
        ]);
        out
    }
}

/// The chapters of a book, from what the model found and from its headings.
pub fn settle_chapters(
    found: Vec<Boundary>,
    headings: &[(usize, String)],
    page_count: usize,
) -> (r: Vec<Chapter>)
    ensures
        model::chapters(r@) == split::chapters_at(
            chosen(model::boundaries(found@), headings::entries(headings@)),
            page_count as int,
        ),
{
    let boundaries = choose_boundaries(found, headings);
    boundaries_to_chapters(boundaries.as_slice(), page_count)
}

/// A book always has a chapter, and where the model finds nothing it has one
/// for each of its headings.
pub proof fn detection_never_collapses(
    found: Seq<BoundaryView>,
    hs: Seq<(int, Seq<char>)>,
    page_count: int,
)
    ensures
        split::chapters_at(chosen(found, hs), page_count).len() > 0,
        found.len() == 0 && hs.len() > 0 ==> split::chapters_at(
            chosen(found, hs),
            page_count,
        ).len() == hs.len(),
{
}

// ---------- Reports ----------

/// How far the detection has come.
#[derive(Debug)]
pub enum DetectionStep {
    Reading,
    Extracted(usize),
    Asking(String),
    Found(usize),
}

/// The report of a step of the detection.
pub open spec fn detection_report(step: DetectionStep) -> ProgressView {
    match step {
        DetectionStep::Reading => ProgressView {
            stage: "extract"@,
            message: "Reading PDF…"@,
            current: 0,
            total: 1,
        },
        DetectionStep::Extracted(n) => ProgressView {
            stage: "extract"@,
            message: "Extracted "@ + text::decimal(n as nat) + " pages"@,
            current: 1,
            total: 1,
        },
        DetectionStep::Asking(m) => ProgressView {
            stage: "boundaries"@,
            message: "Asking "@ + m@ + " to find chapters…"@,
            current: 0,
            total: 1,
        },
        DetectionStep::Found(n) => ProgressView {
            stage: "boundaries"@,
            message: "Found "@ + text::decimal(n as nat) + " chapters"@,
            current: 1,
            total: 1,
        },
    }
}

fn counted_message(before: &str, n: usize, after: &str) -> (r: String)
    ensures
        r@ == before@ + text::decimal(n as nat) + after@,
{
    let mut out = chars_of(before);
    append_decimal(&mut out, n as u64);
    append_str(&mut out, after);
    string_of(out.as_slice())
}

/// Report a step of the detection.
pub fn detection_progress(step: &DetectionStep) -> (r: Progress)
    ensures
        r@ == detection_report(*step),
{
    match step {
        DetectionStep::Reading => Progress::new("extract", "Reading PDF…", 0, 1),
        DetectionStep::Extracted(n) => {
            let m = counted_message("Extracted ", *n, " pages");
            Progress::new("extract", m.as_str(), 1, 1)
        },
        DetectionStep::Asking(model) => {
            let mut m = chars_of("Asking ");
            append_str(&mut m, model.as_str());
            append_str(&mut m, " to find chapters…");
            let m = string_of(m.as_slice());
            Progress::new("boundaries", m.as_str(), 0, 1)
        },
        DetectionStep::Found(n) => {
            let m = counted_message("Found ", *n, " chapters");
            Progress::new("boundaries", m.as_str(), 1, 1)
        },
    }
}

// ---------- Models ----------

/// The names among the entries of a listing.
pub open spec fn named(entries: Seq<Option<String>>) -> Seq<Seq<char>>
    decreases entries.len(),
{
    if entries.len() == 0 {
        seq![]
    } else {
        match entries.last() {
            Some(n) => named(entries.drop_last()).push(n@),
            None => named(entries.drop_last()),
        }
    }
}

/// The names of the installed models. An entry without a name is passed over.
pub fn model_names(entries: &[Option<String>]) -> (r: Vec<String>)
    ensures
        text::texts(r@) == named(entries@),
{
    let mut out: Vec<String> = Vec::new();
    proof {
        assert(text::texts(out@) =~= seq![]);
    }
    for i in 0..entries.len()
        invariant
            text::texts(out@) == named(entries@.take(i as int)),
    {
        proof {
            assert(entries@.take(i + 1).drop_last() =~= entries@.take(i as int));
        }
        if let Some(n) = &entries[i] {
            let kept = n.clone();
            proof {
                assert(text::texts(out@.push(kept)) =~= text::texts(out@).push(kept@));
            }
            out.push(kept);
        }
    }
    assert(entries@.take(entries@.len() as int) =~= entries@);
    out
}

/// The error for a model server that does not answer.
pub fn unreachable_error(reason: &str) -> (r: AppError)
    ensures
        r matches AppError::Llm(m) && m@ == "Ollama not reachable: "@ + reason@,
{
    let mut m = chars_of("Ollama not reachable: ");
    append_str(&mut m, reason);
    AppError::Llm(string_of(m.as_slice()))
}

// ---------- Polishing a transcript file ----------

/// The text up to the first blank line, and the text behind it.
pub open spec fn cut_at_gap(s: Seq<char>) -> (Seq<char>, Option<Seq<char>>) {
    match text::find(s, "\n\n"@) {
        Some(i) => (s.take(i), Some(s.skip(i + 2))),
        None => (s, None),
    }
}

/// The three parts of a transcript file: title and author, chapter, body. What
/// is missing is empty.
pub open spec fn file_parts(full: Seq<char>) -> (Seq<char>, Seq<char>, Seq<char>) {
    let (p0, rest) = cut_at_gap(full);
    match rest {
        None => (p0, seq![], seq![]),
        Some(r) => {
            let (p1, body) = cut_at_gap(r);
            match body {
                None => (p0, p1, seq![]),
                Some(b) => (p0, p1, b),
            }
        },
    }
}

/// The parts of a transcript file.
#[derive(Debug)]
pub struct FileParts {
    pub title: String,
    pub chapter: String,
    pub body: String,
}

fn cut_gap<'a>(s: &'a [char]) -> (r: (&'a [char], Option<&'a [char]>))
    ensures
        r.0@ == cut_at_gap(s@).0,
        match r.1 {
            Some(t) => cut_at_gap(s@).1 == Some(t@),
            None => cut_at_gap(s@).1 is None,
        },
{
    let gap = chars_of("\n\n");
    let n: usize = s.len();
    proof {
        reveal_strlit("\n\n");
        assert(s@.skip(0) =~= s@);
    }
    match found_from(s, gap.as_slice(), 0) {
        Some(i) => {
            proof {
                assert(s@.subrange(0, i as int) =~= s@.take(i as int));
                assert(s@.subrange(i + 2, s@.len() as int) =~= s@.skip(i + 2));
            }
            (slice_subrange(s, 0, i), Some(slice_subrange(s, i + 2, n)))
        },
        None => (s, None),
    }
}

/// Split a transcript file into its parts, if it has a body to polish.
pub fn polishable(full: &str) -> (r: Option<FileParts>)
    ensures
        match r {
            Some(p) => (p.title@, p.chapter@, p.body@) == file_parts(full@) && text::trim(
                p.body@,
            ).len() > 0,
            None => text::trim(file_parts(full@).2).len() == 0,
        },
{
    let all = chars_of(full);
    let (p0, rest) = cut_gap(all.as_slice());
    let empty: Vec<char> = Vec::new();
    let (p1, body): (&[char], &[char]) = match rest {
        None => (empty.as_slice(), empty.as_slice()),
        Some(r) => {
            let (p1, b) = cut_gap(r);
            match b {
                None => (p1, empty.as_slice()),
                Some(x) => (p1, x),
            }
        },
    };
    assert(empty@ =~= seq![]);
    if trimmed(body).len() == 0 {
        return None;
    }
    Some(FileParts { title: string_of(p0), chapter: string_of(p1), body: string_of(body) })
}

/// A transcript file with a new body.
pub open spec fn rebuilt(p0: Seq<char>, p1: Seq<char>, body: Seq<char>) -> Seq<char> {
    p0 + "\n\n"@ + p1 + "\n\n"@ + text::trim(body) + "\n"@
}

/// Put a polished body back behind the head of its file.
pub fn rebuild_file(parts: &FileParts, cleaned: &str) -> (r: String)
    ensures
        r@ == rebuilt(parts.title@, parts.chapter@, cleaned@),
{
    let mut out = chars_of(parts.title.as_str());
    append_str(&mut out, "\n\n");
    append_str(&mut out, parts.chapter.as_str());
    append_str(&mut out, "\n\n");
    let body = chars_of(cleaned);
    append(&mut out, trimmed(body.as_slice()));
    append_str(&mut out, "\n");
    string_of(out.as_slice())
}

/// A file with a body is its parts with blank lines between them, so putting a
/// new body back changes nothing before it.
pub proof fn polishing_keeps_the_head(full: Seq<char>, cleaned: Seq<char>)
    requires
        file_parts(full).2.len() > 0,
    ensures
        ({
            let (p0, p1, body) = file_parts(full);
            let head = p0 + "\n\n"@ + p1 + "\n\n"@;
            &&& full == head + body
            &&& rebuilt(p0, p1, cleaned) == head + text::trim(cleaned) + "\n"@
        }),
{
    lemma_cut_at_gap(full);
    let (p0, rest) = cut_at_gap(full);
    lemma_cut_at_gap(rest->0);
    let (p1, body) = cut_at_gap(rest->0);
    assert(full =~= p0 + "\n\n"@ + p1 + "\n\n"@ + body->0);
}

proof fn lemma_cut_at_gap(s: Seq<char>)
    ensures
        cut_at_gap(s).1 matches Some(rest) ==> s == cut_at_gap(s).0 + "\n\n"@ + rest,
{
    reveal_strlit("\n\n");
    text::lemma_find(s, "\n\n"@);
    match text::find(s, "\n\n"@) {
        Some(i) => {
            assert(s =~= s.take(i) + s.subrange(i, i + 2) + s.skip(i + 2));
        },
        None => {},
    }
}

// ---------- From pages to chapters ----------

/// The opening of a page is the beginning of its first line that is not blank:
/// all of it, up to eighty characters. A blank page has an empty one.
pub proof fn openings_are_first_lines(pages: Seq<Seq<char>>, i: int)
    requires
        0 <= i < pages.len(),
    ensures
        ({
            let lines = text::nonblank(text::lines(pages[i]));
            let o = openings(pages)[i];
            &&& openings(pages).len() == pages.len()
            &&& o.0 == i + 1
            &&& lines.len() == 0 ==> o.1.len() == 0
            &&& lines.len() > 0 ==> {
                &&& o.1.is_prefix_of(lines[0])
                &&& o.1.len() == if lines[0].len() <= 80 {
                    lines[0].len()
                } else {
                    80
                }
            }
        }),
{
}

/// What the model found is taken as it is. Where it found nothing, each heading
/// starts a chapter on its own page, in order; and where there is none either,
/// the book is one chapter.
pub proof fn chapters_fall_back_on_headings(
    found: Seq<BoundaryView>,
    hs: Seq<(int, Seq<char>)>,
    i: int,
)
    requires
        0 <= i < chosen(found, hs).len(),
    ensures
        found.len() > 0 ==> chosen(found, hs) == found,
        found.len() == 0 && hs.len() > 0 ==> chosen(found, hs).len() == hs.len() && chosen(
            found,
            hs,
        )[i].start_page == hs[i].0 && chosen(found, hs)[i].title == text::trim(hs[i].1),
        found.len() == 0 && hs.len() == 0 ==> chosen(found, hs).len() == 1 && chosen(
            found,
            hs,
        )[i].start_page == 1 && chosen(found, hs)[i].title == "Full Book"@,
{
}

/// The names of two lists are those of the first and then those of the second.
pub proof fn names_of_joined_lists(a: Seq<Option<String>>, b: Seq<Option<String>>)
    ensures
        named(a + b) == named(a) + named(b),
    decreases b.len(),
{
    if b.len() == 0 {
        assert(a + b =~= a);
        assert(named(a + b) =~= named(a) + named(b));
    } else {
        names_of_joined_lists(a, b.drop_last());
        assert((a + b).drop_last() =~= a + b.drop_last());
        assert((a + b).last() == b.last());
        assert(named(a + b) =~= named(a) + named(b));
    }
}

/// Every model that has a name is listed under it, in its place; one without a
/// name is left out.
pub proof fn every_named_model_is_listed(entries: Seq<Option<String>>, i: int)
    requires
        0 <= i < entries.len(),
    ensures
        entries[i] matches Some(n) ==> named(entries) == named(entries.take(i)) + seq![n@]
            + named(entries.skip(i + 1)),
        entries[i] is None ==> named(entries) == named(entries.take(i)) + named(
            entries.skip(i + 1),
        ),
{
    let one = seq![entries[i]];
    assert(entries =~= entries.take(i) + one + entries.skip(i + 1));
    names_of_joined_lists(entries.take(i), one);
    names_of_joined_lists(entries.take(i) + one, entries.skip(i + 1));
    assert(one.drop_last() =~= seq![]);
    reveal_with_fuel(named, 2);
    match entries[i] {
        Some(n) => {
            assert(named(one) =~= seq![n@]);
        },
        None => {
            assert(named(one) =~= seq![]);
            assert(named(entries.take(i)) + Seq::<Seq<char>>::empty() =~= named(entries.take(i)));
        },
    }
}

proof fn lemma_cut_line(line: Seq<char>, rest: Seq<char>)
    requires
        line.len() > 0,
        line.last() != '\n',
        forall|j: int, k: int|
            0 <= j && k == j + 1 && k < line.len() ==> !(#[trigger] line[j] == '\n'
                && #[trigger] line[k] == '\n'),
    ensures
        cut_at_gap(line + "\n\n"@ + rest) == (line, Some(rest)),
{
    reveal_strlit("\n\n");
    let gap = "\n\n"@;
    let s = line + gap + rest;
    let n = line.len() as int;
    text::lemma_find(s, gap);
    assert(s.subrange(n, n + 2) =~= gap);
    assert(text::has_at(s, gap, n));
    let k = text::find(s, gap)->0;
    assert(text::has_at(s, gap, k));
    assert(s.subrange(k, k + 2)[0] == s[k] && s.subrange(k, k + 2)[1] == s[k + 1]);
    if k < n - 1 {
        assert(s[k] == line[k] && s[k + 1] == line[k + 1]);
    } else if k == n - 1 {
        assert(s[k] == line.last());
    }
    assert(s.take(n) =~= line);
    assert(s.skip(n + 2) =~= rest);
}

/// A transcript file comes apart into its parts again: its title and author, the
/// title of the chapter, and the text. Put together with the text unchanged, it
/// is the same file.
pub proof fn transcript_files_come_apart(
    book: Seq<char>,
    author: Seq<char>,
    title: Seq<char>,
    body: Seq<char>,
)
    requires
        author.len() > 0,
        title.len() > 0,
        text::free(book, CharClass::Newline),
        text::free(author, CharClass::Newline),
        text::free(title, CharClass::Newline),
        text::trim(body) == body,
    ensures
        ({
            let file = split::transcript_file(book, author, title, body);
            let parts = file_parts(file);
            &&& parts.0 == book + "\n"@ + author
            &&& parts.1 == title
            &&& parts.2 == body + "\n"@
            &&& rebuilt(parts.0, parts.1, body) == file
            &&& rebuilt(parts.0, parts.1, parts.2) == file
        }),
{
    reveal_strlit("\n");
    reveal_strlit("\n\n");
    let file = split::transcript_file(book, author, title, body);
    let head = book + "\n"@ + author;
    let rest = title + "\n\n"@ + (body + "\n"@);
    assert(file =~= head + "\n\n"@ + rest);
    let b = book.len() as int;
    assert(!CharClass::Newline.has(author[0]));
    assert(!CharClass::Newline.has(author[author.len() - 1]));
    assert(!CharClass::Newline.has(title[title.len() - 1]));
    assert(head.last() == author[author.len() - 1]);
    assert forall|j: int, k: int| 0 <= j && k == j + 1 && k < head.len() implies !(
    #[trigger] head[j] == '\n' && #[trigger] head[k] == '\n') by {
        if j < b {
            assert(head[j] == book[j]);
            assert(!CharClass::Newline.has(book[j]));
        } else {
            assert(head[k] == author[k - b - 1]);
            assert(!CharClass::Newline.has(author[k - b - 1]));
        }
    }
    lemma_cut_line(head, rest);
    assert forall|j: int, k: int| 0 <= j && k == j + 1 && k < title.len() implies !(
    #[trigger] title[j] == '\n' && #[trigger] title[k] == '\n') by {
        assert(!CharClass::Newline.has(title[j]));
    }
    lemma_cut_line(title, body + "\n"@);
    lemma_trim_newline(body);
    assert(rebuilt(head, title, body) =~= file);
}

proof fn lemma_trim_newline(body: Seq<char>)
    requires
        text::trim(body) == body,
    ensures
        text::trim(body + "\n"@) == body,
{
    reveal_strlit("\n");
    let s = body + "\n"@;
    let n = body.len() as int;
    let (a, b) = text::trimming_takes_the_ends_only(s);
    let (c, d) = text::lemma_trim_inside(body);
    assert(s[n] == '\n' && chars::white(s[n]));
    if n > 0 {
        assert(c == 0 && d == n);
        assert(s[0] == body[0] && s[n - 1] == body[n - 1]);
        assert(a == 0);
        assert(b == n);
        assert(s.subrange(0, n) =~= body);
    } else {
        if a < b {
            assert(a == 0);
        }
        assert(text::trim(s) =~= body);
    }
}

/// Every report of a detection names its stage, and says that it is begun or
/// done.
pub proof fn detection_reports_count_to_one(step: DetectionStep)
    ensures
        ({
            let r = detection_report(step);
            &&& r.total == 1
            &&& r.current == 1 <==> step is Extracted || step is Found
            &&& r.current <= 1
            &&& r.stage == if step is Reading || step is Extracted {
                "extract"@
            } else {
                "boundaries"@
            }
            &&& step matches DetectionStep::Extracted(n) ==> text::contains(
                r.message,
                " "@ + text::decimal(n as nat) + " pages"@,
            )
            &&& step matches DetectionStep::Found(n) ==> text::contains(
                r.message,
                " "@ + text::decimal(n as nat) + " chapters"@,
            )
            &&& step matches DetectionStep::Asking(m) ==> text::contains(r.message, m@)
        }),
{
    let m = detection_report(step).message;
    reveal_strlit(" ");
    reveal_strlit("Extracted ");
    reveal_strlit("Found ");
    reveal_strlit("Asking ");
    match step {
        DetectionStep::Extracted(n) => {
            let d = text::decimal(n as nat);
            let x = " "@ + d + " pages"@;
            assert(m.subrange(9, 9 + x.len() as int) =~= x);
            assert(text::has_at(m, x, 9));
        },
        DetectionStep::Found(n) => {
            let d = text::decimal(n as nat);
            let x = " "@ + d + " chapters"@;
            assert(m.subrange(5, 5 + x.len() as int) =~= x);
            assert(text::has_at(m, x, 5));
        },
        DetectionStep::Asking(name) => {
            assert(m.subrange(7, 7 + name@.len() as int) =~= name@);
            assert(text::has_at(m, name@, 7));
        },
        DetectionStep::Reading => {},
    }
}

} // verus!
