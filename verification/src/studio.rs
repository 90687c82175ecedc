//! The studio: the state behind the window, what each message of the background
//! work makes of it, and how the chapter list is edited.
use crate::chars::CharClass;
use crate::model;
use crate::model::{
    BookInfo, BookView, Chapter, ChapterView, GenerateRequest, Progress, ProgressView, RequestView,
    VoiceConfig, VoiceView,
};
use crate::split;
use crate::text;
use crate::text::{
    append_decimal, append_str, chars_of, ends_with_text, has, is_text,
    split_at_each, string_of, strings_of, swapped,
};
use vstd::prelude::*;
use vstd::slice::slice_subrange;

verus! {

// ---------- The chapter list ----------

/// A start page within the book.
pub open spec fn clamped(page: int, page_count: int) -> int {
    split::max(1, split::min(page, page_count))
}

/// The chapters with their numbers and ends derived again: each runs to the page
/// before the next one starts, the last one to the end of the book, and none
/// ends before it starts.
pub open spec fn recomputed(cs: Seq<ChapterView>, page_count: int) -> Seq<ChapterView> {
    Seq::new(
        cs.len(),
        |i: int|
            {
                let start = clamped(cs[i].start_page, page_count);
                let end = if i + 1 < cs.len() {
                    clamped(cs[i + 1].start_page, page_count) - 1
                } else {
                    page_count
                };
                ChapterView {
                    order: i + 1,
                    title: cs[i].title,
                    start_page: start,
                    end_page: split::max(end, start),
                }
            },
    )
}

/// Each chapter starts on a later page than the one before it.
pub open spec fn ascending(cs: Seq<ChapterView>) -> bool {
    forall|i: int, j: int|
        0 <= i && j == i + 1 && j < cs.len() ==> (#[trigger] cs[i]).start_page < (
        #[trigger] cs[j]).start_page
}

fn clamp_page(page: usize, page_count: usize) -> (r: usize)
    requires
        page_count >= 1,
    ensures
        r == clamped(page as int, page_count as int),
{
    if page < 1 {
        1
    } else if page > page_count {
        page_count
    } else {
        page
    }
}

/// Derive the numbers and ends of some chapters again.
pub fn recompute(chapters: &Vec<Chapter>, page_count: usize) -> (r: Vec<Chapter>)
    requires
        page_count >= 1,
    ensures
        model::chapters(r@) == recomputed(model::chapters(chapters@), page_count as int),
{
    let ghost cs = model::chapters(chapters@);
    let ghost all = recomputed(cs, page_count as int);
    let n: usize = chapters.len();
    let mut out: Vec<Chapter> = Vec::new();
    for i in 0..n
        invariant
            page_count >= 1,
            n == chapters@.len(),
            cs == model::chapters(chapters@),
            all == recomputed(cs, page_count as int),
            model::chapters(out@) == all.take(i as int),
    {
        let start = clamp_page(chapters[i].start_page, page_count);
        let end: usize = if i + 1 < n {
            assert(cs[i + 1] == chapters@[i + 1]@);
            clamp_page(chapters[i + 1].start_page, page_count) - 1
        } else {
            page_count
        };
        let c = Chapter {
            order: i + 1,
            title: chapters[i].title.clone(),
            start_page: start,
            end_page: if end > start {
                end
            } else {
                start
            },
        };
        proof {
            assert(cs[i as int] == chapters@[i as int]@);
            assert(c@ == all[i as int]);
            assert(model::chapters(out@.push(c)) =~= model::chapters(out@).push(c@));
            assert(all.take(i + 1) =~= all.take(i as int).push(all[i as int]));
        }
        out.push(c);
    }
    assert(all.take(n as int) =~= all);
    out
}

/// Deriving the numbers and ends a second time changes nothing.
pub proof fn recomputing_settles(cs: Seq<ChapterView>, page_count: int)
    requires
        page_count >= 1,
    ensures
        recomputed(recomputed(cs, page_count), page_count) == recomputed(cs, page_count),
{
    let once = recomputed(cs, page_count);
    let twice = recomputed(once, page_count);
    assert forall|i: int| 0 <= i < once.len() implies #[trigger] twice[i] == once[i] by {}
    assert(twice =~= once);
}

/// Every chapter then has a valid range within the book, and where they ascend
/// each ends right before the next one starts.
pub proof fn recomputed_ranges(cs: Seq<ChapterView>, page_count: int, i: int)
    requires
        page_count >= 1,
        0 <= i < cs.len(),
    ensures
        ({
            let r = recomputed(cs, page_count);
            &&& r[i].order == i + 1
            &&& 1 <= r[i].start_page <= r[i].end_page <= page_count
            &&& ascending(r) && i + 1 < cs.len() ==> r[i].end_page + 1 == r[i + 1].start_page
            &&& i + 1 == cs.len() ==> r[i].end_page == page_count
        }),
{
    let r = recomputed(cs, page_count);
    if i + 1 < cs.len() {
        assert(r[i + 1].start_page == clamped(cs[i + 1].start_page, page_count));
    }
}

/// A change of the order of the chapters. Chapters count from zero.
#[derive(Debug, Clone, Copy)]
pub enum Edit {
    MoveUp(usize),
    MoveDown(usize),
    Delete(usize),
}

/// The edit speaks of chapters that there are. The first cannot move up, the
/// last not down, and the only one not go.
pub open spec fn possible(e: Edit, n: int) -> bool {
    match e {
        Edit::MoveUp(i) => 0 < i < n,
        Edit::MoveDown(i) => i + 1 < n,
        Edit::Delete(i) => i < n && n > 1,
    }
}

/// Two chapters change places.
pub open spec fn swapped_at(cs: Seq<ChapterView>, i: int, j: int) -> Seq<ChapterView> {
    cs.update(i, cs[j]).update(j, cs[i])
}

/// The chapters after an edit.
pub open spec fn edited(cs: Seq<ChapterView>, e: Edit) -> Seq<ChapterView> {
    match e {
        Edit::MoveUp(i) => swapped_at(cs, i as int, i - 1),
        Edit::MoveDown(i) => swapped_at(cs, i as int, i + 1),
        Edit::Delete(i) => cs.remove(i as int),
    }
}

/// The chapters with a new one behind the last.
pub open spec fn with_new(cs: Seq<ChapterView>, page_count: int) -> Seq<ChapterView> {
    cs.push(
        ChapterView {
            order: cs.len() as int + 1,
            title: "New Chapter"@,
            start_page: if cs.len() > 0 {
                split::min(cs.last().start_page + 1, page_count)
            } else {
                1
            },
            end_page: page_count,
        },
    )
}

/// The chapters after a frame of the review: at most one edit, then a new
/// chapter if one is added, and all derived again if anything changed.
pub open spec fn reviewed(
    cs: Seq<ChapterView>,
    page_count: int,
    edit: Option<Edit>,
    add: bool,
    changed: bool,
) -> Seq<ChapterView> {
    let a = match edit {
        Some(e) => edited(cs, e),
        None => cs,
    };
    let b = if add {
        with_new(a, page_count)
    } else {
        a
    };
    if edit is Some || add || changed {
        recomputed(b, page_count)
    } else {
        b
    }
}

/// The one edit of a frame: moving up goes before moving down, and that before
/// deleting.
pub fn pick_edit(
    up: Option<usize>,
    down: Option<usize>,
    delete: Option<usize>,
) -> (r: Option<Edit>)
    ensures
        r == match (up, down, delete) {
            (Some(i), _, _) => Some(Edit::MoveUp(i)),
            (None, Some(i), _) => Some(Edit::MoveDown(i)),
            (None, None, Some(i)) => Some(Edit::Delete(i)),
            (None, None, None) => None,
        },
{
    match (up, down, delete) {
        (Some(i), _, _) => Some(Edit::MoveUp(i)),
        (None, Some(i), _) => Some(Edit::MoveDown(i)),
        (None, None, Some(i)) => Some(Edit::Delete(i)),
        (None, None, None) => None,
    }
}

fn swap_chapters(v: &mut Vec<Chapter>, i: usize, j: usize)
    requires
        i < old(v)@.len(),
        j < old(v)@.len(),
    ensures
        model::chapters(final(v)@) == swapped_at(
            model::chapters(old(v)@),
            i as int,
            j as int,
        ),
        final(v)@.len() == old(v)@.len(),
{
    let a = v[i].clone();
    let b = v[j].clone();
    v.set(i, b);
    v.set(j, a);
    assert(model::chapters(v@) =~= swapped_at(model::chapters(old(v)@), i as int, j as int));
}

/// Apply one frame of the review to a chapter list.
pub fn review_chapters(
    chapters: &Vec<Chapter>,
    page_count: usize,
    edit: Option<Edit>,
    add: bool,
    changed: bool,
) -> (r: Vec<Chapter>)
    requires
        page_count >= 1,
        edit matches Some(e) ==> possible(e, chapters@.len() as int),
        add ==> chapters@.len() < usize::MAX,
    ensures
        model::chapters(r@) == reviewed(
            model::chapters(chapters@),
            page_count as int,
            edit,
            add,
            changed,
        ),
{
    let count: usize = chapters.len();
    let mut list = model::copy_chapters(chapters);
    let ghost cs = model::chapters(chapters@);
    assert(model::chapters(list@).len() == list@.len());
    assert(cs.len() == chapters@.len());
    if let Some(e) = edit {
        match e {
            Edit::MoveUp(i) => swap_chapters(&mut list, i, i - 1),
            Edit::MoveDown(i) => swap_chapters(&mut list, i, i + 1),
            Edit::Delete(i) => {
                let gone = list.remove(i);
                assert(model::chapters(list@) =~= cs.remove(i as int));
            },
        }
    }
    if add {
        let n: usize = list.len();
        let ghost before = model::chapters(list@);
        assert(before.len() == n);
        let start: usize = if n == 0 {
            1
        } else {
            let last: usize = list[n - 1].start_page;
            assert(before.last().start_page == last);
            if last < page_count {
                last + 1
            } else {
                page_count
            }
        };
        let c = Chapter {
            order: n + 1,
            title: "New Chapter".to_owned(),
            start_page: start,
            end_page: page_count,
        };
        list.push(c);
        assert(model::chapters(list@) =~= with_new(before, page_count as int));
    }
    if edit.is_some() || add || changed {
        recompute(&list, page_count)
    } else {
        list
    }
}

/// Moving a chapter up and then down again brings the order back.
pub proof fn moving_back(cs: Seq<ChapterView>, i: usize)
    requires
        0 < i < cs.len(),
    ensures
        edited(edited(cs, Edit::MoveUp(i)), Edit::MoveDown((i - 1) as usize)) == cs,
{
    assert(edited(edited(cs, Edit::MoveUp(i)), Edit::MoveDown((i - 1) as usize)) =~= cs);
}

// ---------- Names ----------

/// A voice that can be chosen.
#[derive(Debug)]
pub struct VoiceChoice {
    pub id: String,
    pub lang: String,
    pub label: String,
}

/// What the voice with this name is called, if it is one of the choices.
pub open spec fn known_label(id: Seq<char>) -> Option<Seq<char>> {
    if id == "bm_george"@ {
        Some("George — British male"@)
    } else if id == "bf_emma"@ {
        Some("Emma — British female"@)
    } else if id == "am_adam"@ {
        Some("Adam — American male"@)
    } else if id == "af_heart"@ {
        Some("Heart — American female"@)
    } else {
        None
    }
}

fn choice(id: &str, lang: &str, label: &str) -> (r: VoiceChoice)
    ensures
        r.id@ == id@,
        r.lang@ == lang@,
        r.label@ == label@,
{
    VoiceChoice { id: id.to_owned(), lang: lang.to_owned(), label: label.to_owned() }
}

/// The voices that can be chosen, the proven one first.
pub fn voices() -> (r: Vec<VoiceChoice>)
    ensures
        r@.len() == 4,
        r@[0].id@ == "bm_george"@ && r@[0].lang@ == "b"@,
        r@[1].id@ == "bf_emma"@ && r@[1].lang@ == "b"@,
        r@[2].id@ == "am_adam"@ && r@[2].lang@ == "a"@,
        r@[3].id@ == "af_heart"@ && r@[3].lang@ == "a"@,
        r@[0].label@ == "George — British male"@,
        r@[1].label@ == "Emma — British female"@,
        r@[2].label@ == "Adam — American male"@,
        r@[3].label@ == "Heart — American female"@,
{
    let mut out: Vec<VoiceChoice> = Vec::new();
    out.push(choice("bm_george", "b", "George — British male"));
    out.push(choice("bf_emma", "b", "Emma — British female"));
    out.push(choice("am_adam", "a", "Adam — American male"));
    out.push(choice("af_heart", "a", "Heart — American female"));
    out
}

/// What a voice is called; one that is no choice goes by its own name.
pub fn voice_label(id: &str) -> (r: String)
    ensures
        r@ == match known_label(id@) {
            Some(l) => l,
            None => id@,
        },
{
    let name = chars_of(id);
    if is_text(name.as_slice(), "bm_george") {
        "George — British male".to_owned()
    } else if is_text(name.as_slice(), "bf_emma") {
        "Emma — British female".to_owned()
    } else if is_text(name.as_slice(), "am_adam") {
        "Adam — American male".to_owned()
    } else if is_text(name.as_slice(), "af_heart") {
        "Heart — American female".to_owned()
    } else {
        id.to_owned()
    }
}

/// The first text of a list that holds another.
pub open spec fn first_with(list: Seq<Seq<char>>, part: Seq<char>) -> Option<Seq<char>>
    decreases list.len(),
{
    if list.len() == 0 {
        None
    } else if text::contains(list[0], part) {
        Some(list[0])
    } else {
        first_with(list.skip(1), part)
    }
}

/// The first of the models that one of these words fits, the words tried in
/// their order.
pub open spec fn preferred(
    models: Seq<Seq<char>>,
    words: Seq<Seq<char>>,
) -> Option<Seq<char>>
    decreases words.len(),
{
    if words.len() == 0 {
        None
    } else {
        match first_with(models, words[0]) {
            Some(m) => Some(m),
            None => preferred(models, words.skip(1)),
        }
    }
}

/// The words by which a model is preferred, the most specific first.
pub open spec fn preferences() -> Seq<Seq<char>> {
    seq![
        "gemma4:e2b-mlx"@,
        "gemma4:e2b"@,
        "gemma"@,
        "llama"@,
        "qwen"@,
        "mistral"@,
        "deepseek"@,
    ]
}

/// The model that is chosen at first: a preferred one, or else the first, or
/// none.
pub open spec fn default_model(models: Seq<Seq<char>>) -> Seq<char> {
    match preferred(models, preferences()) {
        Some(m) => m,
        None => if models.len() > 0 {
            models[0]
        } else {
            seq![]
        },
    }
}

fn find_with(models: &[String], part: &str) -> (r: Option<String>)
    ensures
        match r {
            Some(m) => first_with(text::texts(models@), part@) == Some(m@),
            None => first_with(text::texts(models@), part@) is None,
        },
{
    let ghost ms = text::texts(models@);
    let want = chars_of(part);
    proof {
        assert(ms.skip(0) =~= ms);
    }
    for i in 0..models.len()
        invariant
            ms == text::texts(models@),
            want@ == part@,
            first_with(ms, part@) == first_with(ms.skip(i as int), part@),
    {
        proof {
            assert(ms.skip(i as int)[0] == models@[i as int]@);
            assert(ms.skip(i as int).skip(1) =~= ms.skip(i + 1));
        }
        if has(chars_of(models[i].as_str()).as_slice(), want.as_slice()) {
            return Some(models[i].clone());
        }
    }
    None
}

/// Choose a model: small and fast ones first, and of those the accelerated
/// build before the plain one.
pub fn pick_model_default(models: &[String]) -> (r: String)
    ensures
        r@ == default_model(text::texts(models@)),
{
    let ghost ms = text::texts(models@);
    let words: [&str; 7] = [
        "gemma4:e2b-mlx",
        "gemma4:e2b",
        "gemma",
        "llama",
        "qwen",
        "mistral",
        "deepseek",
    ];
    proof {
        assert(words@.map_values(|w: &str| w@) =~= preferences());
        assert(preferences().skip(0) =~= preferences());
    }
    for i in 0..7usize
        invariant
            ms == text::texts(models@),
            words@.map_values(|w: &str| w@) == preferences(),
            preferred(ms, preferences()) == preferred(ms, preferences().skip(i as int)),
    {
        proof {
            assert(preferences()[i as int] == words@[i as int]@);
            assert(preferences().skip(i as int)[0] == preferences()[i as int]);
            assert(preferences().skip(i as int).skip(1) =~= preferences().skip(i + 1));
        }
        if let Some(m) = find_with(models, words[i]) {
            return m;
        }
    }
    assert(preferences().skip(7) =~= seq![]);
    if models.len() > 0 {
        models[0].clone()
    } else {
        String::new()
    }
}

proof fn lemma_first_with(list: Seq<Seq<char>>, part: Seq<char>)
    ensures
        match first_with(list, part) {
            Some(m) => list.contains(m) && text::contains(m, part),
            None => forall|i: int|
                0 <= i < list.len() ==> !text::contains(#[trigger] list[i], part),
        },
    decreases list.len(),
{
    if list.len() > 0 {
        if text::contains(list[0], part) {
            assert(list.contains(list[0]));
        } else {
            let rest = list.skip(1);
            lemma_first_with(rest, part);
            match first_with(list, part) {
                Some(m) => {
                    let k = rest.index_of(m);
                    assert(list[k + 1] == m);
                },
                None => {
                    assert forall|i: int| 0 <= i < list.len() implies !text::contains(
                        #[trigger] list[i],
                        part,
                    ) by {
                        if i > 0 {
                            assert(rest[i - 1] == list[i]);
                        }
                    }
                },
            }
        }
    }
}

proof fn lemma_preferred(models: Seq<Seq<char>>, words: Seq<Seq<char>>)
    ensures
        preferred(models, words) matches Some(m) ==> models.contains(m),
    decreases words.len(),
{
    if words.len() > 0 {
        lemma_first_with(models, words[0]);
        lemma_preferred(models, words.skip(1));
    }
}

/// The model that is chosen is an installed one, wherever there is any.
pub proof fn default_model_is_installed(models: Seq<Seq<char>>)
    requires
        models.len() > 0,
    ensures
        models.contains(default_model(models)),
{
    lemma_preferred(models, preferences());
    assert(models.contains(models[0]));
}

/// The accelerated build is chosen wherever it is installed, in whatever order
/// the models come.
pub proof fn accelerated_build_wins(models: Seq<Seq<char>>, i: int)
    requires
        0 <= i < models.len(),
        text::contains(models[i], "gemma4:e2b-mlx"@),
    ensures
        text::contains(default_model(models), "gemma4:e2b-mlx"@),
{
    lemma_first_with(models, preferences()[0]);
}

/// The text without every ending of this kind at its end.
pub open spec fn without_endings(s: Seq<char>, end: Seq<char>) -> Seq<char>
    decreases s.len(),
{
    if end.len() > 0 && text::ends_with(s, end) {
        without_endings(s.take(s.len() - end.len()), end)
    } else {
        s
    }
}

/// The title of a book from the name of its file.
pub fn title_from_filename(name: &str) -> (r: String)
    ensures
        r@ == text::swap(without_endings(name@, ".pdf"@), CharClass::NameSpacer, ' '),
{
    let all = chars_of(name);
    let end = chars_of(".pdf");
    proof {
        reveal_strlit(".pdf");
    }
    let mut n: usize = all.len();
    proof {
        assert(all@.take(n as int) =~= all@);
    }
    while ends_with_text(slice_subrange(all.as_slice(), 0, n), end.as_slice())
        invariant
            n <= all@.len(),
            end@ == ".pdf"@,
            end@.len() == 4,
            without_endings(all@, end@) == without_endings(all@.take(n as int), end@),
            all@.subrange(0, n as int) == all@.take(n as int),
        decreases n,
    {
        proof {
            let t = all@.take(n as int);
            assert(t.take(t.len() - 4) =~= all@.take(n - 4));
            assert(all@.subrange(0, n - 4) =~= all@.take(n - 4));
        }
        n = n - 4;
    }
    let title = swapped(
        slice_subrange(all.as_slice(), 0, n),
        CharClass::NameSpacer,
        ' ',
    );
    string_of(title.as_slice())
}

/// The name of the folder for the output, next to the document.
pub fn output_folder(stem: &str) -> (r: String)
    ensures
        r@ == stem@ + " - Audiobook"@,
{
    let mut out = chars_of(stem);
    append_str(&mut out, " - Audiobook");
    string_of(out.as_slice())
}

// ---------- The state behind the window ----------

/// The screens.
#[derive(Debug, Clone, Copy, PartialEq, Eq, Structural)]
pub enum Stage {
    Drop,
    Review,
    Running,
    Done,
}

/// All that the window shows.
#[derive(Debug)]
pub struct Studio {
    pub stage: Stage,
    pub busy: bool,
    pub error: Option<String>,
    pub status: String,
    pub book: Option<BookInfo>,
    pub models: Vec<String>,
    pub model: String,
    pub chapters: Vec<Chapter>,
    pub voice: VoiceConfig,
    pub title: String,
    pub author: String,
    pub out_dir: String,
    pub polish: bool,
    pub ollama_up: bool,
    pub progress: Option<Progress>,
    pub result_path: Option<String>,
    pub model_downloading: bool,
    pub model_failed: bool,
}

/// The state as plain values.
pub struct StudioView {
    pub stage: Stage,
    pub busy: bool,
    pub error: Option<Seq<char>>,
    pub status: Seq<char>,
    pub book: Option<BookView>,
    pub models: Seq<Seq<char>>,
    pub model: Seq<char>,
    pub chapters: Seq<ChapterView>,
    pub voice: VoiceView,
    pub title: Seq<char>,
    pub author: Seq<char>,
    pub out_dir: Seq<char>,
    pub polish: bool,
    pub ollama_up: bool,
    pub progress: Option<ProgressView>,
    pub result_path: Option<Seq<char>>,
    pub model_downloading: bool,
    pub model_failed: bool,
}

impl View for Studio {
    type V = StudioView;

    open spec fn view(&self) -> StudioView {
        StudioView {
            stage: self.stage,
            busy: self.busy,
            error: model::optional(self.error),
            status: self.status@,
            book: match self.book {
                Some(b) => Some(b@),
                None => None,
            },
            models: text::texts(self.models@),
            model: self.model@,
            chapters: model::chapters(self.chapters@),
            voice: self.voice@,
            title: self.title@,
            author: self.author@,
            out_dir: self.out_dir@,
            polish: self.polish,
            ollama_up: self.ollama_up,
            progress: match self.progress {
                Some(p) => Some(p@),
                None => None,
            },
            result_path: model::optional(self.result_path),
            model_downloading: self.model_downloading,
            model_failed: self.model_failed,
        }
    }
}

/// What the background work sends to the window.
#[derive(Debug)]
pub enum Msg {
    /// The facts about a document, and the folder for its output.
    Inspected(BookInfo, String),
    Chapters(Vec<Chapter>),
    Progress(Progress),
    Done(String),
    Error(String),
    /// The download of the voice ended, and whether it failed.
    ModelReady(bool),
}

/// What chapter detection is started with.
#[derive(Debug)]
pub struct DetectRequest {
    pub path: String,
    pub model: String,
}

/// The number of pages, one at least.
pub open spec fn page_count_of(book: Option<BookView>) -> int {
    match book {
        Some(b) => split::max(b.page_count, 1),
        None => 1,
    }
}

/// The texts between the commas of a list, none for an empty one.
pub open spec fn listed(message: Seq<char>) -> Seq<Seq<char>> {
    if message.len() == 0 {
        seq![]
    } else {
        text::split(message, seq![','])
    }
}

/// A new value where there is none yet.
pub open spec fn or_else(t: Seq<char>, other: Seq<char>) -> Seq<char> {
    if t.len() == 0 {
        other
    } else {
        t
    }
}

/// The state after a report. One about the models brings their list.
pub open spec fn after_progress(s: StudioView, p: ProgressView) -> StudioView {
    if p.stage == "__models__"@ {
        let models = listed(p.message);
        StudioView {
            models,
            ollama_up: models.len() > 0,
            model: or_else(s.model, default_model(models)),
            ..s
        }
    } else {
        StudioView { progress: Some(p), ..s }
    }
}

/// The state after a document was inspected: title and folder are filled in
/// where they are empty, and chapter detection starts.
pub open spec fn after_inspected(s: StudioView, b: BookView, folder: Seq<char>) -> StudioView {
    StudioView {
        busy: true,
        error: None,
        title: or_else(
            s.title,
            text::swap(without_endings(b.file_name, ".pdf"@), CharClass::NameSpacer, ' '),
        ),
        out_dir: or_else(s.out_dir, folder),
        book: Some(b),
        ..s
    }
}

/// The state after the chapters were found: they are shown for review.
pub open spec fn after_chapters(s: StudioView, cs: Seq<ChapterView>) -> StudioView {
    StudioView {
        busy: false,
        chapters: recomputed(cs, page_count_of(s.book)),
        stage: Stage::Review,
        ..s
    }
}

/// The state after an error: a running narration goes back to the review.
pub open spec fn after_error(s: StudioView, e: Seq<char>) -> StudioView {
    StudioView {
        busy: false,
        error: Some(e),
        stage: if s.stage == Stage::Running {
            Stage::Review
        } else {
            s.stage
        },
        ..s
    }
}

/// The state after a message.
pub open spec fn after(s: StudioView, msg: Msg) -> StudioView {
    match msg {
        Msg::Progress(p) => after_progress(s, p@),
        Msg::Inspected(b, folder) => after_inspected(s, b@, folder@),
        Msg::Chapters(cs) => after_chapters(s, model::chapters(cs@)),
        Msg::Done(path) => StudioView {
            busy: false,
            result_path: Some(path@),
            stage: Stage::Done,
            ..s
        },
        Msg::Error(e) => after_error(s, e@),
        Msg::ModelReady(failed) => StudioView {
            model_downloading: false,
            model_failed: failed,
            ..s
        },
    }
}

/// The request that a state makes.
pub open spec fn request_of(s: StudioView, b: BookView) -> RequestView {
    RequestView {
        pdf_path: b.path,
        out_dir: s.out_dir,
        chapters: s.chapters,
        voice: s.voice,
        book_title: s.title,
        author: s.author,
        polish: s.polish,
        polish_model: if s.model.len() == 0 {
            None
        } else {
            Some(s.model)
        },
    }
}

fn is_empty(s: &String) -> (r: bool)
    ensures
        r == (s@.len() == 0),
{
    chars_of(s.as_str()).len() == 0
}

impl Studio {
    /// The studio at the start: nothing is loaded, and transcripts are polished.
    pub fn new() -> (r: Self)
        ensures
            r.stage == Stage::Drop,
            !r.busy,
            r.error is None,
            r.status@.len() == 0,
            r.book is None,
            r.models@.len() == 0,
            r.model@.len() == 0,
            r.chapters@.len() == 0,
            r.voice.voice@ == "bm_george"@,
            r.voice.lang@ == "b"@,
            r.voice.speed_bits == 0x3f80_0000,
            r.title@.len() == 0,
            r.author@.len() == 0,
            r.out_dir@.len() == 0,
            r.polish,
            !r.ollama_up,
            r.progress is None,
            r.result_path is None,
            !r.model_downloading,
            !r.model_failed,
    {
        Studio {
            stage: Stage::Drop,
            busy: false,
            error: None,
            status: String::new(),
            book: None,
            models: Vec::new(),
            model: String::new(),
            chapters: Vec::new(),
            voice: VoiceConfig::default(),
            title: String::new(),
            author: String::new(),
            out_dir: String::new(),
            polish: true,
            ollama_up: false,
            progress: None,
            result_path: None,
            model_downloading: false,
            model_failed: false,
        }
    }

    fn page_count(&self) -> (r: usize)
        ensures
            r == page_count_of(self@.book),
            r >= 1,
    {
        match &self.book {
            Some(b) => if b.page_count > 1 {
                b.page_count
            } else {
                1
            },
            None => 1,
        }
    }

    /// Start to read a document.
    pub fn load_pdf(&mut self, path: &str)
        ensures
            final(self)@ == (StudioView {
                busy: true,
                error: None,
                status: "Reading "@ + path@ + "…"@,
                ..old(self)@
            }),
    {
        self.busy = true;
        self.error = None;
        let mut status = chars_of("Reading ");
        append_str(&mut status, path);
        append_str(&mut status, "…");
        self.status = string_of(status.as_slice());
    }

    /// Start to detect the chapters of the document, if there is one.
    pub fn detect_chapters(&mut self) -> (r: Option<DetectRequest>)
        ensures
            match old(self)@.book {
                Some(b) => r matches Some(q) && q.path@ == b.path && q.model@ == old(self)@.model
                    && final(self)@ == (StudioView { busy: true, error: None, ..old(self)@ }),
                None => r is None && final(self)@ == old(self)@,
            },
    {
        let path = match &self.book {
            Some(b) => b.path.clone(),
            None => {
                return None;
            },
        };
        self.busy = true;
        self.error = None;
        Some(DetectRequest { path, model: self.model.clone() })
    }

    /// Start to narrate, if there is a document.
    pub fn generate(&mut self) -> (r: Option<GenerateRequest>)
        ensures
            match old(self)@.book {
                Some(b) => r matches Some(q) && q@ == request_of(old(self)@, b) && final(self)@
                    == (StudioView {
                    busy: true,
                    error: None,
                    progress: None,
                    stage: Stage::Running,
                    ..old(self)@
                }),
                None => r is None && final(self)@ == old(self)@,
            },
    {
        let pdf_path = match &self.book {
            Some(b) => b.path.clone(),
            None => {
                return None;
            },
        };
        self.busy = true;
        self.error = None;
        self.progress = None;
        self.stage = Stage::Running;
        Some(
            GenerateRequest {
                pdf_path,
                out_dir: self.out_dir.clone(),
                chapters: model::copy_chapters(&self.chapters),
                voice: self.voice.clone(),
                book_title: self.title.clone(),
                author: self.author.clone(),
                polish: self.polish,
                polish_model: if is_empty(&self.model) {
                    None
                } else {
                    Some(self.model.clone())
                },
            },
        )
    }

    /// Derive the numbers and ends of the chapters again after an edit.
    pub fn recompute_chapters(&mut self)
        ensures
            final(self)@ == (StudioView {
                chapters: recomputed(old(self)@.chapters, page_count_of(old(self)@.book)),
                ..old(self)@
            }),
    {
        let n = self.page_count();
        let list = recompute(&self.chapters, n);
        self.chapters = list;
    }

    /// Does each chapter start on a later page than the one before it? If not,
    /// chapters overlap.
    pub fn chapters_ordered(&self) -> (r: bool)
        ensures
            r == ascending(self@.chapters),
    {
        let ghost cs = self@.chapters;
        let n: usize = self.chapters.len();
        if n < 2 {
            return true;
        }
        for i in 1..n
            invariant
                n == self.chapters@.len(),
                cs == model::chapters(self.chapters@),
                forall|a: int, b: int|
                    0 <= a && b == a + 1 && b < i ==> (#[trigger] cs[a]).start_page < (
                    #[trigger] cs[b]).start_page,
        {
            if self.chapters[i - 1].start_page >= self.chapters[i].start_page {
                assert(cs[i - 1].start_page >= cs[i as int].start_page);
                return false;
            }
            assert(cs[i - 1].start_page < cs[i as int].start_page);
        }
        true
    }

    /// Apply one frame of the review: at most one edit, then a new chapter if
    /// one is added.
    pub fn review(&mut self, edit: Option<Edit>, add: bool, changed: bool)
        requires
            edit matches Some(e) ==> possible(e, old(self).chapters@.len() as int),
            add ==> old(self).chapters@.len() < usize::MAX,
        ensures
            final(self)@ == (StudioView {
                chapters: reviewed(
                    old(self)@.chapters,
                    page_count_of(old(self)@.book),
                    edit,
                    add,
                    changed,
                ),
                ..old(self)@
            }),
    {
        let n = self.page_count();
        let list = review_chapters(&self.chapters, n, edit, add, changed);
        self.chapters = list;
    }

    /// Choose a voice.
    pub fn choose_voice(&mut self, id: &str, lang: &str)
        ensures
            final(self)@ == (StudioView {
                voice: VoiceView { voice: id@, lang: lang@, ..old(self)@.voice },
                ..old(self)@
            }),
    {
        self.voice.voice = id.to_owned();
        self.voice.lang = lang.to_owned();
    }

    /// Can the narration start?
    pub fn can_go(&self) -> (r: bool)
        ensures
            r == (self@.chapters.len() > 0 && self@.out_dir.len() > 0 && !self@.busy),
    {
        assert(self@.chapters.len() == self.chapters@.len());
        self.chapters.len() > 0 && !is_empty(&self.out_dir) && !self.busy
    }

    /// Go back to the start and drop the document.
    pub fn back(&mut self)
        ensures
            final(self)@ == (StudioView {
                stage: Stage::Drop,
                book: None,
                chapters: seq![],
                ..old(self)@
            }),
    {
        self.stage = Stage::Drop;
        self.book = None;
        self.chapters = Vec::new();
        assert(self@.chapters =~= seq![]);
    }

    /// Start over after a finished narration.
    pub fn another(&mut self)
        ensures
            final(self)@ == (StudioView {
                stage: Stage::Drop,
                book: None,
                chapters: seq![],
                result_path: None,
                progress: None,
                ..old(self)@
            }),
    {
        self.back();
        self.result_path = None;
        self.progress = None;
    }

    /// Is a dropped file read? Only a PDF is, and only while nothing runs.
    pub fn accepts_drop(&self, extension: Option<&str>) -> (r: bool)
        ensures
            r == (!self@.busy && (extension matches Some(e) && e@ == "pdf"@)),
    {
        match extension {
            Some(e) => !self.busy && is_text(chars_of(e).as_slice(), "pdf"),
            None => false,
        }
    }

    /// Start the download of the voice, unless it is there.
    pub fn warm_if_needed(&mut self, present: bool) -> (download: bool)
        ensures
            download == !present,
            final(self)@ == (StudioView {
                model_downloading: if present {
                    old(self)@.model_downloading
                } else {
                    true
                },
                ..old(self)@
            }),
    {
        if present {
            return false;
        }
        self.model_downloading = true;
        true
    }

    fn take_models(&mut self, message: &String)
        ensures
            final(self)@ == (StudioView {
                models: listed(message@),
                ollama_up: listed(message@).len() > 0,
                model: or_else(old(self)@.model, default_model(listed(message@))),
                ..old(self)@
            }),
    {
        let all = chars_of(message.as_str());
        let mut models: Vec<String> = Vec::new();
        assert(text::texts(models@) =~= seq![]);
        if all.len() > 0 {
            let mut comma: Vec<char> = Vec::new();
            comma.push(',');
            assert(comma@ =~= seq![',']);
            let parts = split_at_each(all.as_slice(), comma.as_slice());
            models = strings_of(&text::rows_from(&parts));
        }
        assert(text::texts(models@).len() == models@.len());
        self.ollama_up = models.len() > 0;
        if is_empty(&self.model) {
            self.model = pick_model_default(models.as_slice());
        }
        self.models = models;
    }

    /// Take one message of the background work. A document that was read is
    /// searched for chapters at once: the answer is what that starts with.
    pub fn handle(&mut self, msg: Msg) -> (r: Option<DetectRequest>)
        ensures
            final(self)@ == after(old(self)@, msg),
            match msg {
                Msg::Inspected(b, _) => r matches Some(q) && q.path@ == b.path@ && q.model@
                    == old(self)@.model,
                _ => r is None,
            },
    {
        match msg {
            Msg::Progress(p) => {
                if is_text(chars_of(p.stage.as_str()).as_slice(), "__models__") {
                    self.take_models(&p.message);
                } else {
                    self.progress = Some(p);
                }
                None
            },
            Msg::Inspected(info, folder) => {
                if is_empty(&self.title) {
                    self.title = title_from_filename(info.file_name.as_str());
                }
                if is_empty(&self.out_dir) {
                    self.out_dir = folder;
                }
                self.book = Some(info);
                self.detect_chapters()
            },
            Msg::Chapters(list) => {
                self.busy = false;
                self.chapters = list;
                self.recompute_chapters();
                self.stage = Stage::Review;
                None
            },
            Msg::Done(path) => {
                self.busy = false;
                self.result_path = Some(path);
                self.stage = Stage::Done;
                None
            },
            Msg::Error(e) => {
                self.busy = false;
                self.error = Some(e);
                if self.stage == Stage::Running {
                    self.stage = Stage::Review;
                }
                None
            },
            Msg::ModelReady(failed) => {
                self.model_downloading = false;
                self.model_failed = failed;
                None
            },
        }
    }

    /// Take the messages of the background work in their order. The answer is
    /// what chapter detection starts with, for each document that was read.
    pub fn pump(&mut self, msgs: Vec<Msg>) -> (r: Vec<DetectRequest>)
        ensures
            final(self)@ == after_all(old(self)@, msgs@),
            starts(r@) == all_starts(old(self)@, msgs@),
    {
        let ghost start = self@;
        let ghost all = msgs@;
        let mut queue = msgs;
        let mut out: Vec<DetectRequest> = Vec::new();
        proof {
            assert(all.skip(0) =~= all);
            assert(starts(out@) =~= seq![]);
            assert(starts(out@) + all_starts(start, all) =~= all_starts(start, all));
        }
        let n: usize = queue.len();
        let mut i: usize = 0;
        while i < n
            invariant
                i <= n,
                n == all.len(),
                queue@ == all.skip(i as int),
                after_all(start, all) == after_all(self@, all.skip(i as int)),
                all_starts(start, all) == starts(out@) + all_starts(self@, all.skip(i as int)),
            decreases n - i,
        {
            let msg = queue.remove(0);
            proof {
                assert(all.skip(i as int)[0] == msg);
                assert(all.skip(i as int).skip(1) =~= all.skip(i + 1));
                assert(queue@ =~= all.skip(i + 1));
            }
            let ghost before = self@;
            let ghost done = starts(out@);
            if let Some(q) = self.handle(msg) {
                proof {
                    assert(starts(out@.push(q)) =~= starts(out@).push((q.path@, q.model@)));
                }
                out.push(q);
            }
            proof {
                let rest = all_starts(self@, all.skip(i + 1));
                assert(starts(out@) =~= done + start_of(before, msg));
                assert(done + (start_of(before, msg) + rest) =~= done + start_of(before, msg)
                    + rest);
            }
            i = i + 1;
        }
        proof {
            assert(all.skip(n as int) =~= seq![]);
            assert(starts(out@) + Seq::<(Seq<char>, Seq<char>)>::empty() =~= starts(out@));
        }
        out
    }
}

/// The state after some messages.
pub open spec fn after_all(s: StudioView, msgs: Seq<Msg>) -> StudioView
    decreases msgs.len(),
{
    if msgs.len() == 0 {
        s
    } else {
        after_all(after(s, msgs[0]), msgs.skip(1))
    }
}

/// The path and the model of each request.
pub open spec fn starts(v: Seq<DetectRequest>) -> Seq<(Seq<char>, Seq<char>)> {
    v.map_values(|q: DetectRequest| (q.path@, q.model@))
}

/// The detection that a message starts: a document that was read is searched
/// with the chosen model.
pub open spec fn start_of(s: StudioView, msg: Msg) -> Seq<(Seq<char>, Seq<char>)> {
    match msg {
        Msg::Inspected(b, _) => seq![(b.path@, s.model)],
        _ => seq![],
    }
}

/// The detections that some messages start.
pub open spec fn all_starts(s: StudioView, msgs: Seq<Msg>) -> Seq<(Seq<char>, Seq<char>)>
    decreases msgs.len(),
{
    if msgs.len() == 0 {
        seq![]
    } else {
        start_of(s, msgs[0]) + all_starts(after(s, msgs[0]), msgs.skip(1))
    }
}

/// Whatever comes back, the window does not stay in a running narration with
/// nothing to wait for: a result shows it as done, and an error brings the
/// review back.
pub proof fn narration_comes_to_an_end(s: StudioView, msg: Msg)
    requires
        s.stage == Stage::Running,
        msg is Done || msg is Error,
    ensures
        after(s, msg).stage != Stage::Running,
        !after(s, msg).busy,
        msg is Error ==> after(s, msg).stage == Stage::Review && after(s, msg).chapters
            == s.chapters,
{
}

/// The title, the folder and the model that the user has set are kept.
pub proof fn choices_are_kept(s: StudioView, msg: Msg)
    ensures
        s.title.len() > 0 ==> after(s, msg).title == s.title,
        s.out_dir.len() > 0 ==> after(s, msg).out_dir == s.out_dir,
        s.model.len() > 0 ==> after(s, msg).model == s.model,
        after(s, msg).voice == s.voice,
        after(s, msg).polish == s.polish,
        after(s, msg).author == s.author,
{
}

// ---------- What the window says ----------

/// Stage and message of a report.
pub fn caption(p: &Progress) -> (r: String)
    ensures
        r@ == p@.stage + " · "@ + p@.message,
{
    let mut out = chars_of(p.stage.as_str());
    append_str(&mut out, " · ");
    append_str(&mut out, p.message.as_str());
    string_of(out.as_slice())
}

/// The step of a report that has more than one.
pub fn counter(p: &Progress) -> (r: Option<String>)
    ensures
        match r {
            Some(t) => p.total > 1 && t@ == text::decimal(p.current as nat) + "/"@ + text::decimal(
                p.total as nat,
            ),
            None => p.total <= 1,
        },
{
    if p.total > 1 {
        let mut out: Vec<char> = text::decimal_of(p.current as u64);
        append_str(&mut out, "/");
        append_decimal(&mut out, p.total as u64);
        Some(string_of(out.as_slice()))
    } else {
        None
    }
}

/// What is known of the model server.
#[derive(Debug, Clone, Copy, PartialEq, Eq, Structural)]
pub enum ServerLight {
    Checking,
    Online,
    Offline,
}

/// The light for the model server.
pub fn server_light(s: &Studio) -> (r: ServerLight)
    ensures
        r == if !s@.ollama_up && s@.models.len() == 0 {
            ServerLight::Checking
        } else if s@.ollama_up {
            ServerLight::Online
        } else {
            ServerLight::Offline
        },
{
    assert(s@.models.len() == s.models@.len());
    if !s.ollama_up && s.models.len() == 0 {
        ServerLight::Checking
    } else if s.ollama_up {
        ServerLight::Online
    } else {
        ServerLight::Offline
    }
}

/// The words next to the light.
pub fn light_label(light: ServerLight) -> (r: String)
    ensures
        r@ == match light {
            ServerLight::Checking => "Ollama: checking…"@,
            ServerLight::Online => "Ollama: online"@,
            ServerLight::Offline => "Ollama: offline"@,
        },
{
    match light {
        ServerLight::Checking => "Ollama: checking…".to_owned(),
        ServerLight::Online => "Ollama: online".to_owned(),
        ServerLight::Offline => "Ollama: offline".to_owned(),
    }
}

/// The line above the chapter list.
pub fn review_summary(count: usize) -> (r: String)
    ensures
        r@ == text::decimal(count as nat)
            + " chapters. Rename, reorder, set each chapter's start page, add or delete rows. End pages follow the next chapter's start."@,
{
    let mut out = text::decimal_of(count as u64);
    append_str(
        &mut out,
        " chapters. Rename, reorder, set each chapter's start page, add or delete rows. End pages follow the next chapter's start.",
    );
    string_of(out.as_slice())
}

// ---------- What the studio keeps ----------

/// Deriving a list again keeps every chapter in its place with its title, and
/// its start as far as the book has that page; a list whose starts ascend within
/// the book keeps them all, and each chapter ends right before the next one.
pub proof fn recomputing_keeps_chapters(cs: Seq<ChapterView>, page_count: int, i: int)
    requires
        page_count >= 1,
        0 <= i < cs.len(),
    ensures
        ({
            let r = recomputed(cs, page_count);
            &&& r.len() == cs.len()
            &&& r[i].title == cs[i].title
            &&& 1 <= cs[i].start_page <= page_count ==> r[i].start_page == cs[i].start_page
            &&& cs[i].start_page < 1 ==> r[i].start_page == 1
            &&& cs[i].start_page > page_count ==> r[i].start_page == page_count
            &&& i + 1 < cs.len() && 1 <= cs[i].start_page < cs[i + 1].start_page <= page_count
                ==> r[i].end_page == cs[i + 1].start_page - 1
        }),
{
}

/// A chapter that is moved changes places with its neighbour, and one that is
/// deleted is gone; the others stay in order.
pub proof fn edits_touch_what_they_name(cs: Seq<ChapterView>, e: Edit, k: int)
    requires
        possible(e, cs.len() as int),
        0 <= k < cs.len(),
    ensures
        match e {
            Edit::MoveUp(i) => {
                &&& edited(cs, e).len() == cs.len()
                &&& edited(cs, e)[k] == cs[if k == i {
                    i - 1
                } else if k == i - 1 {
                    i as int
                } else {
                    k
                }]
            },
            Edit::MoveDown(i) => {
                &&& edited(cs, e).len() == cs.len()
                &&& edited(cs, e)[k] == cs[if k == i {
                    i + 1
                } else if k == i + 1 {
                    i as int
                } else {
                    k
                }]
            },
            Edit::Delete(i) => {
                &&& edited(cs, e).len() == cs.len() - 1
                &&& k < i ==> edited(cs, e)[k] == cs[k]
                &&& k > i ==> edited(cs, e)[k - 1] == cs[k]
            },
        },
{
}

/// The first chapter cannot move up, the last one cannot move down, and the only
/// one cannot be deleted; anything else that names a chapter can be done.
pub proof fn edits_that_can_be_made(n: int, i: usize)
    requires
        n >= 0,
    ensures
        possible(Edit::MoveUp(i), n) <==> i < n && i != 0,
        possible(Edit::MoveDown(i), n) <==> i < n && i != n - 1,
        possible(Edit::Delete(i), n) <==> i < n && n != 1,
{
}

/// A new chapter comes behind the others and starts on the page after the last
/// one's start, as far as the book has it.
pub proof fn new_chapter_comes_last(cs: Seq<ChapterView>, page_count: int)
    requires
        page_count >= 1,
    ensures
        ({
            let r = with_new(cs, page_count);
            &&& r.len() == cs.len() + 1
            &&& r.drop_last() == cs
            &&& r.last().title == "New Chapter"@
            &&& r.last().start_page <= page_count
            &&& cs.len() == 0 ==> r.last().start_page == 1
            &&& cs.len() > 0 && cs.last().start_page < page_count ==> r.last().start_page
                == cs.last().start_page + 1
        }),
{
    assert(with_new(cs, page_count).drop_last() =~= cs);
}

/// A frame in which nothing was changed leaves the list as it was. After any
/// other the list is numbered from one on, within the book, and as long as the
/// edit and the addition make it.
pub proof fn reviewing_leaves_a_valid_list(
    cs: Seq<ChapterView>,
    page_count: int,
    edit: Option<Edit>,
    add: bool,
    changed: bool,
)
    requires
        page_count >= 1,
        edit matches Some(e) ==> possible(e, cs.len() as int),
    ensures
        ({
            let r = reviewed(cs, page_count, edit, add, changed);
            &&& edit is None && !add && !changed ==> r == cs
            &&& edit is None && !add && changed ==> r == recomputed(cs, page_count)
            &&& edit is Some && !add ==> r == recomputed(edited(cs, edit->0), page_count)
            &&& edit is None && add ==> r == recomputed(with_new(cs, page_count), page_count)
            &&& r.len() == cs.len() - (if edit matches Some(Edit::Delete(_)) {
                1int
            } else {
                0int
            }) + (if add {
                1int
            } else {
                0int
            })
            &&& edit is Some || add || changed ==> forall|i: int|
                0 <= i < r.len() ==> (#[trigger] r[i]).order == i + 1 && 1 <= r[i].start_page
                    <= r[i].end_page <= page_count
        }),
{
    let r = reviewed(cs, page_count, edit, add, changed);
    if edit is Some || add || changed {
        let a = match edit {
            Some(e) => edited(cs, e),
            None => cs,
        };
        let b = if add {
            with_new(a, page_count)
        } else {
            a
        };
        assert forall|i: int| 0 <= i < r.len() implies (#[trigger] r[i]).order == i + 1 && 1
            <= r[i].start_page <= r[i].end_page <= page_count by {
            recomputed_ranges(b, page_count, i);
        }
    }
}

proof fn lemma_first_with_is_first(list: Seq<Seq<char>>, part: Seq<char>, i: int)
    requires
        0 <= i < list.len(),
        text::contains(list[i], part),
        forall|j: int| 0 <= j < i ==> !text::contains(#[trigger] list[j], part),
    ensures
        first_with(list, part) == Some(list[i]),
    decreases i,
{
    if i > 0 {
        assert(!text::contains(list[0], part));
        let rest = list.skip(1);
        assert(rest[i - 1] == list[i]);
        assert forall|j: int| 0 <= j < i - 1 implies !text::contains(#[trigger] rest[j], part) by {
            assert(rest[j] == list[j + 1]);
        }
        lemma_first_with_is_first(rest, part, i - 1);
    }
}

proof fn lemma_preferred_at(models: Seq<Seq<char>>, words: Seq<Seq<char>>, k: int, i: int)
    requires
        0 <= k < words.len(),
        0 <= i < models.len(),
        text::contains(models[i], words[k]),
        forall|j: int| 0 <= j < i ==> !text::contains(#[trigger] models[j], words[k]),
        forall|j: int, m: int|
            0 <= j < models.len() && 0 <= m < k ==> !text::contains(
                #[trigger] models[j],
                #[trigger] words[m],
            ),
    ensures
        preferred(models, words) == Some(models[i]),
    decreases k,
{
    if k == 0 {
        lemma_first_with_is_first(models, words[0], i);
    } else {
        lemma_first_with(models, words[0]);
        if let Some(m) = first_with(models, words[0]) {
            let j = models.index_of(m);
            assert(!text::contains(models[j], words[0]));
        }
        let rest = words.skip(1);
        assert(rest[k - 1] == words[k]);
        assert forall|j: int, m: int| 0 <= j < models.len() && 0 <= m < k - 1 implies !text::contains(
            #[trigger] models[j],
            #[trigger] rest[m],
        ) by {
            assert(rest[m] == words[m + 1]);
        }
        lemma_preferred_at(models, rest, k - 1, i);
    }
}

/// Of the preferred names the first that any model has decides, and of the
/// models that have it the first is taken.
pub proof fn preferences_decide_in_order(models: Seq<Seq<char>>, k: int, i: int)
    requires
        0 <= k < 7,
        0 <= i < models.len(),
        ({
            let names = seq![
                "gemma4:e2b-mlx"@,
                "gemma4:e2b"@,
                "gemma"@,
                "llama"@,
                "qwen"@,
                "mistral"@,
                "deepseek"@,
            ];
            &&& text::contains(models[i], names[k])
            &&& forall|j: int| 0 <= j < i ==> !text::contains(#[trigger] models[j], names[k])
            &&& forall|j: int, m: int|
                0 <= j < models.len() && 0 <= m < k ==> !text::contains(
                    #[trigger] models[j],
                    #[trigger] names[m],
                )
        }),
    ensures
        default_model(models) == models[i],
{
    lemma_preferred_at(models, preferences(), k, i);
}

proof fn lemma_nothing_preferred(models: Seq<Seq<char>>, words: Seq<Seq<char>>)
    requires
        forall|j: int, m: int|
            0 <= j < models.len() && 0 <= m < words.len() ==> !text::contains(
                #[trigger] models[j],
                #[trigger] words[m],
            ),
    ensures
        preferred(models, words) is None,
    decreases words.len(),
{
    if words.len() > 0 {
        lemma_first_with(models, words[0]);
        if let Some(m) = first_with(models, words[0]) {
            let j = models.index_of(m);
            assert(!text::contains(models[j], words[0]));
        }
        let rest = words.skip(1);
        assert forall|j: int, m: int|
            0 <= j < models.len() && 0 <= m < rest.len() implies !text::contains(
            #[trigger] models[j],
            #[trigger] rest[m],
        ) by {
            assert(rest[m] == words[m + 1]);
        }
        lemma_nothing_preferred(models, rest);
    }
}

/// Where no model has a preferred name the first one is taken, and without any
/// model there is none.
pub proof fn any_model_will_do(models: Seq<Seq<char>>)
    requires
        forall|j: int, m: int|
            0 <= j < models.len() && 0 <= m < 7 ==> !text::contains(
                #[trigger] models[j],
                #[trigger] preferences()[m],
            ),
    ensures
        models.len() > 0 ==> default_model(models) == models[0],
        models.len() == 0 ==> default_model(models).len() == 0,
{
    lemma_nothing_preferred(models, preferences());
}

/// The ending of a file name goes from its title, however often it is there, and
/// a name without it stays.
pub proof fn titles_lose_the_ending(name: Seq<char>)
    ensures
        without_endings(name + ".pdf"@, ".pdf"@) == without_endings(name, ".pdf"@),
        !text::ends_with(name, ".pdf"@) ==> without_endings(name, ".pdf"@) == name,
        without_endings(name, ".pdf"@).is_prefix_of(name),
        !text::ends_with(without_endings(name, ".pdf"@), ".pdf"@),
    decreases name.len(),
{
    reveal_strlit(".pdf");
    let end = ".pdf"@;
    let s = name + end;
    let n = name.len() as int;
    assert(s.subrange(n, n + 4) =~= end);
    assert(s.take(n) =~= name);
    if text::ends_with(name, end) {
        titles_lose_the_ending(name.take(n - 4));
    }
}

/// A list of models arrives whole: one that was sent with commas between the
/// names is taken apart into the same names.
pub proof fn model_lists_arrive(names: Seq<Seq<char>>)
    requires
        names.len() > 0,
        forall|i: int| 0 <= i < names.len() ==> !(#[trigger] names[i]).contains(','),
        names.len() == 1 ==> names[0].len() > 0,
    ensures
        listed(text::join(names, ","@)) == names,
        listed(seq![]).len() == 0,
{
    reveal_strlit(",");
    assert(","@ =~= seq![',']);
    text::joined_parts_split_again(names, ',');
    if names.len() > 1 {
        assert(text::join(names, ","@).len() > 0);
    }
}

/// What each message changes: a list of models is kept with one of them chosen,
/// and any other progress is shown; an inspected document is kept; its chapters
/// go to the review; the end of the work is shown. An error is shown as it is.
pub proof fn messages_are_heard(s: StudioView, msg: Msg)
    ensures
        match msg {
            Msg::Progress(p) => {
                &&& p@.stage == "__models__"@ ==> after(s, msg).models == listed(p@.message) && (
                s.model.len() == 0 ==> after(s, msg).model == default_model(listed(p@.message)))
                    && (after(s, msg).ollama_up <==> listed(p@.message).len() > 0) && after(
                    s,
                    msg,
                ).progress == s.progress
                &&& p@.stage != "__models__"@ ==> after(s, msg).progress == Some(p@) && after(
                    s,
                    msg,
                ).models == s.models
                &&& after(s, msg).stage == s.stage && after(s, msg).busy == s.busy
            },
            Msg::Inspected(b, folder) => {
                &&& after(s, msg).book == Some(b@)
                &&& after(s, msg).busy
                &&& s.out_dir.len() == 0 ==> after(s, msg).out_dir == folder@
                &&& after(s, msg).stage == s.stage
            },
            Msg::Chapters(cs) => {
                &&& after(s, msg).chapters.len() == cs@.len()
                &&& after(s, msg).stage == Stage::Review
                &&& !after(s, msg).busy
            },
            Msg::Done(path) => {
                &&& after(s, msg).result_path == Some(path@)
                &&& after(s, msg).stage == Stage::Done
                &&& !after(s, msg).busy
            },
            Msg::Error(e) => {
                &&& after(s, msg).error == Some(e@)
                &&& !after(s, msg).busy
                &&& s.stage != Stage::Running ==> after(s, msg).stage == s.stage
                &&& after(s, msg).chapters == s.chapters && after(s, msg).book == s.book
            },
            Msg::ModelReady(failed) => {
                &&& !after(s, msg).model_downloading
                &&& after(s, msg).model_failed == failed
                &&& after(s, msg).stage == s.stage && after(s, msg).busy == s.busy
            },
        },
        !(msg is Chapters) ==> after(s, msg).chapters == s.chapters,
        !(msg is Inspected) ==> after(s, msg).book == s.book,
        !(msg is Error) && !(msg is Inspected) ==> after(s, msg).error == s.error,
        !(msg is Done) ==> after(s, msg).result_path == s.result_path,
{
}

/// Messages are heard in the order in which they come.
pub proof fn messages_are_heard_in_order(s: StudioView, a: Seq<Msg>, b: Seq<Msg>)
    ensures
        after_all(s, a + b) == after_all(after_all(s, a), b),
        all_starts(s, a + b) == all_starts(s, a) + all_starts(after_all(s, a), b),
    decreases a.len(),
{
    let all = a + b;
    if a.len() == 0 {
        assert(all =~= b);
        assert(all_starts(s, all) =~= all_starts(s, a) + all_starts(after_all(s, a), b));
    } else {
        messages_are_heard_in_order(after(s, a[0]), a.skip(1), b);
        assert(all[0] == a[0]);
        assert(all.skip(1) =~= a.skip(1) + b);
        assert(all_starts(s, all) =~= all_starts(s, a) + all_starts(after_all(s, a), b));
    }
}

/// What is asked of the narration is what the studio shows: every chapter as it
/// stands in the list, the title, the author, the voice and the folder. A model
/// is named only if one is chosen.
pub proof fn requests_carry_what_is_shown(s: StudioView, b: BookView)
    ensures
        ({
            let r = request_of(s, b);
            &&& r.pdf_path == b.path
            &&& r.chapters == s.chapters
            &&& r.book_title == s.title
            &&& r.author == s.author
            &&& r.voice == s.voice
            &&& r.out_dir == s.out_dir
            &&& r.polish == s.polish
            &&& s.model.len() > 0 ==> r.polish_model == Some(s.model)
            &&& s.model.len() == 0 ==> r.polish_model is None
        }),
{
}

/// Chapters are in order exactly where no chapter starts on the page of an
/// earlier one or before it.
pub proof fn ordered_chapters_never_overlap(cs: Seq<ChapterView>)
    ensures
        ascending(cs) <==> forall|i: int, j: int|
            0 <= i < j < cs.len() ==> (#[trigger] cs[i]).start_page < (#[trigger] cs[j]).start_page,
{
    if ascending(cs) {
        assert forall|i: int, j: int| 0 <= i < j < cs.len() implies (#[trigger] cs[i]).start_page
            < (#[trigger] cs[j]).start_page by {
            lemma_ascending(cs, i, j);
        }
    }
}

proof fn lemma_ascending(cs: Seq<ChapterView>, i: int, j: int)
    requires
        ascending(cs),
        0 <= i < j < cs.len(),
    ensures
        cs[i].start_page < cs[j].start_page,
    decreases j - i,
{
    assert(cs[j - 1].start_page < cs[j].start_page);
    if i < j - 1 {
        lemma_ascending(cs, i, j - 1);
    }
}

/// A book without a title is named after its file: without the ending, and with
/// spaces for underscores and hyphens.
pub proof fn untitled_books_are_named_after_their_file(
    s: StudioView,
    b: BookView,
    folder: Seq<char>,
    stem: Seq<char>,
)
    requires
        s.title.len() == 0,
        b.file_name == stem + ".pdf"@,
        !text::ends_with(stem, ".pdf"@),
    ensures
        ({
            let title = after_inspected(s, b, folder).title;
            &&& title.len() == stem.len()
            &&& forall|i: int|
                0 <= i < stem.len() ==> #[trigger] title[i] == if stem[i] == '_' || stem[i] == '-' {
                    ' '
                } else {
                    stem[i]
                }
        }),
{
    titles_lose_the_ending(stem);
}

} // verus!
