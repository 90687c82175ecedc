//! The data that the stages of the pipeline hand to each other.
use vstd::prelude::*;

verus! {

/// A chapter of the book. Pages count from one, and both ends belong to it.
#[derive(Debug)]
pub struct Chapter {
    pub order: usize,
    pub title: String,
    pub start_page: usize,
    pub end_page: usize,
}

/// A chapter as plain values.
pub struct ChapterView {
    pub order: int,
    pub title: Seq<char>,
    pub start_page: int,
    pub end_page: int,
}

impl Clone for Chapter {
    fn clone(&self) -> (r: Self)
        ensures
            r == *self,
    {
        Chapter {
            order: self.order,
            title: self.title.clone(),
            start_page: self.start_page,
            end_page: self.end_page,
        }
    }
}

impl View for Chapter {
    type V = ChapterView;

    open spec fn view(&self) -> ChapterView {
        ChapterView {
            order: self.order as int,
            title: self.title@,
            start_page: self.start_page as int,
            end_page: self.end_page as int,
        }
    }
}

/// Where a chapter begins.
#[derive(Debug)]
pub struct Boundary {
    pub title: String,
    pub start_page: usize,
}

/// A boundary as plain values.
pub struct BoundaryView {
    pub title: Seq<char>,
    pub start_page: int,
}

impl Clone for Boundary {
    fn clone(&self) -> (r: Self)
        ensures
            r == *self,
    {
        Boundary {
            title: self.title.clone(),
            start_page: self.start_page,
        }
    }
}

impl View for Boundary {
    type V = BoundaryView;

    open spec fn view(&self) -> BoundaryView {
        BoundaryView { title: self.title@, start_page: self.start_page as int }
    }
}

/// One entry of the table of contents that a document carries.
#[derive(Debug)]
pub struct OutlineItem {
    pub level: usize,
    pub title: String,
    pub page: usize,
}

/// An outline entry as plain values.
pub struct OutlineItemView {
    pub level: int,
    pub title: Seq<char>,
    pub page: int,
}

impl Clone for OutlineItem {
    fn clone(&self) -> (r: Self)
        ensures
            r == *self,
    {
        OutlineItem {
            level: self.level,
            title: self.title.clone(),
            page: self.page,
        }
    }
}

impl View for OutlineItem {
    type V = OutlineItemView;

    open spec fn view(&self) -> OutlineItemView {
        OutlineItemView { level: self.level as int, title: self.title@, page: self.page as int }
    }
}

/// The chapters of a list as plain values.
pub open spec fn chapters(v: Seq<Chapter>) -> Seq<ChapterView> {
    v.map_values(|c: Chapter| c@)
}

/// The boundaries of a list as plain values.
pub open spec fn boundaries(v: Seq<Boundary>) -> Seq<BoundaryView> {
    v.map_values(|b: Boundary| b@)
}

/// The entries of an outline as plain values.
pub open spec fn outline_items(v: Seq<OutlineItem>) -> Seq<OutlineItemView> {
    v.map_values(|o: OutlineItem| o@)
}

/// Quick facts about a document. Its size is in bytes.
#[derive(Debug)]
pub struct BookInfo {
    pub path: String,
    pub file_name: String,
    pub page_count: usize,
    pub size_bytes: u64,
    pub outline: Vec<OutlineItem>,
}

impl Clone for BookInfo {
    fn clone(&self) -> (r: Self)
        ensures
            r@ == self@,
    {
        let mut outline: Vec<OutlineItem> = Vec::new();
        for i in 0..self.outline.len()
            invariant
                outline_items(outline@) == outline_items(self.outline@).take(i as int),
        {
            let item = self.outline[i].clone();
            proof {
                assert(outline_items(outline@.push(item)) =~= outline_items(outline@).push(item@));
            }
            outline.push(item);
        }
        assert(outline_items(self.outline@).take(self.outline@.len() as int) =~= outline_items(
            self.outline@,
        ));
        BookInfo {
            path: self.path.clone(),
            file_name: self.file_name.clone(),
            page_count: self.page_count,
            size_bytes: self.size_bytes,
            outline,
        }
    }
}

/// Facts about a document as plain values.
pub struct BookView {
    pub path: Seq<char>,
    pub file_name: Seq<char>,
    pub page_count: int,
    pub size_bytes: int,
    pub outline: Seq<OutlineItemView>,
}

impl View for BookInfo {
    type V = BookView;

    open spec fn view(&self) -> BookView {
        BookView {
            path: self.path@,
            file_name: self.file_name@,
            page_count: self.page_count as int,
            size_bytes: self.size_bytes as int,
            outline: outline_items(self.outline@),
        }
    }
}

/// A voice and how it speaks. The speed is the bit pattern of a 32-bit float,
/// which is only carried through.
#[derive(Debug)]
pub struct VoiceConfig {
    pub voice: String,
    pub lang: String,
    pub speed_bits: u32,
}

impl Clone for VoiceConfig {
    fn clone(&self) -> (r: Self)
        ensures
            r == *self,
    {
        VoiceConfig {
            voice: self.voice.clone(),
            lang: self.lang.clone(),
            speed_bits: self.speed_bits,
        }
    }
}

/// A voice as plain values.
pub struct VoiceView {
    pub voice: Seq<char>,
    pub lang: Seq<char>,
    pub speed_bits: u32,
}

impl View for VoiceConfig {
    type V = VoiceView;

    open spec fn view(&self) -> VoiceView {
        VoiceView { voice: self.voice@, lang: self.lang@, speed_bits: self.speed_bits }
    }
}

impl Default for VoiceConfig {
    /// The British narrator at normal speed.
    fn default() -> (r: Self)
        ensures
            r.voice@ == "bm_george"@,
            r.lang@ == "b"@,
            r.speed_bits == 0x3f80_0000,
    {
        VoiceConfig {
            voice: "bm_george".to_owned(),
            lang: "b".to_owned(),
            speed_bits: 0x3f80_0000,
        }
    }
}

/// All that a narration needs.
#[derive(Debug)]
pub struct GenerateRequest {
    pub pdf_path: String,
    pub out_dir: String,
    pub chapters: Vec<Chapter>,
    pub voice: VoiceConfig,
    pub book_title: String,
    pub author: String,
    /// Whether a language model polishes the transcripts, and which one.
    pub polish: bool,
    pub polish_model: Option<String>,
}

impl Clone for GenerateRequest {
    fn clone(&self) -> (r: Self)
        ensures
            r@ == self@,
    {
        let polish_model = match &self.polish_model {
            Some(m) => Some(m.clone()),
            None => None,
        };
        GenerateRequest {
            pdf_path: self.pdf_path.clone(),
            out_dir: self.out_dir.clone(),
            chapters: copy_chapters(&self.chapters),
            voice: self.voice.clone(),
            book_title: self.book_title.clone(),
            author: self.author.clone(),
            polish: self.polish,
            polish_model,
        }
    }
}

/// A request as plain values.
pub struct RequestView {
    pub pdf_path: Seq<char>,
    pub out_dir: Seq<char>,
    pub chapters: Seq<ChapterView>,
    pub voice: VoiceView,
    pub book_title: Seq<char>,
    pub author: Seq<char>,
    pub polish: bool,
    pub polish_model: Option<Seq<char>>,
}

/// An optional text as a plain value.
pub open spec fn optional(t: Option<String>) -> Option<Seq<char>> {
    match t {
        Some(s) => Some(s@),
        None => None,
    }
}

impl View for GenerateRequest {
    type V = RequestView;

    open spec fn view(&self) -> RequestView {
        RequestView {
            pdf_path: self.pdf_path@,
            out_dir: self.out_dir@,
            chapters: chapters(self.chapters@),
            voice: self.voice@,
            book_title: self.book_title@,
            author: self.author@,
            polish: self.polish,
            polish_model: optional(self.polish_model),
        }
    }
}

/// Copies of chapters.
pub fn copy_chapters(v: &Vec<Chapter>) -> (r: Vec<Chapter>)
    ensures
        chapters(r@) == chapters(v@),
{
    let mut out: Vec<Chapter> = Vec::new();
    for i in 0..v.len()
        invariant
            chapters(out@) == chapters(v@).take(i as int),
    {
        let c = v[i].clone();
        proof {
            assert(chapters(out@.push(c)) =~= chapters(out@).push(c@));
        }
        out.push(c);
    }
    assert(chapters(v@).take(v@.len() as int) =~= chapters(v@));
    out
}

/// A report of how far a job has come.
#[derive(Debug)]
pub struct Progress {
    pub stage: String,
    pub message: String,
    pub current: u32,
    pub total: u32,
}

impl Clone for Progress {
    fn clone(&self) -> (r: Self)
        ensures
            r == *self,
    {
        Progress {
            stage: self.stage.clone(),
            message: self.message.clone(),
            current: self.current,
            total: self.total,
        }
    }
}

/// A report as plain values.
pub struct ProgressView {
    pub stage: Seq<char>,
    pub message: Seq<char>,
    pub current: int,
    pub total: int,
}

impl View for Progress {
    type V = ProgressView;

    open spec fn view(&self) -> ProgressView {
        ProgressView {
            stage: self.stage@,
            message: self.message@,
            current: self.current as int,
            total: self.total as int,
        }
    }
}

/// The reports of a list as plain values.
pub open spec fn reports(v: Seq<Progress>) -> Seq<ProgressView> {
    v.map_values(|p: Progress| p@)
}

impl Progress {
    /// A report. A total of zero means that no share can be told.
    pub fn new(stage: &str, message: &str, current: u32, total: u32) -> (r: Self)
        ensures
            r@ == (ProgressView {
                stage: stage@,
                message: message@,
                current: current as int,
                total: total as int,
            }),
    {
        Progress { stage: stage.to_owned(), message: message.to_owned(), current, total }
    }
}

/// The lists of the library are seen whole and in order: each entry by its own
/// title and pages.
pub proof fn lists_are_seen_in_order(
    cs: Seq<Chapter>,
    bs: Seq<Boundary>,
    items: Seq<OutlineItem>,
    ps: Seq<Progress>,
    i: int,
)
    ensures
        chapters(cs).len() == cs.len(),
        boundaries(bs).len() == bs.len(),
        outline_items(items).len() == items.len(),
        reports(ps).len() == ps.len(),
        0 <= i < cs.len() ==> chapters(cs)[i].title == cs[i].title@ && chapters(cs)[i].order
            == cs[i].order && chapters(cs)[i].start_page == cs[i].start_page && chapters(
            cs,
        )[i].end_page == cs[i].end_page,
        0 <= i < bs.len() ==> boundaries(bs)[i].title == bs[i].title@ && boundaries(
            bs,
        )[i].start_page == bs[i].start_page,
        0 <= i < items.len() ==> outline_items(items)[i].title == items[i].title@ && outline_items(
            items,
        )[i].level == items[i].level && outline_items(items)[i].page == items[i].page,
        0 <= i < ps.len() ==> reports(ps)[i].stage == ps[i].stage@ && reports(ps)[i].message
            == ps[i].message@ && reports(ps)[i].current == ps[i].current && reports(ps)[i].total
            == ps[i].total,
{
}

} // verus!
