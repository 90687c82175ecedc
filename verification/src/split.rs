//! From boundaries to chapters: page ranges, file names, and the text of each
//! transcript.
use crate::chars;
use crate::chars::CharClass;
use crate::cleaning;
use crate::cleaning::clean_pages_to_transcript;
use crate::model;
use crate::model::{Boundary, BoundaryView, Chapter, ChapterView};
use crate::text;
use crate::text::{
    append, append_decimal, append_str, chars_of, removed, squeezed, string_of, trimmed,
};
use vstd::prelude::*;
use vstd::slice::slice_subrange;

verus! {

// ---------- Page ranges ----------

pub open spec fn min(a: int, b: int) -> int {
    if a <= b {
        a
    } else {
        b
    }
}

pub open spec fn max(a: int, b: int) -> int {
    if a >= b {
        a
    } else {
        b
    }
}

/// The page on which a chapter starts: within the book, and on its first page
/// at least.
pub open spec fn start_of(b: BoundaryView, page_count: int) -> int {
    max(1, min(b.start_page, max(page_count, 1)))
}

/// The page on which the chapter at `i` ends: before the next one starts, or
/// with the book, but not before it starts itself.
pub open spec fn end_of(bs: Seq<BoundaryView>, i: int, page_count: int) -> int {
    let wanted = if i + 1 < bs.len() {
        max(bs[i + 1].start_page - 1, 0)
    } else {
        page_count
    };
    max(min(wanted, page_count), start_of(bs[i], page_count))
}

/// The chapters that start at these boundaries.
pub open spec fn chapters_at(bs: Seq<BoundaryView>, page_count: int) -> Seq<ChapterView> {
    Seq::new(
        bs.len(),
        |i: int|
            ChapterView {
                order: i + 1,
                title: text::trim(bs[i].title),
                start_page: start_of(bs[i], page_count),
                end_page: end_of(bs, i, page_count),
            },
    )
}

/// Convert boundaries and the number of pages into page ranges. Each chapter
/// runs up to the page before the next one.
pub fn boundaries_to_chapters(boundaries: &[Boundary], page_count: usize) -> (r: Vec<Chapter>)
    ensures
        model::chapters(r@) == chapters_at(model::boundaries(boundaries@), page_count as int),
{
    let ghost bs = model::boundaries(boundaries@);
    let ghost all = chapters_at(bs, page_count as int);
    let n: usize = boundaries.len();
    let last: usize = if page_count > 1 {
        page_count
    } else {
        1
    };
    let mut out: Vec<Chapter> = Vec::new();
    for i in 0..n
        invariant
            n == boundaries@.len(),
            bs == model::boundaries(boundaries@),
            all == chapters_at(bs, page_count as int),
            last == max(page_count as int, 1),
            model::chapters(out@) == all.take(i as int),
    {
        let b: &Boundary = &boundaries[i];
        let start: usize = if b.start_page < 1 {
            1
        } else if b.start_page > last {
            last
        } else {
            b.start_page
        };
        let wanted: usize = if i + 1 < n {
            let next: usize = boundaries[i + 1].start_page;
            assert(bs[i + 1].start_page == next);
            if next > 0 {
                next - 1
            } else {
                0
            }
        } else {
            page_count
        };
        let inside: usize = if wanted < page_count {
            wanted
        } else {
            page_count
        };
        let end: usize = if inside > start {
            inside
        } else {
            start
        };
        let title = chars_of(b.title.as_str());
        let chapter = Chapter {
            order: i + 1,
            title: string_of(trimmed(title.as_slice())),
            start_page: start,
            end_page: end,
        };
        proof {
            assert(bs[i as int] == b@);
            assert(chapter@ == all[i as int]);
            assert(model::chapters(out@.push(chapter)) =~= model::chapters(out@).push(chapter@));
            assert(all.take(i + 1) =~= all.take(i as int).push(all[i as int]));
        }
        out.push(chapter);
    }
    assert(all.take(n as int) =~= all);
    out
}

/// Every chapter has a valid range: it starts within the book, and ends within
/// the book and no earlier than it starts.
pub proof fn ranges_are_valid(bs: Seq<BoundaryView>, page_count: int, i: int)
    requires
        0 <= i < bs.len(),
        page_count >= 0,
    ensures
        1 <= chapters_at(bs, page_count)[i].start_page <= chapters_at(bs, page_count)[i].end_page,
        chapters_at(bs, page_count)[i].end_page <= max(page_count, 1),
{
}

/// Chapters from boundaries in ascending order, within the book, leave no page
/// out and share none: each ends right before the next one starts, and the last
/// one with the book.
pub proof fn chapters_are_contiguous(bs: Seq<BoundaryView>, page_count: int, i: int)
    requires
        0 <= i < bs.len(),
        forall|j: int, k: int|
            0 <= j < k < bs.len() ==> (#[trigger] bs[j]).start_page < (
            #[trigger] bs[k]).start_page,
        forall|j: int|
            0 <= j < bs.len() ==> 1 <= (#[trigger] bs[j]).start_page <= page_count,
    ensures
        chapters_at(bs, page_count)[i].start_page == bs[i].start_page,
        i + 1 < bs.len() ==> chapters_at(bs, page_count)[i].end_page + 1 == chapters_at(
            bs,
            page_count,
        )[i + 1].start_page,
        i + 1 == bs.len() ==> chapters_at(bs, page_count)[i].end_page == page_count,
{
    if i + 1 < bs.len() {
        assert(bs[i].start_page < bs[i + 1].start_page);
    }
}

// ---------- File names ----------

/// The file name of a chapter without its extension: its number in two digits
/// and its title without what a file name must not contain.
pub open spec fn stem(order: nat, title: Seq<char>) -> Seq<char> {
    text::decimal2(order) + " - "@ + text::squeeze(text::without(title, CharClass::FileUnsafe))
}

/// Turn a chapter into a safe file stem with its number in front.
pub fn file_stem(ch: &Chapter) -> (r: String)
    ensures
        r@ == stem(ch.order as nat, ch.title@),
{
    let mut out: Vec<char> = Vec::new();
    if ch.order < 10 {
        out.push('0');
    }
    append_decimal(&mut out, ch.order as u64);
    assert(out@ =~= text::decimal2(ch.order as nat));
    append_str(&mut out, " - ");
    let safe = removed(chars_of(ch.title.as_str()).as_slice(), CharClass::FileUnsafe);
    append(&mut out, squeezed(safe.as_slice()).as_slice());
    string_of(out.as_slice())
}

proof fn lemma_decimal_digits(n: nat)
    ensures
        text::decimal(n).len() > 0,
        forall|i: int| 0 <= i < text::decimal(n).len() ==> '0' <= #[trigger] text::decimal(n)[i] <= '9',
    decreases n,
{
    if n >= 10 {
        lemma_decimal_digits(n / 10);
    }
}

/// The number that a row of digits stands for.
pub open spec fn value(s: Seq<char>) -> int {
    text::number(s)
}

proof fn lemma_value(n: nat)
    ensures
        value(text::decimal(n)) == n,
        value(text::decimal2(n)) == n,
{
    text::decimal_reads_back(n);
}

proof fn lemma_stem_prefix(order: nat, title: Seq<char>)
    ensures
        ({
            let k = text::decimal2(order).len() as int;
            &&& k < stem(order, title).len()
            &&& stem(order, title).take(k) == text::decimal2(order)
            &&& stem(order, title)[k] == ' '
            &&& forall|i: int| 0 <= i < k ==> '0' <= #[trigger] stem(order, title)[i] <= '9'
        }),
{
    let d = text::decimal2(order);
    let s = stem(order, title);
    reveal_strlit(" - ");
    assert(s.take(d.len() as int) =~= d);
    lemma_decimal_digits(order);
    assert forall|i: int| 0 <= i < d.len() implies '0' <= #[trigger] s[i] <= '9' by {
        assert(s[i] == d[i]);
        if order >= 10 {
            assert(d[i] == text::decimal(order)[i]);
        }
    }
}

/// Chapters with different numbers have different file names.
pub proof fn stems_differ(a: nat, x: Seq<char>, b: nat, y: Seq<char>)
    requires
        stem(a, x) == stem(b, y),
    ensures
        a == b,
{
    lemma_stem_prefix(a, x);
    lemma_stem_prefix(b, y);
    let j = text::decimal2(a).len() as int;
    let k = text::decimal2(b).len() as int;
    assert(j == k) by {
        if j < k {
            assert(stem(b, y)[j] == ' ');
        } else if k < j {
            assert(stem(a, x)[k] == ' ');
        }
    }
    lemma_value(a);
    lemma_value(b);
}

/// A file name holds none of the characters that it must not contain.
pub proof fn stem_is_safe(order: nat, title: Seq<char>)
    ensures
        text::free(stem(order, title), CharClass::FileUnsafe),
{
    let d = text::decimal2(order);
    let safe = text::without(title, CharClass::FileUnsafe);
    let t = text::squeeze(safe);
    let s = stem(order, title);
    reveal_strlit(" - ");
    text::lemma_without_free(title, CharClass::FileUnsafe);
    text::lemma_squeeze(safe, CharClass::FileUnsafe);
    lemma_stem_prefix(order, title);
    assert forall|i: int| 0 <= i < s.len() implies !CharClass::FileUnsafe.has(#[trigger] s[i]) by {
        if i < d.len() {
            assert('0' <= s[i] <= '9');
        } else if i >= d.len() + 3 {
            assert(s[i] == t[i - d.len() - 3]);
        } else {
            assert(s[i] == " - "@[i - d.len()]);
        }
    }
}

// ---------- Transcripts ----------

/// The first page of a chapter, counted from zero and within the book.
pub open spec fn first_page(ch: ChapterView, pages: int) -> int {
    min(max(ch.start_page - 1, 0), pages)
}

/// The page behind the last one of a chapter, within the book and not before
/// its first.
pub open spec fn past_page(ch: ChapterView, pages: int) -> int {
    max(min(ch.end_page, pages), first_page(ch, pages))
}

/// The raw pages of a chapter.
pub open spec fn pages_of(ch: ChapterView, pages: Seq<Seq<char>>) -> Seq<Seq<char>> {
    pages.subrange(first_page(ch, pages.len() as int), past_page(ch, pages.len() as int))
}

/// The text of a transcript file: book, author, chapter and body.
pub open spec fn transcript_file(
    book: Seq<char>,
    author: Seq<char>,
    title: Seq<char>,
    body: Seq<char>,
) -> Seq<char> {
    book + "\n"@ + author + "\n\n"@ + title + "\n\n"@ + body + "\n"@
}

/// The transcript of one chapter.
#[derive(Debug)]
pub struct Transcript {
    pub stem: String,
    pub text: String,
}

/// A transcript belongs to a chapter of the book.
pub open spec fn is_transcript(
    t: Transcript,
    ch: ChapterView,
    pages: Seq<Seq<char>>,
    book: Seq<char>,
    author: Seq<char>,
) -> bool {
    &&& t.stem@ == stem(ch.order as nat, ch.title)
    &&& t.text@ == transcript_file(
        book,
        author,
        ch.title,
        cleaning::transcript(pages_of(ch, pages)),
    )
}

/// The text of a transcript file.
pub fn transcript_text(book_title: &str, author: &str, title: &str, body: &str) -> (r: String)
    ensures
        r@ == transcript_file(book_title@, author@, title@, body@),
{
    let mut out = chars_of(book_title);
    append_str(&mut out, "\n");
    append_str(&mut out, author);
    append_str(&mut out, "\n\n");
    append_str(&mut out, title);
    append_str(&mut out, "\n\n");
    append_str(&mut out, body);
    append_str(&mut out, "\n");
    string_of(out.as_slice())
}

/// Render the transcript of one chapter. A range that lies outside the book, or
/// is turned around, is brought back into it.
pub fn chapter_transcript(
    pages: &[String],
    ch: &Chapter,
    book_title: &str,
    author: &str,
) -> (r: Transcript)
    ensures
        is_transcript(r, ch@, text::texts(pages@), book_title@, author@),
{
    let n: usize = pages.len();
    let before: usize = if ch.start_page > 0 {
        ch.start_page - 1
    } else {
        0
    };
    let lo: usize = if before < n {
        before
    } else {
        n
    };
    let end: usize = if ch.end_page < n {
        ch.end_page
    } else {
        n
    };
    let hi: usize = if end > lo {
        end
    } else {
        lo
    };
    let own = slice_subrange(pages, lo, hi);
    proof {
        assert(text::texts(own@) =~= pages_of(ch@, text::texts(pages@)));
    }
    let body = clean_pages_to_transcript(own);
    Transcript {
        stem: file_stem(ch),
        text: transcript_text(book_title, author, ch.title.as_str(), body.as_str()),
    }
}

/// Render the transcripts of all chapters, in order.
pub fn render_transcripts(
    pages: &[String],
    chapters: &[Chapter],
    book_title: &str,
    author: &str,
) -> (r: Vec<Transcript>)
    ensures
        r@.len() == chapters@.len(),
        forall|i: int|
            0 <= i < r@.len() ==> is_transcript(
                #[trigger] r@[i],
                chapters@[i]@,
                text::texts(pages@),
                book_title@,
                author@,
            ),
{
    let mut out: Vec<Transcript> = Vec::new();
    for i in 0..chapters.len()
        invariant
            out@.len() == i,
            forall|j: int|
                0 <= j < i ==> is_transcript(
                    #[trigger] out@[j],
                    chapters@[j]@,
                    text::texts(pages@),
                    book_title@,
                    author@,
                ),
    {
        let t = chapter_transcript(pages, &chapters[i], book_title, author);
        out.push(t);
    }
    out
}

// ---------- What the chapters are made of ----------

/// There is one chapter for each boundary, in order: it is numbered from one on,
/// carries the boundary's title, and starts on the boundary's page, as far as
/// the book has that page.
pub proof fn chapters_follow_boundaries(bs: Seq<BoundaryView>, page_count: int, i: int)
    requires
        0 <= i < bs.len(),
        page_count >= 1,
    ensures
        ({
            let cs = chapters_at(bs, page_count);
            &&& cs.len() == bs.len()
            &&& cs[i].order == i + 1
            &&& cs[i].title == text::trim(bs[i].title)
            &&& 1 <= bs[i].start_page <= page_count ==> cs[i].start_page == bs[i].start_page
            &&& bs[i].start_page < 1 ==> cs[i].start_page == 1
            &&& bs[i].start_page > page_count ==> cs[i].start_page == page_count
            &&& i + 1 == bs.len() ==> cs[i].end_page == page_count
            &&& i + 1 < bs.len() && cs[i].start_page < bs[i + 1].start_page <= page_count + 1
                ==> cs[i].end_page == bs[i + 1].start_page - 1
            &&& i + 1 < bs.len() && bs[i + 1].start_page <= cs[i].start_page ==> cs[i].end_page
                == cs[i].start_page
        }),
{
}

/// Where the boundaries ascend within the book, every page from the first one on
/// belongs to one chapter, and to no other.
pub proof fn every_page_has_one_chapter(bs: Seq<BoundaryView>, page_count: int, page: int) -> (i:
    int)
    requires
        bs.len() > 0,
        forall|j: int, k: int|
            0 <= j < k < bs.len() ==> (#[trigger] bs[j]).start_page < (
            #[trigger] bs[k]).start_page,
        forall|j: int|
            0 <= j < bs.len() ==> 1 <= (#[trigger] bs[j]).start_page <= page_count,
        bs[0].start_page <= page <= page_count,
    ensures
        0 <= i < bs.len(),
        chapters_at(bs, page_count)[i].start_page <= page <= chapters_at(
            bs,
            page_count,
        )[i].end_page,
        forall|j: int|
            0 <= j < bs.len() && (#[trigger] chapters_at(bs, page_count)[j]).start_page <= page
                && page <= chapters_at(bs, page_count)[j].end_page ==> j == i,
{
    let cs = chapters_at(bs, page_count);
    let i = lemma_last_start(bs, page, bs.len() as int);
    chapters_are_contiguous(bs, page_count, i);
    if i + 1 < bs.len() {
        chapters_are_contiguous(bs, page_count, i + 1);
    }
    assert forall|j: int| 0 <= j < bs.len() && (#[trigger] cs[j]).start_page <= page && page
        <= cs[j].end_page implies j == i by {
        chapters_are_contiguous(bs, page_count, j);
        if j < i {
            chapters_are_contiguous(bs, page_count, j + 1);
            assert(bs[j + 1].start_page <= bs[i].start_page);
        } else if j > i {
            assert(bs[i + 1].start_page <= bs[j].start_page);
        }
    }
    i
}

/// The last of the first `n` boundaries that starts no later than the page.
proof fn lemma_last_start(bs: Seq<BoundaryView>, page: int, n: int) -> (i: int)
    requires
        0 < n <= bs.len(),
        bs[0].start_page <= page,
    ensures
        0 <= i < n,
        bs[i].start_page <= page,
        i + 1 < n ==> bs[i + 1].start_page > page,
    decreases n,
{
    if bs[n - 1].start_page <= page {
        n - 1
    } else {
        lemma_last_start(bs, page, n - 1)
    }
}

/// A chapter of the book is read from its first page to its last, both included,
/// in order.
pub proof fn chapter_pages_are_read_in_order(ch: ChapterView, pages: Seq<Seq<char>>, j: int)
    requires
        1 <= ch.start_page <= ch.end_page <= pages.len(),
        0 <= j <= ch.end_page - ch.start_page,
    ensures
        pages_of(ch, pages).len() == ch.end_page - ch.start_page + 1,
        pages_of(ch, pages)[j] == pages[ch.start_page - 1 + j],
{
}

/// The chapters share out the pages: those of the first chapter, then those of
/// the second and so on are all pages from where the first one starts.
pub proof fn chapters_share_out_the_pages(bs: Seq<BoundaryView>, pages: Seq<Seq<char>>)
    requires
        bs.len() > 0,
        forall|j: int, k: int|
            0 <= j < k < bs.len() ==> (#[trigger] bs[j]).start_page < (
            #[trigger] bs[k]).start_page,
        forall|j: int|
            0 <= j < bs.len() ==> 1 <= (#[trigger] bs[j]).start_page <= pages.len(),
    ensures
        text::pooled(
            chapters_at(bs, pages.len() as int).map_values(
                |c: ChapterView| pages_of(c, pages),
            ),
        ) == pages.skip(bs[0].start_page - 1),
{
    let n = bs.len() as int;
    let lists = chapters_at(bs, pages.len() as int).map_values(
        |c: ChapterView| pages_of(c, pages),
    );
    lemma_shares(bs, pages, n);
    assert(lists.take(n) =~= lists);
    chapters_are_contiguous(bs, pages.len() as int, n - 1);
    assert(pages.subrange(bs[0].start_page - 1, pages.len() as int) =~= pages.skip(
        bs[0].start_page - 1,
    ));
}

proof fn lemma_shares(bs: Seq<BoundaryView>, pages: Seq<Seq<char>>, n: int)
    requires
        0 < n <= bs.len(),
        forall|j: int, k: int|
            0 <= j < k < bs.len() ==> (#[trigger] bs[j]).start_page < (
            #[trigger] bs[k]).start_page,
        forall|j: int|
            0 <= j < bs.len() ==> 1 <= (#[trigger] bs[j]).start_page <= pages.len(),
    ensures
        text::pooled(
            chapters_at(bs, pages.len() as int).map_values(
                |c: ChapterView| pages_of(c, pages),
            ).take(n),
        ) == pages.subrange(
            bs[0].start_page - 1,
            chapters_at(bs, pages.len() as int)[n - 1].end_page,
        ),
    decreases n,
{
    let cs = chapters_at(bs, pages.len() as int);
    let lists = cs.map_values(|c: ChapterView| pages_of(c, pages));
    chapters_are_contiguous(bs, pages.len() as int, n - 1);
    ranges_are_valid(bs, pages.len() as int, n - 1);
    let own = pages.subrange(cs[n - 1].start_page - 1, cs[n - 1].end_page);
    assert(lists[n - 1] =~= own);
    assert(lists.take(n).drop_last() =~= lists.take(n - 1));
    assert(lists.take(n).last() == own);
    if n == 1 {
        assert(lists.take(0) =~= seq![]);
        assert(text::pooled(lists.take(0)) =~= seq![]);
        assert(text::pooled(lists.take(1)) =~= own);
    } else {
        lemma_shares(bs, pages, n - 1);
        chapters_are_contiguous(bs, pages.len() as int, n - 2);
        ranges_are_valid(bs, pages.len() as int, n - 2);
        assert(bs[0].start_page <= bs[n - 2].start_page);
        assert(text::pooled(lists.take(n)) =~= pages.subrange(
            bs[0].start_page - 1,
            cs[n - 1].end_page,
        ));
    }
}

/// The name of a chapter's files is its number, in two digits at least, and its
/// title: word for word as it is, where the title holds nothing that a file name
/// must not.
pub proof fn stem_names_the_chapter(order: nat, title: Seq<char>)
    ensures
        text::without(stem(order, title), CharClass::White) == text::without(
            text::decimal2(order) + "-"@ + text::without(title, CharClass::FileUnsafe),
            CharClass::White,
        ),
        text::free(title, CharClass::FileUnsafe) && text::single_spaced(title) && (forall|i: int|
            0 <= i < title.len() && chars::white(#[trigger] title[i]) ==> title[i] == ' ')
            ==> stem(order, title) == text::decimal2(order) + " - "@ + title,
{
    let cl = CharClass::White;
    reveal_strlit(" - ");
    reveal_strlit("-");
    let d = text::decimal2(order);
    let safe = text::without(title, CharClass::FileUnsafe);
    text::squeezing_keeps_text(safe);
    text::lemma_without_concat(d, " - "@, cl);
    text::lemma_without_concat(d + " - "@, text::squeeze(safe), cl);
    text::lemma_without_concat(d, "-"@, cl);
    text::lemma_without_concat(d + "-"@, safe, cl);
    reveal_with_fuel(text::without, 4);
    assert(" - "@.drop_last() =~= seq![' ', '-']);
    assert(seq![' ', '-'].drop_last() =~= seq![' ']);
    assert(seq![' '].drop_last() =~= seq![]);
    assert("-"@.drop_last() =~= seq![]);
    assert(text::without(" - "@, cl) =~= text::without("-"@, cl));
    if text::free(title, CharClass::FileUnsafe) && text::single_spaced(title) && (forall|i: int|
        0 <= i < title.len() && chars::white(#[trigger] title[i]) ==> title[i] == ' ') {
        text::lemma_without_nothing(title, CharClass::FileUnsafe);
        text::single_spaced_text_stays(title);
    }
}

/// A transcript holds the title of the book, the author, the title of the chapter
/// and the text of the chapter's own pages, each behind its gap; and it is named
/// by the number and the title of the chapter.
pub proof fn transcripts_hold_their_chapter(
    t: Transcript,
    ch: ChapterView,
    pages: Seq<Seq<char>>,
    book: Seq<char>,
    author: Seq<char>,
)
    requires
        is_transcript(t, ch, pages, book, author),
        1 <= ch.start_page <= ch.end_page <= pages.len(),
    ensures
        t.text@ == book + "\n"@ + author + "\n\n"@ + ch.title + "\n\n"@ + cleaning::transcript(
            pages.subrange(ch.start_page - 1, ch.end_page),
        ) + "\n"@,
        t.stem@ == stem(ch.order as nat, ch.title),
{
}

/// A chapter never takes pages that the book does not have: one that ends past
/// the last page has all pages from its start on, and one that starts there has
/// none.
pub proof fn chapters_take_pages_that_are_there(ch: ChapterView, pages: Seq<Seq<char>>)
    ensures
        1 <= ch.start_page <= pages.len() <= ch.end_page ==> pages_of(ch, pages) == pages.skip(
            ch.start_page - 1,
        ),
        ch.start_page > pages.len() ==> pages_of(ch, pages).len() == 0,
        ch.start_page <= 1 <= pages.len() <= ch.end_page ==> pages_of(ch, pages) == pages,
        pages_of(ch, pages).len() <= pages.len(),
{
    let n = pages.len() as int;
    if 1 <= ch.start_page <= n <= ch.end_page {
        assert(pages.subrange(ch.start_page - 1, n) =~= pages.skip(ch.start_page - 1));
    }
    if ch.start_page <= 1 {
        assert(pages.subrange(0, n) =~= pages);
    }
}

} // verus!
