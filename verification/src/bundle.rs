//! The bundle: chapter marks, the list of audio files, and the command that
//! makes one file of them.
use crate::error::{AppError, AppResult};
use crate::model;
use crate::model::{Chapter, ChapterView};
use crate::text;
use crate::text::{append, append_decimal, append_str, chars_of, replaced, string_of};
use vstd::prelude::*;

verus! {

// ---------- Chapter marks ----------

/// The length of some audio files in a row, in milliseconds.
pub open spec fn total(durations: Seq<u64>) -> int
    decreases durations.len(),
{
    if durations.len() == 0 {
        0
    } else {
        total(durations.drop_last()) + durations.last()
    }
}

proof fn lemma_total_take(durations: Seq<u64>, i: int)
    requires
        0 <= i <= durations.len(),
    ensures
        0 <= total(durations.take(i)) <= total(durations),
    decreases durations.len(),
{
    if i == durations.len() {
        assert(durations.take(i) =~= durations);
        if durations.len() > 0 {
            lemma_total_take(durations.drop_last(), durations.len() - 1);
            assert(durations.drop_last().take(durations.len() - 1) =~= durations.drop_last());
        }
    } else {
        lemma_total_take(durations.drop_last(), i);
        assert(durations.drop_last().take(i) =~= durations.take(i));
    }
}

/// The title of the chapter at `i`, or its number in want of one.
pub open spec fn mark_title(chapters: Seq<ChapterView>, i: int) -> Seq<char> {
    if i < chapters.len() {
        chapters[i].title
    } else {
        "Chapter "@ + text::decimal((i + 1) as nat)
    }
}

/// Where the chapter at `i` starts.
pub open spec fn mark_start(durations: Seq<u64>, i: int) -> int {
    total(durations.take(i))
}

/// Where the chapter at `i` ends.
pub open spec fn mark_end(durations: Seq<u64>, i: int) -> int {
    total(durations.take(i + 1))
}

/// The mark of the chapter at `i`.
pub open spec fn mark(durations: Seq<u64>, chapters: Seq<ChapterView>, i: int) -> Seq<char> {
    mark_text(
        mark_start(durations, i) as nat,
        mark_end(durations, i) as nat,
        mark_title(chapters, i),
    )
}

/// The marks of the first `n` chapters.
pub open spec fn marks(durations: Seq<u64>, chapters: Seq<ChapterView>, n: nat) -> Seq<char>
    decreases n,
{
    if n == 0 {
        seq![]
    } else {
        marks(durations, chapters, (n - 1) as nat) + mark(durations, chapters, n - 1)
    }
}

/// The facts about the book that stand before its marks.
pub open spec fn book_facts(title: Seq<char>, author: Seq<char>) -> Seq<char> {
    ";FFMETADATA1\ntitle="@ + title + "\nartist="@ + author + "\nalbum="@ + title
        + "\nalbum_artist="@ + author + "\ngenre=Audiobook\nmedia_type=2\n"@
}

/// A mark with these times and this title.
pub open spec fn mark_text(start: nat, end: nat, title: Seq<char>) -> Seq<char> {
    "\n[CHAPTER]\nTIMEBASE=1/1000\nSTART="@ + text::decimal(start) + "\nEND="@ + text::decimal(
        end,
    ) + "\ntitle="@ + title + "\n"@
}

fn append_mark(out: &mut Vec<char>, start: u64, end: u64, title: &[char])
    ensures
        final(out)@ == old(out)@ + mark_text(start as nat, end as nat, title@),
{
    append_str(out, "\n[CHAPTER]\nTIMEBASE=1/1000\nSTART=");
    append_decimal(out, start);
    append_str(out, "\nEND=");
    append_decimal(out, end);
    append_str(out, "\ntitle=");
    append(out, title);
    append_str(out, "\n");
    assert(out@ =~= old(out)@ + mark_text(start as nat, end as nat, title@));
}

fn mark_title_of(chapters: &[Chapter], i: usize) -> (r: Vec<char>)
    requires
        i < usize::MAX,
    ensures
        r@ == mark_title(model::chapters(chapters@), i as int),
{
    if i < chapters.len() {
        chars_of(chapters[i].title.as_str())
    } else {
        let mut out = chars_of("Chapter ");
        append_decimal(&mut out, i as u64 + 1);
        out
    }
}

/// The metadata file: facts about the book, and a mark for each chapter.
pub fn metadata_text(
    title: &str,
    author: &str,
    durations: &[u64],
    chapters: &[Chapter],
) -> (r: String)
    requires
        total(durations@) <= u64::MAX,
    ensures
        r@ == book_facts(title@, author@) + marks(
            durations@,
            model::chapters(chapters@),
            durations@.len(),
        ),
{
    let mut out = chars_of(";FFMETADATA1\ntitle=");
    append_str(&mut out, title);
    append_str(&mut out, "\nartist=");
    append_str(&mut out, author);
    append_str(&mut out, "\nalbum=");
    append_str(&mut out, title);
    append_str(&mut out, "\nalbum_artist=");
    append_str(&mut out, author);
    append_str(&mut out, "\ngenre=Audiobook\nmedia_type=2\n");
    let ghost facts = out@;
    let ghost cs = model::chapters(chapters@);
    let n: usize = durations.len();
    let mut start: u64 = 0;
    proof {
        assert(facts + marks(durations@, cs, 0) =~= facts);
        assert(durations@.take(0) =~= seq![]);
    }
    for i in 0..n
        invariant
            n == durations@.len(),
            total(durations@) <= u64::MAX,
            cs == model::chapters(chapters@),
            start == total(durations@.take(i as int)),
            out@ == facts + marks(durations@, cs, i as nat),
    {
        let ghost before = out@;
        proof {
            lemma_total_take(durations@, i + 1);
            assert(durations@.take(i + 1).drop_last() =~= durations@.take(i as int));
        }
        let end: u64 = start + durations[i];
        let title = mark_title_of(chapters, i);
        append_mark(&mut out, start, end, title.as_slice());
        proof {
            assert(out@ == before + mark(durations@, cs, i as int));
            assert(facts + marks(durations@, cs, i as nat) + mark(durations@, cs, i as int)
                =~= facts + (marks(durations@, cs, i as nat) + mark(durations@, cs, i as int)));
        }
        start = end;
    }
    string_of(out.as_slice())
}

/// The marks leave no gap: the first chapter starts at zero, each ends where
/// the next one starts, and the last one ends with the audio.
pub proof fn marks_are_contiguous(durations: Seq<u64>, i: int)
    requires
        0 <= i < durations.len(),
    ensures
        mark_start(durations, 0) == 0,
        mark_start(durations, i) <= mark_end(durations, i),
        mark_end(durations, i) - mark_start(durations, i) == durations[i],
        mark_end(durations, i) == mark_start(durations, i + 1),
        mark_end(durations, durations.len() - 1) == total(durations),
{
    assert(durations.take(0) =~= seq![]);
    assert(durations.take(i + 1).drop_last() =~= durations.take(i));
    assert(durations.take(durations.len() as int) =~= durations);
}

// ---------- The list of audio files ----------

/// A path between single quotes, with its own quotes escaped.
pub open spec fn quoted(path: Seq<char>) -> Seq<char> {
    seq!['\''] + text::replace(path, seq!['\''], r"'\''"@) + seq!['\'']
}

/// One line for each audio file.
pub open spec fn file_lines(paths: Seq<Seq<char>>) -> Seq<char>
    decreases paths.len(),
{
    if paths.len() == 0 {
        seq![]
    } else {
        file_lines(paths.drop_last()) + "file "@ + quoted(paths.last()) + "\n"@
    }
}

/// The list of the audio files, in order.
pub fn concat_text(paths: &[String]) -> (r: String)
    ensures
        r@ == file_lines(text::texts(paths@)),
{
    let ghost ps = text::texts(paths@);
    let mut quote: Vec<char> = Vec::new();
    quote.push('\'');
    assert(quote@ =~= seq!['\'']);
    let escaped = chars_of(r"'\''");
    let mut out: Vec<char> = Vec::new();
    for i in 0..paths.len()
        invariant
            ps == text::texts(paths@),
            quote@ == seq!['\''],
            escaped@ == r"'\''"@,
            out@ == file_lines(ps.take(i as int)),
    {
        let ghost before = out@;
        proof {
            assert(ps.take(i + 1).drop_last() =~= ps.take(i as int));
            assert(ps.take(i + 1).last() == paths@[i as int]@);
        }
        let path = chars_of(paths[i].as_str());
        let safe = replaced(path.as_slice(), quote.as_slice(), escaped.as_slice());
        append_str(&mut out, "file ");
        out.push('\'');
        append(&mut out, safe.as_slice());
        out.push('\'');
        append_str(&mut out, "\n");
        proof {
            assert(out@ =~= before + "file "@ + quoted(path@) + "\n"@);
        }
    }
    assert(ps.take(ps.len() as int) =~= ps);
    string_of(out.as_slice())
}

// ---------- The command ----------

/// The name of the cover, of those that are there.
pub open spec fn cover_name(jpg: bool, jpeg: bool, png: bool) -> Option<Seq<char>> {
    if jpg {
        Some("cover.jpg"@)
    } else if jpeg {
        Some("cover.jpeg"@)
    } else if png {
        Some("cover.png"@)
    } else {
        None
    }
}

/// Pick the cover of those that are there.
pub fn find_cover(jpg: bool, jpeg: bool, png: bool) -> (r: Option<String>)
    ensures
        match r {
            Some(n) => cover_name(jpg, jpeg, png) == Some(n@),
            None => cover_name(jpg, jpeg, png) is None,
        },
{
    if jpg {
        Some("cover.jpg".to_owned())
    } else if jpeg {
        Some("cover.jpeg".to_owned())
    } else if png {
        Some("cover.png".to_owned())
    } else {
        None
    }
}

/// The arguments that bundle the audio, with the cover if there is one.
pub open spec fn bundle_arguments(
    list: Seq<char>,
    meta: Seq<char>,
    cover: Option<Seq<char>>,
    bitrate: Seq<char>,
    out_file: Seq<char>,
) -> Seq<Seq<char>> {
    let inputs = seq![
        "-y"@,
        "-loglevel"@,
        "error"@,
        "-f"@,
        "concat"@,
        "-safe"@,
        "0"@,
        "-i"@,
        list,
        "-i"@,
        meta,
    ];
    let maps = seq!["-map"@, "0:a"@, "-map_metadata"@, "1"@];
    let audio = seq![
        "-c:a"@,
        "aac"@,
        "-b:a"@,
        bitrate,
        "-movflags"@,
        "+faststart"@,
        out_file,
    ];
    match cover {
        Some(c) => inputs + seq!["-i"@, c] + maps + seq![
            "-map"@,
            "2:v"@,
            "-c:v"@,
            "copy"@,
            "-disposition:v:0"@,
            "attached_pic"@,
        ] + audio,
        None => inputs + maps + audio,
    }
}

fn push_all(out: &mut Vec<String>, words: &[&str])
    ensures
        text::texts(final(out)@) == text::texts(old(out)@) + words@.map_values(|w: &str| w@),
{
    let ghost before = text::texts(out@);
    let ghost ws = words@.map_values(|w: &str| w@);
    for i in 0..words.len()
        invariant
            ws == words@.map_values(|w: &str| w@),
            text::texts(out@) == before + ws.take(i as int),
    {
        let w = words[i].to_owned();
        proof {
            assert(text::texts(out@.push(w)) =~= text::texts(out@).push(w@));
            assert(before + ws.take(i + 1) =~= (before + ws.take(i as int)).push(ws[i as int]));
        }
        out.push(w);
    }
    assert(ws.take(ws.len() as int) =~= ws);
}

/// The arguments of the command that bundles the audio.
pub fn bundle_args(
    list: &str,
    meta: &str,
    cover: Option<&str>,
    bitrate: &str,
    out_file: &str,
) -> (r: Vec<String>)
    ensures
        text::texts(r@) == bundle_arguments(
            list@,
            meta@,
            match cover {
                Some(c) => Some(c@),
                None => None,
            },
            bitrate@,
            out_file@,
        ),
{
    let mut out: Vec<String> = Vec::new();
    push_all(
        &mut out,
        &["-y", "-loglevel", "error", "-f", "concat", "-safe", "0", "-i", list, "-i", meta],
    );
    if let Some(c) = cover {
        push_all(&mut out, &["-i", c]);
    }
    push_all(&mut out, &["-map", "0:a", "-map_metadata", "1"]);
    if cover.is_some() {
        push_all(
            &mut out,
            &["-map", "2:v", "-c:v", "copy", "-disposition:v:0", "attached_pic"],
        );
    }
    push_all(
        &mut out,
        &["-c:a", "aac", "-b:a", bitrate, "-movflags", "+faststart", out_file],
    );
    proof {
        assert(text::texts(out@) =~= bundle_arguments(
            list@,
            meta@,
            match cover {
                Some(c) => Some(c@),
                None => None,
            },
            bitrate@,
            out_file@,
        ));
    }
    out
}

/// The files that a bundle is made from.
#[derive(Debug)]
pub struct BundlePlan {
    pub metadata: String,
    pub list: String,
}

/// Plan the bundle of some audio files, in the order of the chapters. Without
/// any there is nothing to bundle.
pub fn plan_bundle(
    mp3s: &[String],
    durations: &[u64],
    chapters: &[Chapter],
    title: &str,
    author: &str,
) -> (r: AppResult<BundlePlan>)
    requires
        durations@.len() == mp3s@.len(),
        total(durations@) <= u64::MAX,
    ensures
        match r {
            Ok(p) => {
                &&& mp3s@.len() > 0
                &&& p.metadata@ == book_facts(title@, author@) + marks(
                    durations@,
                    model::chapters(chapters@),
                    durations@.len(),
                )
                &&& p.list@ == file_lines(text::texts(mp3s@))
            },
            Err(e) => mp3s@.len() == 0 && (e matches AppError::Ffmpeg(m) && m@
                == "no MP3s to bundle"@),
        },
{
    if mp3s.len() == 0 {
        return Err(AppError::Ffmpeg("no MP3s to bundle".to_owned()));
    }
    Ok(
        BundlePlan {
            metadata: metadata_text(title, author, durations, chapters),
            list: concat_text(mp3s),
        },
    )
}

/// The length of some audio files in a row, as far as it can be held.
pub fn total_duration(durations: &[u64]) -> (r: Option<u64>)
    ensures
        match r {
            Some(t) => t == total(durations@),
            None => total(durations@) > u64::MAX,
        },
{
    let n: usize = durations.len();
    let mut sum: u64 = 0;
    proof {
        assert(durations@.take(0) =~= seq![]);
    }
    for i in 0..n
        invariant
            n == durations@.len(),
            sum == total(durations@.take(i as int)),
    {
        proof {
            lemma_total_take(durations@, i + 1);
            assert(durations@.take(i + 1).drop_last() =~= durations@.take(i as int));
        }
        match sum.checked_add(durations[i]) {
            Some(s) => {
                sum = s;
            },
            None => {
                return None;
            },
        }
    }
    assert(durations@.take(n as int) =~= durations@);
    Some(sum)
}

// ---------- What the bundle holds ----------

/// The metadata of the first files is the beginning of the metadata of all.
proof fn lemma_marks_prefix(durations: Seq<u64>, chapters: Seq<ChapterView>, m: nat, n: nat) -> (
    rest: Seq<char>)
    requires
        m <= n,
    ensures
        marks(durations, chapters, n) == marks(durations, chapters, m) + rest,
    decreases n,
{
    if m == n {
        assert(marks(durations, chapters, n) =~= marks(durations, chapters, m) + seq![]);
        seq![]
    } else {
        let less = lemma_marks_prefix(durations, chapters, m, (n - 1) as nat);
        let rest = less + mark(durations, chapters, n - 1);
        assert(marks(durations, chapters, n) =~= marks(durations, chapters, m) + rest);
        rest
    }
}

/// The mark at `i` comes after the marks of the files before it, and carries
/// the title of the chapter at `i`, or its number where there are fewer chapters
/// than files. It starts where the files before it end, and lasts as long as its
/// file.
pub proof fn marks_carry_their_chapters(
    durations: Seq<u64>,
    chapters: Seq<ChapterView>,
    i: int,
) -> (r: (int, Seq<char>))
    requires
        0 <= i < durations.len(),
    ensures
        0 <= r.0,
        i == 0 ==> r.0 == 0,
        marks(durations, chapters, 0).len() == 0,
        marks(durations, chapters, durations.len()) == marks(durations, chapters, i as nat)
            + "\n[CHAPTER]\nTIMEBASE=1/1000\nSTART="@ + text::decimal(r.0 as nat) + "\nEND="@
            + text::decimal((r.0 + durations[i]) as nat) + "\ntitle="@ + (if i < chapters.len() {
            chapters[i].title
        } else {
            "Chapter "@ + text::decimal((i + 1) as nat)
        }) + "\n"@ + r.1,
{
    marks_are_contiguous(durations, i);
    lemma_total_take(durations, i);
    let start = mark_start(durations, i);
    let rest = lemma_marks_prefix(durations, chapters, (i + 1) as nat, durations.len());
    let title = if i < chapters.len() {
        chapters[i].title
    } else {
        "Chapter "@ + text::decimal((i + 1) as nat)
    };
    assert(marks(durations, chapters, durations.len()) =~= marks(durations, chapters, i as nat)
        + "\n[CHAPTER]\nTIMEBASE=1/1000\nSTART="@ + text::decimal(start as nat) + "\nEND="@
        + text::decimal((start + durations[i]) as nat) + "\ntitle="@ + title + "\n"@ + rest);
    (start, rest)
}

/// The titles of the marks are those of the chapters in the same order: two lists
/// of chapters that differ in the title of one have the same marks before it, and
/// another mark for it.
pub proof fn renaming_one_chapter_changes_one_mark(
    durations: Seq<u64>,
    a: Seq<ChapterView>,
    b: Seq<ChapterView>,
    i: int,
)
    requires
        0 <= i < durations.len(),
        a.len() == b.len(),
        forall|k: int| 0 <= k < a.len() && k != i ==> (#[trigger] a[k]).title == b[k].title,
    ensures
        marks(durations, a, i as nat) == marks(durations, b, i as nat),
        i < a.len() && a[i].title != b[i].title ==> marks(durations, a, (i + 1) as nat) != marks(
            durations,
            b,
            (i + 1) as nat,
        ),
{
    lemma_same_marks(durations, a, b, i as nat);
    if i < a.len() && a[i].title != b[i].title && marks(durations, a, (i + 1) as nat) == marks(
        durations,
        b,
        (i + 1) as nat,
    ) {
        let before = marks(durations, a, i as nat) + ("\n[CHAPTER]\nTIMEBASE=1/1000\nSTART="@
            + text::decimal(mark_start(durations, i) as nat) + "\nEND="@ + text::decimal(
            mark_end(durations, i) as nat,
        ) + "\ntitle="@);
        let x = marks(durations, a, (i + 1) as nat);
        let y = marks(durations, b, (i + 1) as nat);
        assert(x =~= before + a[i].title + "\n"@);
        assert(y =~= before + b[i].title + "\n"@);
        assert(a[i].title.len() == b[i].title.len());
        assert(x.skip(before.len() as int).take(a[i].title.len() as int) =~= a[i].title);
        assert(y.skip(before.len() as int).take(a[i].title.len() as int) =~= b[i].title);
    }
}

proof fn lemma_same_marks(
    durations: Seq<u64>,
    a: Seq<ChapterView>,
    b: Seq<ChapterView>,
    n: nat,
)
    requires
        a.len() == b.len(),
        forall|k: int| 0 <= k < a.len() && k < n ==> (#[trigger] a[k]).title == b[k].title,
    ensures
        marks(durations, a, n) == marks(durations, b, n),
    decreases n,
{
    if n > 0 {
        lemma_same_marks(durations, a, b, (n - 1) as nat);
        if n - 1 < a.len() {
            assert(a[n - 1].title == b[n - 1].title);
        }
    }
}

/// The facts of the book are its title, as that of the album too, and its
/// author, as that of the album too.
pub proof fn facts_name_the_book(title: Seq<char>, author: Seq<char>) -> (at: (int, int, int, int))
    ensures
        text::has_at(book_facts(title, author), "\ntitle="@ + title + "\nartist="@, at.0),
        text::has_at(book_facts(title, author), "\nartist="@ + author + "\nalbum="@, at.1),
        text::has_at(book_facts(title, author), "\nalbum="@ + title + "\nalbum_artist="@, at.2),
        text::has_at(book_facts(title, author), "\nalbum_artist="@ + author + "\ngenre="@, at.3),
        text::starts_with(book_facts(title, author), ";FFMETADATA1\n"@),
        text::ends_with(book_facts(title, author), "\ngenre=Audiobook\nmedia_type=2\n"@),
{
    reveal_strlit(";FFMETADATA1\ntitle=");
    reveal_strlit(";FFMETADATA1\n");
    reveal_strlit("\ntitle=");
    reveal_strlit("\nartist=");
    reveal_strlit("\nalbum=");
    reveal_strlit("\nalbum_artist=");
    reveal_strlit("\ngenre=");
    reveal_strlit("\ngenre=Audiobook\nmedia_type=2\n");
    let s = book_facts(title, author);
    let a: int = 12;
    let b = a + 7 + title.len();
    let c = b + 8 + author.len();
    let d = c + 7 + title.len();
    assert(s.subrange(a, a + 7 + title.len() + 8) =~= "\ntitle="@ + title + "\nartist="@);
    assert(s.subrange(b, b + 8 + author.len() + 7) =~= "\nartist="@ + author + "\nalbum="@);
    assert(s.subrange(c, c + 7 + title.len() + 14) =~= "\nalbum="@ + title + "\nalbum_artist="@);
    assert(s.subrange(d, d + 14 + author.len() + 7) =~= "\nalbum_artist="@ + author + "\ngenre="@);
    assert(s.take(13) =~= ";FFMETADATA1\n"@);
    assert(s.subrange(0, 13) =~= ";FFMETADATA1\n"@);
    let e = d + 14 + author.len();
    assert(s.subrange(e, s.len() as int) =~= "\ngenre=Audiobook\nmedia_type=2\n"@);
    assert(s.skip(e) =~= "\ngenre=Audiobook\nmedia_type=2\n"@);
    (a, b, c, d)
}

/// The list names every audio file on a line of its own, in order.
pub proof fn every_file_is_listed(paths: Seq<Seq<char>>, i: int)
    requires
        0 <= i < paths.len(),
    ensures
        file_lines(paths) == file_lines(paths.take(i)) + ("file "@ + quoted(paths[i]) + "\n"@)
            + file_lines(paths.skip(i + 1)),
{
    let one = seq![paths[i]];
    assert(paths =~= paths.take(i) + one + paths.skip(i + 1));
    lemma_file_lines(paths.take(i), one);
    lemma_file_lines(paths.take(i) + one, paths.skip(i + 1));
    assert(one.drop_last() =~= seq![]);
    reveal_with_fuel(file_lines, 2);
    assert(file_lines(one) =~= "file "@ + quoted(paths[i]) + "\n"@);
}

proof fn lemma_file_lines(a: Seq<Seq<char>>, b: Seq<Seq<char>>)
    ensures
        file_lines(a + b) == file_lines(a) + file_lines(b),
    decreases b.len(),
{
    if b.len() == 0 {
        assert(a + b =~= a);
        assert(file_lines(a + b) =~= file_lines(a) + file_lines(b));
    } else {
        lemma_file_lines(a, b.drop_last());
        assert((a + b).drop_last() =~= a + b.drop_last());
        assert(file_lines(a + b) =~= file_lines(a) + file_lines(b));
    }
}

/// A path stands between single quotes as it is, but for its own quotes: each of
/// these ends the quoted text, stands escaped, and begins it again.
pub proof fn paths_are_quoted(parts: Seq<Seq<char>>)
    requires
        parts.len() > 0,
        forall|i: int| 0 <= i < parts.len() ==> !(#[trigger] parts[i]).contains('\''),
    ensures
        quoted(text::join(parts, "'"@)) == "'"@ + text::join(parts, "'\\''"@) + "'"@,
        quoted(parts[0]) == "'"@ + parts[0] + "'"@,
{
    reveal_strlit("'");
    assert("'"@ =~= seq!['\'']);
    reveal_strlit(r"'\''");
    reveal_strlit("'\\''");
    assert(r"'\''"@ =~= "'\\''"@);
    text::joined_parts_split_again(parts, '\'');
    assert forall|i: int| 0 <= i < seq![parts[0]].len() implies !(#[trigger] seq![
        parts[0],
    ][i]).contains('\'') by {}
    text::joined_parts_split_again(seq![parts[0]], '\'');
}

/// The command reads the list and the metadata, and writes the file that is
/// named last. With a cover it reads that too and attaches it, and is otherwise
/// the same.
pub proof fn bundling_names_its_files(
    list: Seq<char>,
    meta: Seq<char>,
    cover: Seq<char>,
    bitrate: Seq<char>,
    out_file: Seq<char>,
)
    ensures
        ({
            let bare = bundle_arguments(list, meta, None, bitrate, out_file);
            let full = bundle_arguments(list, meta, Some(cover), bitrate, out_file);
            &&& bare.subrange(3, 11) == seq![
                "-f"@,
                "concat"@,
                "-safe"@,
                "0"@,
                "-i"@,
                list,
                "-i"@,
                meta,
            ]
            &&& bare.subrange(11, 15) == seq!["-map"@, "0:a"@, "-map_metadata"@, "1"@]
            &&& bare.subrange(15, 22) == seq![
                "-c:a"@,
                "aac"@,
                "-b:a"@,
                bitrate,
                "-movflags"@,
                "+faststart"@,
                out_file,
            ]
            &&& bare.len() == 22
            &&& full.len() == 30
            &&& full.subrange(11, 13) == seq!["-i"@, cover]
            &&& full.subrange(17, 23) == seq![
                "-map"@,
                "2:v"@,
                "-c:v"@,
                "copy"@,
                "-disposition:v:0"@,
                "attached_pic"@,
            ]
            &&& full.take(11) + full.subrange(13, 17) + full.skip(23) == bare
        }),
{
    let bare = bundle_arguments(list, meta, None, bitrate, out_file);
    let full = bundle_arguments(list, meta, Some(cover), bitrate, out_file);
    assert(full.take(11) + full.subrange(13, 17) + full.skip(23) =~= bare);
}

/// A cover is taken exactly where there is one, a JPEG before a PNG, and it is
/// one that is there.
pub proof fn covers_are_found(jpg: bool, jpeg: bool, png: bool)
    ensures
        cover_name(jpg, jpeg, png) is Some <==> jpg || jpeg || png,
        cover_name(jpg, jpeg, png) == Some("cover.jpg"@) ==> jpg,
        cover_name(jpg, jpeg, png) == Some("cover.jpeg"@) ==> jpeg,
        cover_name(jpg, jpeg, png) == Some("cover.png"@) ==> png && !jpg && !jpeg,
        jpg ==> cover_name(jpg, jpeg, png) == Some("cover.jpg"@),
{
    reveal_strlit("cover.jpg");
    reveal_strlit("cover.jpeg");
    reveal_strlit("cover.png");
    assert("cover.jpg"@.len() == 9 && "cover.jpeg"@.len() == 10 && "cover.png"@.len() == 9);
    assert("cover.jpg"@[6] == 'j' && "cover.png"@[6] == 'p');
}

} // verus!
