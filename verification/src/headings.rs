//! Chapter headings: where the text itself says that a chapter begins.
use crate::chars;
use crate::chars::{is_letter, is_lower_letter, CharClass};
use crate::cleaning;
use crate::patterns;
use crate::running_heads::nonblank_lines;
use crate::text;
use crate::text::{
    chars_of, copied, counted, is_same_ignoring_ascii_case, joined, lines_of, lowered, same,
    string_of, trimmed, trimmed_back, words_of,
};
use vstd::prelude::*;

verus! {

// ---------- Display titles ----------

/// Some letter of the text is lowercase.
pub open spec fn has_lower(s: Seq<char>) -> bool {
    exists|i: int| 0 <= i < s.len() && chars::alphabetic(#[trigger] s[i]) && chars::lowercase(s[i])
}

/// The line reads as part of a title set in capitals: two letters at least, none
/// of them lowercase, and short enough for a heading.
pub open spec fn caps_line(line: Seq<char>) -> bool {
    &&& text::count(line, CharClass::Alphabetic) >= 2
    &&& !has_lower(line)
    &&& text::words(line).len() <= 9
    &&& line.len() <= 60
}

/// How many of the first `most` lines are in capitals, up to the first that is
/// not.
pub open spec fn caps_run(lines: Seq<Seq<char>>, most: nat) -> nat
    decreases most,
{
    if most == 0 || lines.len() == 0 || !caps_line(lines[0]) {
        0
    } else {
        1 + caps_run(lines.skip(1), (most - 1) as nat)
    }
}

/// The text as a title, if it holds a letter and is not too long.
pub open spec fn title_text(t: Seq<char>) -> Option<Seq<char>> {
    let title = patterns::collapse(text::trim(t));
    if text::count(title, CharClass::Alphabetic) > 0 && title.len() <= 90 {
        Some(title)
    } else {
        None
    }
}

/// The title in capitals at the top of a page: its first lines, three at most,
/// behind which a line comes that is not in capitals.
pub open spec fn caps_title(page: Seq<char>) -> Option<Seq<char>> {
    let lines = text::nonblank(text::lines(page));
    let n = caps_run(lines, 4);
    if n == 0 || n > 3 || n == lines.len() {
        None
    } else {
        title_text(text::join(lines.take(n as int), seq![' ']))
    }
}

/// Does the line read as part of a title set in capitals?
pub fn is_caps_line(line: &[char]) -> (r: bool)
    ensures
        r == caps_line(line@),
{
    if counted(line, CharClass::Alphabetic) < 2 {
        return false;
    }
    for i in 0..line.len()
        invariant
            forall|j: int|
                0 <= j < i ==> !(chars::alphabetic(#[trigger] line@[j]) && chars::lowercase(
                    line@[j],
                )),
    {
        if is_letter(line[i]) && is_lower_letter(line[i]) {
            return false;
        }
    }
    let words = words_of(line);
    assert(text::spans(words@).len() == words@.len());
    words.len() <= 9 && line.len() <= 60
}

/// Detect a display title in capitals at the top of a page: its first one to
/// three nonblank lines, joined, if a line behind them is not in capitals.
pub fn caps_title_at_top(page: &[char]) -> (r: Option<Vec<char>>)
    ensures
        match r {
            Some(t) => caps_title(page@) == Some(t@),
            None => caps_title(page@) is None,
        },
{
    let lines = nonblank_lines(page);
    let ghost ls = text::spans(lines@);
    let mut parts: Vec<&[char]> = Vec::new();
    proof {
        assert(ls.skip(0) =~= ls);
        assert(text::spans(parts@) =~= ls.take(0));
    }
    while parts.len() < 4 && parts.len() < lines.len() && is_caps_line(lines[parts.len()])
        invariant
            ls == text::spans(lines@),
            parts.len() <= 4,
            parts.len() <= lines.len(),
            text::spans(parts@) == ls.take(parts@.len() as int),
            caps_run(ls, 4) == parts@.len() + caps_run(
                ls.skip(parts@.len() as int),
                (4 - parts@.len()) as nat,
            ),
        decreases lines.len() - parts.len(),
    {
        let ghost k = parts@.len() as int;
        let line = lines[parts.len()];
        proof {
            assert(ls.skip(k)[0] == line@);
            assert(ls.skip(k).skip(1) =~= ls.skip(k + 1));
            assert(text::spans(parts@.push(line)) =~= text::spans(parts@).push(line@));
            assert(ls.take(k + 1) =~= ls.take(k).push(line@));
        }
        parts.push(line);
    }
    proof {
        let k = parts@.len() as int;
        if k < 4 && k < ls.len() {
            assert(ls.skip(k)[0] == lines@[k]@);
        }
    }
    if parts.len() == 0 || parts.len() > 3 || parts.len() == lines.len() {
        return None;
    }
    let mut space: Vec<char> = Vec::new();
    space.push(' ');
    assert(space@ =~= seq![' ']);
    let whole = joined(parts.as_slice(), space.as_slice());
    let title = patterns::collapsed(trimmed(whole.as_slice()));
    if counted(title.as_slice(), CharClass::Alphabetic) > 0 && title.len() <= 90 {
        Some(title)
    } else {
        None
    }
}

// ---------- Headings of pages ----------

/// Such a line is a heading if the pattern for headings matches it.
pub open spec fn keyword_line(line: Seq<char>, matched: bool) -> bool {
    0 < line.len() <= 90 && matched
}

/// The lines, trimmed, that are headings with a structural keyword, given which
/// of them the pattern for headings matches.
pub open spec fn keyword_headings(lines: Seq<Seq<char>>, matched: Seq<bool>) -> Seq<Seq<char>>
    decreases lines.len(),
{
    if lines.len() == 0 {
        seq![]
    } else {
        let i = lines.len() - 1;
        let line = text::trim(lines[i]);
        let front = keyword_headings(lines.drop_last(), matched);
        if keyword_line(line, i < matched.len() && matched[i]) {
            front.push(line)
        } else {
            front
        }
    }
}

/// Which of the lines, trimmed, the pattern for headings matches.
pub open spec fn matched_lines(lines: Seq<Seq<char>>) -> Seq<bool> {
    lines.map_values(|l: Seq<char>| patterns::heading(text::trim(l)))
}

/// The heading is in the list already, but for the case of its letters.
pub open spec fn already_in(found: Seq<Seq<char>>, title: Seq<char>) -> bool {
    exists|i: int|
        0 <= i < found.len() && text::same_ignoring_ascii_case(#[trigger] found[i], title)
}

/// The headings of a page with these keyword headings and this display title.
pub open spec fn with_title(found: Seq<Seq<char>>, title: Option<Seq<char>>) -> Seq<Seq<char>> {
    match title {
        Some(t) => if already_in(found, t) {
            found
        } else {
            found.push(t)
        },
        None => found,
    }
}

/// The headings of one page.
pub open spec fn page_headings(page: Seq<char>) -> Seq<Seq<char>> {
    let lines = text::lines(page);
    with_title(keyword_headings(lines, matched_lines(lines)), caps_title(page))
}

/// The headings of all pages, each with the number of its page.
pub open spec fn headings(pages: Seq<Seq<char>>) -> Seq<(int, Seq<char>)>
    decreases pages.len(),
{
    if pages.len() == 0 {
        seq![]
    } else {
        let n = pages.len() as int;
        headings(pages.drop_last()) + page_headings(pages.last()).map_values(
            |t: Seq<char>| (n, t),
        )
    }
}

/// A list of numbered texts as plain values.
pub open spec fn entries(v: Seq<(usize, String)>) -> Seq<(int, Seq<char>)> {
    v.map_values(|h: (usize, String)| (h.0 as int, h.1@))
}

/// Keep the lines that are headings with a structural keyword, given which of
/// them the pattern for headings matches.
pub fn keep_headings(lines: &Vec<&[char]>, matched: &Vec<bool>) -> (r: Vec<Vec<char>>)
    ensures
        text::rows(r@) == keyword_headings(text::spans(lines@), matched@),
{
    let ghost ls = text::spans(lines@);
    let mut out: Vec<Vec<char>> = Vec::new();
    proof {
        assert(text::rows(out@) =~= seq![]);
    }
    for i in 0..lines.len()
        invariant
            ls == text::spans(lines@),
            text::rows(out@) == keyword_headings(ls.take(i as int), matched@),
    {
        proof {
            assert(ls.take(i + 1).drop_last() =~= ls.take(i as int));
            assert(ls.take(i + 1)[i as int] == lines@[i as int]@);
        }
        let line = trimmed(lines[i]);
        if line.len() > 0 && line.len() <= 90 && i < matched.len() && matched[i] {
            let kept = copied(line);
            proof {
                assert(text::rows(out@.push(kept)) =~= text::rows(out@).push(kept@));
            }
            out.push(kept);
        }
    }
    assert(ls.take(ls.len() as int) =~= ls);
    out
}

fn matches_of(lines: &Vec<&[char]>) -> (r: Vec<bool>)
    ensures
        r@ == matched_lines(text::spans(lines@)),
{
    let ghost ls = text::spans(lines@);
    let mut out: Vec<bool> = Vec::new();
    for i in 0..lines.len()
        invariant
            ls == text::spans(lines@),
            out@ == matched_lines(ls.take(i as int)),
    {
        let m = patterns::is_heading(trimmed(lines[i]));
        proof {
            assert(ls[i as int] == lines@[i as int]@);
            assert(out@.push(m) =~= matched_lines(ls.take(i + 1)));
        }
        out.push(m);
    }
    assert(ls.take(ls.len() as int) =~= ls);
    out
}

fn keyword_headings_of(page: &[char]) -> (r: Vec<Vec<char>>)
    ensures
        text::rows(r@) == keyword_headings(
            text::lines(page@),
            matched_lines(text::lines(page@)),
        ),
{
    let lines = lines_of(page);
    keep_headings(&lines, &matches_of(&lines))
}

/// Add the display title of a page to its keyword headings, unless it is one of
/// them but for the case of its letters.
pub fn add_title(found: Vec<Vec<char>>, title: Option<Vec<char>>) -> (r: Vec<Vec<char>>)
    ensures
        text::rows(r@) == with_title(
            text::rows(found@),
            match title {
                Some(t) => Some(t@),
                None => None,
            },
        ),
{
    let mut out = found;
    match title {
        Some(t) => {
            let ghost fs = text::rows(out@);
            for i in 0..out.len()
                invariant
                    fs == text::rows(out@),
                    fs == text::rows(found@),
                    title matches Some(x) && x@ == t@,
                    forall|j: int|
                        0 <= j < i ==> !text::same_ignoring_ascii_case(#[trigger] fs[j], t@),
            {
                if is_same_ignoring_ascii_case(out[i].as_slice(), t.as_slice()) {
                    assert(text::same_ignoring_ascii_case(fs[i as int], t@));
                    return out;
                }
            }
            proof {
                assert(text::rows(out@.push(t)) =~= text::rows(out@).push(t@));
            }
            out.push(t);
            out
        },
        None => out,
    }
}

/// Scan the pages for headings: lines with a structural keyword anywhere on a
/// page, and display titles in capitals at its top. Pages count from one.
pub fn chapter_headings(pages: &[String]) -> (r: Vec<(usize, String)>)
    ensures
        entries(r@) == headings(text::texts(pages@)),
{
    let ghost ps = text::texts(pages@);
    let n: usize = pages.len();
    let mut out: Vec<(usize, String)> = Vec::new();
    proof {
        assert(entries(out@) =~= seq![]);
    }
    for i in 0..n
        invariant
            n == pages@.len(),
            ps == text::texts(pages@),
            entries(out@) == headings(ps.take(i as int)),
    {
        let page = chars_of(pages[i].as_str());
        let found = add_title(
            keyword_headings_of(page.as_slice()),
            caps_title_at_top(page.as_slice()),
        );
        let ghost before = entries(out@);
        let ghost fs = text::rows(found@);
        let ghost f = |t: Seq<char>| (i + 1, t);
        proof {
            assert(ps.take(i + 1).drop_last() =~= ps.take(i as int));
            assert(ps.take(i + 1).last() == page@);
            assert(before + fs.take(0).map_values(f) =~= before);
        }
        for j in 0..found.len()
            invariant
                i < n,
                fs == text::rows(found@),
                f == (|t: Seq<char>| (i + 1, t)),
                entries(out@) == before + fs.take(j as int).map_values(f),
        {
            let h: (usize, String) = (i + 1, string_of(found[j].as_slice()));
            proof {
                assert(entries(out@.push(h)) =~= entries(out@).push((i + 1, fs[j as int])));
                assert(before + fs.take(j + 1).map_values(f) =~= (before + fs.take(
                    j as int,
                ).map_values(f)).push((i + 1, fs[j as int])));
            }
            out.push(h);
        }
        proof {
            assert(fs.take(fs.len() as int) =~= fs);
        }
    }
    assert(ps.take(ps.len() as int) =~= ps);
    out
}

/// The headings come in the order of their pages, which count from one.
pub proof fn headings_are_in_page_order(pages: Seq<Seq<char>>, i: int, j: int)
    requires
        0 <= i <= j < headings(pages).len(),
    ensures
        1 <= headings(pages)[i].0 <= headings(pages)[j].0 <= pages.len(),
    decreases pages.len(),
{
    let front = headings(pages.drop_last());
    if j < front.len() {
        headings_are_in_page_order(pages.drop_last(), i, j);
        assert(headings(pages)[i] == front[i]);
        assert(headings(pages)[j] == front[j]);
    } else {
        assert(headings(pages)[j].0 == pages.len());
        if i < front.len() {
            headings_are_in_page_order(pages.drop_last(), i, i);
            assert(headings(pages)[i] == front[i]);
        } else {
            assert(headings(pages)[i].0 == pages.len());
        }
    }
}

/// The headings of two lists of pages are those of the first and then those of
/// the second, their page numbers counted on.
pub proof fn headings_of_joined_lists(a: Seq<Seq<char>>, b: Seq<Seq<char>>)
    ensures
        headings(a + b) == headings(a) + headings(b).map_values(
            |h: (int, Seq<char>)| (h.0 + a.len(), h.1),
        ),
    decreases b.len(),
{
    let on = |h: (int, Seq<char>)| (h.0 + a.len(), h.1);
    if b.len() == 0 {
        assert(a + b =~= a);
        assert(headings(a) + headings(b).map_values(on) =~= headings(a));
    } else {
        let front = b.drop_last();
        headings_of_joined_lists(a, front);
        assert((a + b).drop_last() =~= a + front);
        assert((a + b).last() == b.last());
        let own = page_headings(b.last());
        let n = b.len() as int;
        let m = (a + b).len() as int;
        assert(headings(b) == headings(front) + own.map_values(|t: Seq<char>| (n, t)));
        assert(headings(a + b) == headings(a + front) + own.map_values(|t: Seq<char>| (m, t)));
        assert(headings(a + b) =~= headings(a) + headings(b).map_values(on));
    }
}

// ---------- Without the table of contents ----------

/// What two headings have in common that stand for the same chapter.
pub open spec fn heading_key(title: Seq<char>) -> Seq<char> {
    text::lower(text::trim_back(text::trim(title), CharClass::HeadingClose))
}

/// No later heading of the list stands for the same chapter.
pub open spec fn is_last(hs: Seq<(int, Seq<char>)>, i: int) -> bool {
    &&& 0 <= i < hs.len()
    &&& forall|j: int|
        i < j < hs.len() ==> heading_key(#[trigger] hs[j].1) != heading_key(hs[i].1)
}

/// A heading as it is kept.
pub open spec fn kept(h: (int, Seq<char>)) -> (int, Seq<char>) {
    (h.0, text::trim(h.1))
}

/// The first heading stands on an earlier page, or on the same page with a
/// smaller key.
pub open spec fn before(a: (int, Seq<char>), b: (int, Seq<char>)) -> bool {
    a.0 < b.0 || (a.0 == b.0 && text::less(heading_key(a.1), heading_key(b.1)))
}

/// In the list each heading stands before the next.
pub open spec fn ascending(r: Seq<(int, Seq<char>)>) -> bool {
    forall|i: int, j: int| 0 <= i < j < r.len() ==> before(#[trigger] r[i], #[trigger] r[j])
}

/// The list holds the last heading of each chapter and nothing else, in order
/// of their pages.
pub open spec fn deduped(hs: Seq<(int, Seq<char>)>, r: Seq<(int, Seq<char>)>) -> bool {
    &&& ascending(r)
    &&& forall|i: int| is_last(hs, i) ==> r.contains(kept(#[trigger] hs[i]))
    &&& forall|h: (int, Seq<char>)| #[trigger]
        r.contains(h) ==> exists|i: int| is_last(hs, i) && h == kept(#[trigger] hs[i])
}

fn key_of(title: &[char]) -> (r: Vec<char>)
    ensures
        r@ == heading_key(title@),
{
    lowered(trimmed_back(trimmed(title), CharClass::HeadingClose))
}

proof fn lemma_key_of_kept(h: (int, Seq<char>))
    ensures
        heading_key(kept(h).1) == heading_key(h.1),
{
    text::lemma_trim_again(h.1);
}

/// The place at which a heading goes into an ascending list.
fn place(out: &Vec<(usize, String)>, keys: &Vec<Vec<char>>, page: usize, key: &[char]) -> (r: usize)
    requires
        ascending(entries(out@)),
        keys@.len() == out@.len(),
        forall|i: int|
            0 <= i < out@.len() ==> (#[trigger] keys@[i])@ == heading_key(entries(out@)[i].1)
                && keys@[i]@ != key@,
    ensures
        r <= out@.len(),
        forall|i: int|
            0 <= i < r ==> (#[trigger] entries(out@)[i].0 < page || (entries(out@)[i].0 == page
                && text::less(heading_key(entries(out@)[i].1), key@))),
        forall|i: int|
            r <= i < out@.len() ==> (#[trigger] entries(out@)[i].0 > page || (entries(out@)[i].0
                == page && text::less(key@, heading_key(entries(out@)[i].1)))),
{
    let ghost es = entries(out@);
    let mut p: usize = 0;
    while p < out.len() && (out[p].0 < page || (out[p].0 == page && text::is_less(
        keys[p].as_slice(),
        key,
    )))
        invariant
            es == entries(out@),
            keys@.len() == out@.len(),
            forall|i: int|
                0 <= i < out@.len() ==> (#[trigger] keys@[i])@ == heading_key(es[i].1),
            p <= out@.len(),
            forall|i: int|
                0 <= i < p ==> (#[trigger] es[i].0 < page || (es[i].0 == page && text::less(
                    heading_key(es[i].1),
                    key@,
                ))),
        decreases out@.len() - p,
    {
        assert(keys@[p as int]@ == heading_key(es[p as int].1));
        p = p + 1;
    }
    proof {
        if p < out@.len() {
            let here = es[p as int];
            assert(keys@[p as int]@ == heading_key(here.1));
            text::lemma_less_total(heading_key(here.1), key@);
            assert forall|i: int| p <= i < out@.len() implies (#[trigger] es[i].0 > page || (es[i].0
                == page && text::less(key@, heading_key(es[i].1)))) by {
                if i > p {
                    assert(before(es[p as int], es[i]));
                    if es[i].0 == page {
                        text::lemma_less_transitive(
                            key@,
                            heading_key(here.1),
                            heading_key(es[i].1),
                        );
                    }
                }
            }
        }
    }
    p
}

/// Drop the headings that a table of contents repeats: of several headings with
/// the same key only the last stays. They come in the order of their pages.
pub fn dedupe_headings(headings: &[(usize, String)]) -> (r: Vec<(usize, String)>)
    ensures
        deduped(entries(headings@), entries(r@)),
{
    let ghost hs = entries(headings@);
    let n: usize = headings.len();
    let mut all: Vec<Vec<char>> = Vec::new();
    for i in 0..n
        invariant
            n == headings@.len(),
            hs == entries(headings@),
            all@.len() == i,
            forall|j: int| 0 <= j < i ==> (#[trigger] all@[j])@ == heading_key(hs[j].1),
    {
        all.push(key_of(chars_of(headings[i].1.as_str()).as_slice()));
    }
    let mut out: Vec<(usize, String)> = Vec::new();
    let mut keys: Vec<Vec<char>> = Vec::new();
    for i in 0..n
        invariant
            n == headings@.len(),
            n == all@.len(),
            hs == entries(headings@),
            forall|j: int| 0 <= j < n ==> (#[trigger] all@[j])@ == heading_key(hs[j].1),
            keys@.len() == out@.len(),
            forall|j: int|
                0 <= j < out@.len() ==> (#[trigger] keys@[j])@ == heading_key(entries(out@)[j].1),
            ascending(entries(out@)),
            forall|j: int| j < i && is_last(hs, j) ==> entries(out@).contains(kept(#[trigger] hs[j])),
            forall|h: (int, Seq<char>)| #[trigger]
                entries(out@).contains(h) ==> exists|j: int|
                    j < i && is_last(hs, j) && h == kept(#[trigger] hs[j]),
    {
        let mut last = true;
        for j in i + 1..n
            invariant
                i < n,
                n == all@.len(),
                n == hs.len(),
                forall|k: int| 0 <= k < n ==> (#[trigger] all@[k])@ == heading_key(hs[k].1),
                last <==> forall|k: int|
                    i < k < j ==> heading_key(#[trigger] hs[k].1) != heading_key(hs[i as int].1),
        {
            if same(all[j].as_slice(), all[i].as_slice()) {
                last = false;
                assert(heading_key(hs[j as int].1) == heading_key(hs[i as int].1));
            }
        }
        assert(last == is_last(hs, i as int));
        if last {
            let ghost es = entries(out@);
            proof {
                lemma_new_key(hs, es, i as int);
                assert forall|k: int| 0 <= k < out@.len() implies (#[trigger] keys@[k])@
                    != all@[i as int]@ by {
                    assert(heading_key(es[k].1) != heading_key(hs[i as int].1));
                }
            }
            let title = chars_of(headings[i].1.as_str());
            let h: (usize, String) = (headings[i].0, string_of(trimmed(title.as_slice())));
            let p = place(&out, &keys, h.0, all[i].as_slice());
            let key = copied(all[i].as_slice());
            out.insert(p, h);
            keys.insert(p, key);
            proof {
                let new = kept(hs[i as int]);
                lemma_key_of_kept(hs[i as int]);
                assert(entries(out@) =~= es.insert(p as int, new));
                lemma_insert(es, p as int, new);
                assert forall|k: int| 0 <= k < out@.len() implies (#[trigger] keys@[k])@
                    == heading_key(entries(out@)[k].1) by {
                    if k < p {
                        assert(entries(out@)[k] == es[k]);
                    } else if k > p {
                        assert(entries(out@)[k] == es[k - 1]);
                    }
                }
                assert forall|g: (int, Seq<char>)| #[trigger]
                    entries(out@).contains(g) implies exists|j: int|
                    j < i + 1 && is_last(hs, j) && g == kept(#[trigger] hs[j]) by {
                    if g != new {
                        assert(es.contains(g));
                    } else {
                        assert(g == kept(hs[i as int]));
                    }
                }
                assert forall|j: int| j < i + 1 && is_last(hs, j) implies entries(out@).contains(
                    kept(#[trigger] hs[j]),
                ) by {
                    if j < i {
                        assert(es.contains(kept(hs[j])));
                    }
                }
            }
        }
    }
    out
}

/// A heading that is the last of its chapter has a key that none of the earlier
/// last headings has.
proof fn lemma_new_key(hs: Seq<(int, Seq<char>)>, es: Seq<(int, Seq<char>)>, i: int)
    requires
        0 <= i < hs.len(),
        forall|h: (int, Seq<char>)| #[trigger]
            es.contains(h) ==> exists|j: int|
                j < i && is_last(hs, j) && h == kept(#[trigger] hs[j]),
    ensures
        forall|k: int| 0 <= k < es.len() ==> heading_key(#[trigger] es[k].1) != heading_key(hs[i].1),
{
    assert forall|k: int| 0 <= k < es.len() implies heading_key(#[trigger] es[k].1) != heading_key(
        hs[i].1,
    ) by {
        assert(es.contains(es[k]));
        let j = choose|j: int| j < i && is_last(hs, j) && es[k] == kept(#[trigger] hs[j]);
        lemma_key_of_kept(hs[j]);
    }
}

proof fn lemma_insert(es: Seq<(int, Seq<char>)>, p: int, new: (int, Seq<char>))
    requires
        ascending(es),
        0 <= p <= es.len(),
        forall|i: int| 0 <= i < p ==> before(#[trigger] es[i], new),
        forall|i: int| p <= i < es.len() ==> before(new, #[trigger] es[i]),
    ensures
        ascending(es.insert(p, new)),
        es.insert(p, new).contains(new),
        forall|g: (int, Seq<char>)| #[trigger]
            es.insert(p, new).contains(g) ==> es.contains(g) || g == new,
        forall|g: (int, Seq<char>)| #[trigger] es.contains(g) ==> es.insert(p, new).contains(g),
{
    let r = es.insert(p, new);
    assert forall|i: int, j: int| 0 <= i < j < r.len() implies before(
        #[trigger] r[i],
        #[trigger] r[j],
    ) by {
        let a = if i < p {
            i
        } else {
            i - 1
        };
        let b = if j < p {
            j
        } else {
            j - 1
        };
        if i != p {
            assert(r[i] == es[a]);
        }
        if j != p {
            assert(r[j] == es[b]);
        }
    }
    assert(r[p] == new);
    assert forall|g: (int, Seq<char>)| #[trigger] r.contains(g) implies es.contains(g) || g
        == new by {
        let i = r.index_of(g);
        if i < p {
            assert(es[i] == g);
        } else if i > p {
            assert(es[i - 1] == g);
        }
    }
    assert forall|g: (int, Seq<char>)| #[trigger] es.contains(g) implies r.contains(g) by {
        let i = es.index_of(g);
        if i < p {
            assert(r[i] == g);
        } else {
            assert(r[i + 1] == g);
        }
    }
}

/// After deduplication no two headings stand for the same chapter.
pub proof fn deduped_keys_differ(
    hs: Seq<(int, Seq<char>)>,
    r: Seq<(int, Seq<char>)>,
    i: int,
    j: int,
)
    requires
        deduped(hs, r),
        0 <= i < j < r.len(),
    ensures
        heading_key(r[i].1) != heading_key(r[j].1),
        r[i].0 <= r[j].0,
{
    assert(r.contains(r[i]) && r.contains(r[j]));
    let a = choose|a: int| is_last(hs, a) && r[i] == kept(#[trigger] hs[a]);
    let b = choose|b: int| is_last(hs, b) && r[j] == kept(#[trigger] hs[b]);
    lemma_key_of_kept(hs[a]);
    lemma_key_of_kept(hs[b]);
    assert(before(r[i], r[j]));
    if heading_key(r[i].1) == heading_key(r[j].1) {
        text::lemma_less_total(heading_key(r[i].1), heading_key(r[i].1));
        assert(a != b);
        assert(hs[a].1 == hs[a].1 && hs[b].1 == hs[b].1);
    }
}

/// Every chapter that has a heading keeps one: its last.
pub proof fn deduped_keeps_each_chapter(
    hs: Seq<(int, Seq<char>)>,
    r: Seq<(int, Seq<char>)>,
    i: int,
) -> (j: int)
    requires
        deduped(hs, r),
        0 <= i < hs.len(),
    ensures
        i <= j < hs.len(),
        is_last(hs, j),
        heading_key(hs[j].1) == heading_key(hs[i].1),
        r.contains(kept(hs[j])),
    decreases hs.len() - i,
{
    if is_last(hs, i) {
        i
    } else {
        let k = choose|k: int|
            i < k < hs.len() && heading_key(#[trigger] hs[k].1) == heading_key(hs[i].1);
        deduped_keeps_each_chapter(hs, r, k)
    }
}

proof fn lemma_before_irreflexive(a: (int, Seq<char>), b: (int, Seq<char>))
    ensures
        !(before(a, b) && before(b, a)),
        !before(a, a),
{
    text::lemma_less_total(heading_key(a.1), heading_key(b.1));
}

proof fn lemma_ascending_unique(a: Seq<(int, Seq<char>)>, b: Seq<(int, Seq<char>)>)
    requires
        ascending(a),
        ascending(b),
        forall|h: (int, Seq<char>)| #[trigger] a.contains(h) <==> b.contains(h),
    ensures
        a == b,
    decreases a.len(),
{
    if a.len() == 0 {
        if b.len() > 0 {
            assert(b.contains(b[0]));
            assert(a.contains(b[0]));
        }
        assert(a =~= b);
    } else {
        assert(a.contains(a.last()));
        assert(b.contains(a.last()));
        assert(b.contains(b.last()));
        assert(a.contains(b.last()));
        if a.last() != b.last() {
            let i = a.index_of(b.last());
            let j = b.index_of(a.last());
            assert(before(a[i], a[a.len() - 1]));
            assert(before(b[j], b[b.len() - 1]));
            lemma_before_irreflexive(a.last(), b.last());
        }
        let x = a.drop_last();
        let y = b.drop_last();
        assert forall|h: (int, Seq<char>)| #[trigger] x.contains(h) <==> y.contains(h) by {
            lemma_before_irreflexive(h, h);
            if x.contains(h) {
                let i = x.index_of(h);
                assert(a[i] == h);
                assert(a.contains(h));
                let j = b.index_of(h);
                assert(before(a[i], a[a.len() - 1]));
                assert(j != b.len() - 1);
                assert(y[j] == h);
            }
            if y.contains(h) {
                let i = y.index_of(h);
                assert(b[i] == h);
                assert(b.contains(h));
                assert(a.contains(h));
                let j = a.index_of(h);
                assert(before(b[i], b[b.len() - 1]));
                assert(j != a.len() - 1);
                assert(x[j] == h);
            }
        }
        lemma_ascending_unique(x, y);
        assert(a =~= x.push(a.last()));
        assert(b =~= y.push(b.last()));
    }
}

/// There is only one list that deduplication can give.
pub proof fn deduped_is_unique(
    hs: Seq<(int, Seq<char>)>,
    a: Seq<(int, Seq<char>)>,
    b: Seq<(int, Seq<char>)>,
)
    requires
        deduped(hs, a),
        deduped(hs, b),
    ensures
        a == b,
{
    assert forall|h: (int, Seq<char>)| #[trigger] a.contains(h) <==> b.contains(h) by {
        if a.contains(h) {
            let i = choose|i: int| is_last(hs, i) && h == kept(#[trigger] hs[i]);
            assert(b.contains(kept(hs[i])));
        }
        if b.contains(h) {
            let i = choose|i: int| is_last(hs, i) && h == kept(#[trigger] hs[i]);
            assert(a.contains(kept(hs[i])));
        }
    }
    lemma_ascending_unique(a, b);
}

/// Deduplicating a second time changes nothing.
pub proof fn deduped_again(hs: Seq<(int, Seq<char>)>, r: Seq<(int, Seq<char>)>)
    requires
        deduped(hs, r),
    ensures
        deduped(r, r),
{
    assert forall|i: int| 0 <= i < r.len() implies is_last(r, i) && kept(#[trigger] r[i])
        == r[i] by {
        assert forall|j: int| i < j < r.len() implies heading_key(#[trigger] r[j].1)
            != heading_key(r[i].1) by {
            deduped_keys_differ(hs, r, i, j);
        }
        assert(r.contains(r[i]));
        let a = choose|a: int| is_last(hs, a) && r[i] == kept(#[trigger] hs[a]);
        text::lemma_trim_again(hs[a].1);
    }
    assert forall|i: int| is_last(r, i) implies r.contains(kept(#[trigger] r[i])) by {
        assert(kept(r[i]) == r[i]);
    }
    assert forall|h: (int, Seq<char>)| #[trigger] r.contains(h) implies exists|i: int|
        is_last(r, i) && h == kept(#[trigger] r[i]) by {
        let i = r.index_of(h);
        assert(is_last(r, i) && kept(r[i]) == h);
    }
}

// ---------- What makes two headings one ----------

/// The title without the brackets and periods that close it.
pub open spec fn bare_title(title: Seq<char>) -> Seq<char> {
    text::trim_back(text::trim(title), CharClass::HeadingClose)
}

/// The titles, without what closes them, are the same letter by letter, but for
/// the case of ASCII letters.
pub open spec fn same_title(a: Seq<char>, b: Seq<char>) -> bool {
    let x = bare_title(a);
    let y = bare_title(b);
    &&& x.len() == y.len()
    &&& forall|k: int|
        0 <= k < x.len() ==> (#[trigger] x[k] == y[k] || ('A' <= x[k] <= 'Z' && y[k] as int
            == x[k] as int + 32) || ('A' <= y[k] <= 'Z' && x[k] as int == y[k] as int + 32))
}

/// Headings count as one only if their titles are the same but for letter case
/// and the brackets and periods that close them, however long they are.
pub proof fn keys_tell_titles_apart(a: Seq<char>, b: Seq<char>)
    ensures
        heading_key(a) == heading_key(b) <==> text::lower(bare_title(a)) == text::lower(
            bare_title(b),
        ),
        text::all_ascii(a) && text::all_ascii(b) ==> (heading_key(a) == heading_key(b)
            <==> same_title(a, b)),
{
    if text::all_ascii(a) && text::all_ascii(b) {
        lemma_bare_ascii(a);
        lemma_bare_ascii(b);
        let x = bare_title(a);
        let y = bare_title(b);
        let p = text::ascii_lower(x);
        let q = text::ascii_lower(y);
        assert(p.len() == x.len() && q.len() == y.len());
        if p == q {
            assert forall|k: int| 0 <= k < x.len() implies (#[trigger] x[k] == y[k] || ('A' <= x[k]
                <= 'Z' && y[k] as int == x[k] as int + 32) || ('A' <= y[k] <= 'Z' && x[k] as int
                == y[k] as int + 32)) by {
                assert(p[k] == chars::ascii_lowered(x[k]));
                assert(q[k] == chars::ascii_lowered(y[k]));
            }
        }
        if same_title(a, b) {
            assert forall|k: int| 0 <= k < p.len() implies p[k] == q[k] by {
                assert(x[k] == x[k]);
                assert(p[k] == chars::ascii_lowered(x[k]));
                assert(q[k] == chars::ascii_lowered(y[k]));
            }
            assert(p =~= q);
        }
    }
}

proof fn lemma_bare_ascii(a: Seq<char>)
    requires
        text::all_ascii(a),
    ensures
        text::all_ascii(bare_title(a)),
{
    let (m, n) = text::lemma_trim_inside(a);
    let t = text::trim(a);
    let k = text::lemma_trim_back_prefix(t, CharClass::HeadingClose);
    let x = bare_title(a);
    assert forall|i: int| 0 <= i < x.len() implies chars::ascii(#[trigger] x[i]) by {
        assert(x[i] == a[m + i]);
    }
}

/// What closes a title is taken off, and nothing else: brackets and periods.
pub proof fn closing_marks_are_taken_off(title: Seq<char>) -> (k: int)
    ensures
        0 <= k <= text::trim(title).len(),
        bare_title(title) == text::trim(title).take(k),
        forall|i: int|
            k <= i < text::trim(title).len() ==> "])."@.contains(#[trigger] text::trim(title)[i]),
        k > 0 ==> !"])."@.contains(text::trim(title)[k - 1]),
{
    let t = text::trim(title);
    let k = text::lemma_trim_back_prefix(t, CharClass::HeadingClose);
    assert forall|i: int| k <= i < t.len() implies "])."@.contains(#[trigger] t[i]) by {
        chars::classes_are_spelled_out(t[i]);
    }
    if k > 0 {
        chars::classes_are_spelled_out(t[k - 1]);
    }
    k
}

/// A heading after which no other has the same title is in the result, with its
/// page and with its title trimmed.
pub proof fn different_titles_are_kept(
    hs: Seq<(int, Seq<char>)>,
    r: Seq<(int, Seq<char>)>,
    i: int,
)
    requires
        deduped(hs, r),
        0 <= i < hs.len(),
        forall|j: int| i <= j < hs.len() ==> text::all_ascii(#[trigger] hs[j].1),
        forall|j: int| i < j < hs.len() ==> !same_title(#[trigger] hs[j].1, hs[i].1),
    ensures
        r.contains((hs[i].0, text::trim(hs[i].1))),
{
    assert forall|j: int| i < j < hs.len() implies heading_key(#[trigger] hs[j].1) != heading_key(
        hs[i].1,
    ) by {
        assert(text::all_ascii(hs[j].1) && text::all_ascii(hs[i].1));
        keys_tell_titles_apart(hs[j].1, hs[i].1);
    }
    assert(is_last(hs, i));
    assert(r.contains(kept(hs[i])));
}

/// Of headings with the same title the last one is in the result, and the
/// others are not; nothing is in it that was not found.
pub proof fn same_titles_are_one(
    hs: Seq<(int, Seq<char>)>,
    r: Seq<(int, Seq<char>)>,
    k: int,
) -> (i: int)
    requires
        deduped(hs, r),
        forall|j: int| 0 <= j < hs.len() ==> text::all_ascii(#[trigger] hs[j].1),
        0 <= k < r.len(),
    ensures
        0 <= i < hs.len(),
        r[k] == (hs[i].0, text::trim(hs[i].1)),
        forall|j: int| i < j < hs.len() ==> !same_title(#[trigger] hs[j].1, hs[i].1),
        forall|m: int| k < m < r.len() ==> r[k].0 <= (#[trigger] r[m]).0 && r[k] != r[m],
{
    assert(r.contains(r[k]));
    let i = choose|i: int| is_last(hs, i) && r[k] == kept(#[trigger] hs[i]);
    assert forall|j: int| i < j < hs.len() implies !same_title(#[trigger] hs[j].1, hs[i].1) by {
        assert(text::all_ascii(hs[j].1) && text::all_ascii(hs[i].1));
        keys_tell_titles_apart(hs[j].1, hs[i].1);
    }
    assert forall|m: int| k < m < r.len() implies r[k].0 <= (#[trigger] r[m]).0 && r[k] != r[m] by {
        deduped_keys_differ(hs, r, k, m);
    }
    i
}

// ---------- Which lines are headings ----------

/// The lines of two lists are searched as those of the first and then those of
/// the second.
proof fn lemma_keyword_concat(a: Seq<Seq<char>>, b: Seq<Seq<char>>)
    ensures
        keyword_headings(a + b, matched_lines(a + b)) == keyword_headings(a, matched_lines(a))
            + keyword_headings(b, matched_lines(b)),
    decreases b.len(),
{
    if b.len() == 0 {
        assert(a + b =~= a);
        assert(keyword_headings(a + b, matched_lines(a + b)) =~= keyword_headings(
            a,
            matched_lines(a),
        ) + keyword_headings(b, matched_lines(b)));
    } else {
        let front = b.drop_last();
        lemma_keyword_concat(a, front);
        lemma_keyword_front(a + b);
        lemma_keyword_front(b);
        assert((a + b).drop_last() =~= a + front);
        assert((a + b).last() == b.last());
        assert(keyword_headings(a + b, matched_lines(a + b)) =~= keyword_headings(
            a,
            matched_lines(a),
        ) + keyword_headings(b, matched_lines(b)));
    }
}

proof fn lemma_keyword_same(lines: Seq<Seq<char>>, m: Seq<bool>, n: Seq<bool>)
    requires
        lines.len() <= m.len(),
        lines.len() <= n.len(),
        forall|i: int| 0 <= i < lines.len() ==> #[trigger] m[i] == n[i],
    ensures
        keyword_headings(lines, m) == keyword_headings(lines, n),
    decreases lines.len(),
{
    if lines.len() > 0 {
        lemma_keyword_same(lines.drop_last(), m, n);
        assert(m[lines.len() - 1] == n[lines.len() - 1]);
    }
}

proof fn lemma_keyword_front(lines: Seq<Seq<char>>)
    requires
        lines.len() > 0,
    ensures
        ({
            let front = lines.drop_last();
            let line = text::trim(lines.last());
            keyword_headings(lines, matched_lines(lines)) == if 0 < line.len() <= 90
                && patterns::heading(line) {
                keyword_headings(front, matched_lines(front)).push(line)
            } else {
                keyword_headings(front, matched_lines(front))
            }
        }),
{
    let front = lines.drop_last();
    lemma_keyword_same(front, matched_lines(lines), matched_lines(front));
}

/// Every line of up to ninety characters that reads like a heading is one,
/// trimmed; it comes behind those of the lines before it and before those of the
/// lines behind it. A line that does not read like one, or is longer, adds none.
pub proof fn keyword_lines_are_headings(lines: Seq<Seq<char>>, i: int)
    requires
        0 <= i < lines.len(),
    ensures
        ({
            let line = text::trim(lines[i]);
            let all = keyword_headings(lines, matched_lines(lines));
            let before = keyword_headings(lines.take(i), matched_lines(lines.take(i)));
            let after = keyword_headings(lines.skip(i + 1), matched_lines(lines.skip(i + 1)));
            &&& 0 < line.len() <= 90 && patterns::heading(line) ==> all == before + seq![line]
                + after
            &&& line.len() > 90 || !patterns::heading(line) ==> all == before + after
        }),
{
    let one = seq![lines[i]];
    assert(lines =~= lines.take(i) + one + lines.skip(i + 1));
    lemma_keyword_concat(lines.take(i), one);
    lemma_keyword_concat(lines.take(i) + one, lines.skip(i + 1));
    lemma_keyword_front(one);
    assert(one.drop_last() =~= seq![]);
    let line = text::trim(lines[i]);
    let none = keyword_headings(seq![], matched_lines(seq![]));
    assert(none =~= seq![]);
    let own = keyword_headings(one, matched_lines(one));
    if 0 < line.len() <= 90 && patterns::heading(line) {
        assert(own =~= seq![line]);
    } else {
        assert(own =~= seq![]);
    }
    let all = keyword_headings(lines, matched_lines(lines));
    let before = keyword_headings(lines.take(i), matched_lines(lines.take(i)));
    let after = keyword_headings(lines.skip(i + 1), matched_lines(lines.skip(i + 1)));
    assert(all =~= before + own + after);
    assert(before + Seq::<Seq<char>>::empty() + after =~= before + after);
}

/// The headings of a page are those of its lines, and behind them the title at
/// its top unless one of them reads the same.
pub proof fn title_joins_the_headings(page: Seq<char>)
    ensures
        ({
            let lines = text::lines(page);
            let found = keyword_headings(lines, matched_lines(lines));
            let all = page_headings(page);
            &&& all.len() <= found.len() + 1
            &&& found.is_prefix_of(all)
            &&& caps_title(page) is None ==> all == found
            &&& caps_title(page) matches Some(t) ==> exists|i: int|
                0 <= i < all.len() && text::ascii_lower(#[trigger] all[i]) == text::ascii_lower(t)
            &&& all.len() > found.len() ==> caps_title(page) == Some(all.last()) && forall|i: int|
                0 <= i < found.len() ==> text::ascii_lower(#[trigger] found[i])
                    != text::ascii_lower(all.last())
        }),
{
    let lines = text::lines(page);
    let found = keyword_headings(lines, matched_lines(lines));
    let all = page_headings(page);
    if let Some(t) = caps_title(page) {
        if already_in(found, t) {
            let i = choose|i: int|
                0 <= i < found.len() && text::same_ignoring_ascii_case(#[trigger] found[i], t);
            assert(text::ascii_lower(all[i]) == text::ascii_lower(t));
        } else {
            assert(all[found.len() as int] == t);
            assert(text::ascii_lower(all[found.len() as int]) == text::ascii_lower(t));
        }
    }
}

/// The headings of each page are headings of the book, under the number of the
/// page, counted from one.
pub proof fn headings_of_each_page_are_found(pages: Seq<Seq<char>>, k: int, t: Seq<char>)
    requires
        0 <= k < pages.len(),
    ensures
        page_headings(pages[k]).contains(t) <==> headings(pages).contains((k + 1, t)),
    decreases pages.len(),
{
    let n = pages.len() as int;
    let front = pages.drop_last();
    let own = page_headings(pages.last()).map_values(|t: Seq<char>| (n, t));
    let all = headings(pages);
    if k < n - 1 {
        headings_of_each_page_are_found(front, k, t);
        assert(front[k] == pages[k]);
        if headings(front).contains((k + 1, t)) {
            let i = headings(front).index_of((k + 1, t));
            assert(all[i] == (k + 1, t));
        }
        if all.contains((k + 1, t)) {
            let i = all.index_of((k + 1, t));
            if i >= headings(front).len() {
                assert(own[i - headings(front).len()].0 == n);
            }
            assert(headings(front)[i] == (k + 1, t));
        }
    } else {
        let here = page_headings(pages[k]);
        if here.contains(t) {
            let i = here.index_of(t);
            assert(all[headings(front).len() + i] == (n, t));
        }
        if all.contains((n, t)) {
            let i = all.index_of((n, t));
            if i < headings(front).len() {
                headings_are_in_page_order(front, i, i);
                assert(all[i] == headings(front)[i]);
            } else {
                assert(all[i] == own[i - headings(front).len()]);
                assert(here[i - headings(front).len()] == t);
            }
        }
    }
}

/// A line in capitals has two letters at least, none of them small, and at most
/// nine words and sixty characters; so has no line with a small letter.
pub proof fn capital_lines(line: Seq<char>)
    requires
        text::all_ascii(line),
    ensures
        caps_line(line) <==> line.len() <= 60 && text::words(line).len() <= 9 && text::count(
            line,
            CharClass::Alphabetic,
        ) >= 2 && forall|i: int| 0 <= i < line.len() ==> !('a' <= #[trigger] line[i] <= 'z'),
{
    assert forall|i: int| 0 <= i < line.len() implies chars::ascii(#[trigger] line[i]) by {}
    if has_lower(line) {
        let i = choose|i: int|
            0 <= i < line.len() && chars::alphabetic(#[trigger] line[i]) && chars::lowercase(
                line[i],
            );
        assert(chars::ascii(line[i]));
        assert('a' <= line[i] <= 'z');
    } else if !(forall|i: int| 0 <= i < line.len() ==> !('a' <= #[trigger] line[i] <= 'z')) {
        let i = choose|i: int| 0 <= i < line.len() && ('a' <= #[trigger] line[i] <= 'z');
        assert(chars::alphabetic(line[i]) && chars::lowercase(line[i]));
    }
}

/// The title at the top of a page is made of the one to three lines in capitals
/// with which it begins, if another line follows them.
pub proof fn titles_stand_at_the_top(page: Seq<char>, n: int)
    requires
        ({
            let lines = text::nonblank(text::lines(page));
            &&& 0 <= n < lines.len()
            &&& forall|i: int| 0 <= i < n ==> caps_line(#[trigger] lines[i])
            &&& !caps_line(lines[n])
        }),
    ensures
        ({
            let lines = text::nonblank(text::lines(page));
            &&& 1 <= n <= 3 ==> caps_title(page) == title_text(text::join(lines.take(n), " "@))
            &&& n == 0 || n > 3 ==> caps_title(page) is None
        }),
{
    reveal_strlit(" ");
    assert(" "@ =~= seq![' ']);
    let lines = text::nonblank(text::lines(page));
    lemma_caps_run(lines, 4, n);
}

proof fn lemma_caps_run(lines: Seq<Seq<char>>, most: nat, n: int)
    requires
        0 <= n < lines.len(),
        forall|i: int| 0 <= i < n ==> caps_line(#[trigger] lines[i]),
        !caps_line(lines[n]),
    ensures
        caps_run(lines, most) == if n <= most {
            n
        } else {
            most as int
        },
    decreases most,
{
    if most > 0 && n > 0 {
        assert(caps_line(lines[0]));
        let rest = lines.skip(1);
        assert forall|i: int| 0 <= i < n - 1 implies caps_line(#[trigger] rest[i]) by {
            assert(rest[i] == lines[i + 1]);
        }
        assert(rest[n - 1] == lines[n]);
        lemma_caps_run(rest, (most - 1) as nat, n - 1);
    }
}

/// A title is the text as it is, but for runs of blanks, if it has a letter and
/// no more than ninety characters.
pub proof fn titles_are_kept_whole(t: Seq<char>)
    ensures
        ({
            let title = patterns::collapse(text::trim(t));
            &&& title_text(t) is Some <==> title.len() <= 90 && !text::free(
                title,
                CharClass::Alphabetic,
            )
            &&& title_text(t) is Some ==> title_text(t)->0 == title && text::without(
                title_text(t)->0,
                CharClass::White,
            ) == text::without(t, CharClass::White)
        }),
{
    let title = patterns::collapse(text::trim(t));
    text::counted_and_left_is_all(title, CharClass::Alphabetic);
    text::lemma_without_trim(t, CharClass::White);
    cleaning::lemma_collapse_keeps(text::trim(t), CharClass::White);
}

} // verus!
