//! Running heads: the book and chapter titles that are printed at the top or
//! the bottom of many pages, and how they are taken off the body text.
use crate::chars;
use crate::chars::{is_white, CharClass};
use crate::patterns;
use crate::text;
use crate::text::{
    copied, is_at, lines_of, nonblank_of, rows_of, same, trimmed, trimmed_back, trimmed_front, words_of,
};
use vstd::prelude::*;
use vstd::slice::slice_subrange;

verus! {

// ---------- The keys of a page ----------

/// The trimmed nonblank lines of a page.
pub fn nonblank_lines<'a>(page: &'a [char]) -> (r: Vec<&'a [char]>)
    ensures
        text::spans(r@) == text::nonblank(text::lines(page@)),
{
    nonblank_of(&lines_of(page))
}

/// The first two lines, then the last two from the bottom up.
pub open spec fn edges(lines: Seq<Seq<char>>) -> Seq<Seq<char>> {
    let n = lines.len() as int;
    if n == 0 {
        lines
    } else if n == 1 {
        seq![lines[0], lines[0]]
    } else {
        seq![lines[0], lines[1], lines[n - 1], lines[n - 2]]
    }
}

/// A line without the page numbers at its ends, its blanks collapsed.
pub open spec fn key_of(line: Seq<char>) -> Seq<char> {
    let front = patterns::without_lead_folio(text::trim(line));
    patterns::collapse(text::trim(patterns::without_trail_folio(front)))
}

/// What may be a running head: a short text that is no bare page number.
pub open spec fn head_like(key: Seq<char>) -> bool {
    &&& key.len() > 0
    &&& text::words(key).len() <= 8
    &&& !patterns::folio(key)
}

/// The keys of some lines, as far as they may be running heads.
pub open spec fn keys_of(lines: Seq<Seq<char>>) -> Seq<Seq<char>>
    decreases lines.len(),
{
    if lines.len() == 0 {
        seq![]
    } else {
        let key = key_of(lines.last());
        if head_like(key) {
            keys_of(lines.drop_last()).push(key)
        } else {
            keys_of(lines.drop_last())
        }
    }
}

/// The keys at the edges of a page.
pub open spec fn page_keys(page: Seq<char>) -> Seq<Seq<char>> {
    keys_of(edges(text::nonblank(text::lines(page))))
}

/// Normalize a line for comparison with the lines of other pages: without the
/// page number that leads or ends it, and with its blanks collapsed.
pub fn header_key(line: &[char]) -> (r: Vec<char>)
    ensures
        r@ == key_of(line@),
{
    let front = patterns::lead_folio_dropped(trimmed(line));
    let bare = patterns::trail_folio_dropped(front.as_slice());
    patterns::collapsed(trimmed(bare.as_slice()))
}

fn is_head_like(key: &[char]) -> (r: bool)
    ensures
        r == head_like(key@),
{
    if key.len() == 0 {
        return false;
    }
    let words = words_of(key);
    assert(text::spans(words@).len() == words@.len());
    words.len() <= 8 && !patterns::is_folio(key)
}

fn edge_lines<'a>(lines: &Vec<&'a [char]>) -> (r: Vec<&'a [char]>)
    ensures
        text::spans(r@) == edges(text::spans(lines@)),
{
    let n: usize = lines.len();
    let mut out: Vec<&'a [char]> = Vec::new();
    if n == 1 {
        out.push(lines[0]);
        out.push(lines[0]);
    } else if n > 1 {
        out.push(lines[0]);
        out.push(lines[1]);
        out.push(lines[n - 1]);
        out.push(lines[n - 2]);
    }
    assert(text::spans(out@) =~= edges(text::spans(lines@)));
    out
}

/// The candidates for running heads at the edges of one page.
pub fn candidates(page: &[char]) -> (r: Vec<Vec<char>>)
    ensures
        text::rows(r@) == page_keys(page@),
{
    let lines = nonblank_lines(page);
    let near = edge_lines(&lines);
    let ghost ls = text::spans(near@);
    let mut out: Vec<Vec<char>> = Vec::new();
    proof {
        assert(text::rows(out@) =~= seq![]);
    }
    for i in 0..near.len()
        invariant
            ls == text::spans(near@),
            text::rows(out@) == keys_of(ls.take(i as int)),
    {
        proof {
            assert(ls.take(i + 1).drop_last() =~= ls.take(i as int));
            assert(ls.take(i + 1).last() == near@[i as int]@);
        }
        let key = header_key(near[i]);
        if is_head_like(key.as_slice()) {
            proof {
                assert(text::rows(out@.push(key)) =~= text::rows(out@).push(key@));
            }
            out.push(key);
        }
    }
    assert(ls.take(ls.len() as int) =~= ls);
    out
}

// ---------- The heads of a book ----------

/// Each key once, in the order of first appearance.
pub open spec fn distinct(keys: Seq<Seq<char>>) -> Seq<Seq<char>>
    decreases keys.len(),
{
    if keys.len() == 0 {
        seq![]
    } else if distinct(keys.drop_last()).contains(keys.last()) {
        distinct(keys.drop_last())
    } else {
        distinct(keys.drop_last()).push(keys.last())
    }
}

/// On how many pages a key stands.
pub open spec fn pages_with(key: Seq<char>, pages: Seq<Seq<Seq<char>>>) -> nat
    decreases pages.len(),
{
    if pages.len() == 0 {
        0
    } else {
        pages_with(key, pages.drop_last()) + if pages.last().contains(key) {
            1nat
        } else {
            0nat
        }
    }
}

/// On how many of `n` pages a key has to stand to be a running head: on a
/// quarter of them, and on two at least.
pub open spec fn threshold(n: nat) -> nat {
    if (n + 3) / 4 >= 2 {
        ((n + 3) / 4) as nat
    } else {
        2
    }
}

/// The keys that stand on at least so many pages.
pub open spec fn frequent(
    keys: Seq<Seq<char>>,
    pages: Seq<Seq<Seq<char>>>,
    least: nat,
) -> Seq<Seq<char>>
    decreases keys.len(),
{
    if keys.len() == 0 {
        seq![]
    } else if pages_with(keys.last(), pages) >= least {
        frequent(keys.drop_last(), pages, least).push(keys.last())
    } else {
        frequent(keys.drop_last(), pages, least)
    }
}

/// The running heads of pages with these keys. With fewer than four pages a
/// repeated line says nothing.
pub open spec fn heads_of(pages: Seq<Seq<Seq<char>>>) -> Seq<Seq<char>> {
    if pages.len() < 4 {
        seq![]
    } else {
        frequent(distinct(text::pooled(pages)), pages, threshold(pages.len()))
    }
}

/// The running heads of a book.
pub open spec fn heads_in(pages: Seq<Seq<char>>) -> Seq<Seq<char>> {
    heads_of(pages.map_values(|p: Seq<char>| page_keys(p)))
}

/// The keys of a list of pages.
pub open spec fn tables(v: Seq<Vec<Vec<char>>>) -> Seq<Seq<Seq<char>>> {
    v.map_values(|r: Vec<Vec<char>>| text::rows(r@))
}

fn listed(list: &Vec<Vec<char>>, key: &[char]) -> (r: bool)
    ensures
        r == text::rows(list@).contains(key@),
{
    for i in 0..list.len()
        invariant
            forall|j: int| 0 <= j < i ==> text::rows(list@)[j] != key@,
    {
        if same(list[i].as_slice(), key) {
            assert(text::rows(list@)[i as int] == key@);
            return true;
        }
    }
    assert(!text::rows(list@).contains(key@));
    false
}

fn count_pages(key: &[char], pages: &Vec<Vec<Vec<char>>>) -> (r: usize)
    ensures
        r == pages_with(key@, tables(pages@)),
{
    let ghost ts = tables(pages@);
    let mut n: usize = 0;
    for i in 0..pages.len()
        invariant
            ts == tables(pages@),
            n <= i,
            n == pages_with(key@, ts.take(i as int)),
    {
        proof {
            assert(ts.take(i + 1).drop_last() =~= ts.take(i as int));
            assert(ts.take(i + 1).last() == text::rows(pages@[i as int]@));
        }
        if listed(&pages[i], key) {
            n = n + 1;
        }
    }
    assert(ts.take(ts.len() as int) =~= ts);
    n
}

fn distinct_keys(pages: &Vec<Vec<Vec<char>>>) -> (r: Vec<Vec<char>>)
    ensures
        text::rows(r@) == distinct(text::pooled(tables(pages@))),
{
    let ghost ts = tables(pages@);
    let mut out: Vec<Vec<char>> = Vec::new();
    proof {
        assert(text::rows(out@) =~= seq![]);
    }
    for i in 0..pages.len()
        invariant
            ts == tables(pages@),
            text::rows(out@) == distinct(text::pooled(ts.take(i as int))),
    {
        let page: &Vec<Vec<char>> = &pages[i];
        let ghost before = text::pooled(ts.take(i as int));
        let ghost ks = text::rows(page@);
        proof {
            assert(before + ks.take(0) =~= before);
        }
        for j in 0..page.len()
            invariant
                ks == text::rows(page@),
                text::rows(out@) == distinct(before + ks.take(j as int)),
        {
            proof {
                let more = before + ks.take(j + 1);
                assert(more.drop_last() =~= before + ks.take(j as int));
                assert(more.last() == page@[j as int]@);
            }
            if !listed(&out, page[j].as_slice()) {
                let key = copied(page[j].as_slice());
                proof {
                    assert(text::rows(out@.push(key)) =~= text::rows(out@).push(key@));
                }
                out.push(key);
            }
        }
        proof {
            assert(ks.take(ks.len() as int) =~= ks);
            assert(ts.take(i + 1).drop_last() =~= ts.take(i as int));
            assert(ts.take(i + 1).last() == ks);
        }
    }
    assert(ts.take(ts.len() as int) =~= ts);
    out
}

/// The running heads of pages with these keys, in the order in which they
/// first appear.
pub fn running_heads(pages: &Vec<Vec<Vec<char>>>) -> (r: Vec<Vec<char>>)
    ensures
        text::rows(r@) == heads_of(tables(pages@)),
{
    let mut out: Vec<Vec<char>> = Vec::new();
    proof {
        assert(text::rows(out@) =~= seq![]);
    }
    let n: usize = pages.len();
    if n < 4 {
        return out;
    }
    let quarter: usize = n / 4 + if n % 4 == 0 {
        0
    } else {
        1
    };
    let least: usize = if quarter >= 2 {
        quarter
    } else {
        2
    };
    let keys = distinct_keys(pages);
    let ghost ks = text::rows(keys@);
    let ghost ts = tables(pages@);
    for i in 0..keys.len()
        invariant
            ks == text::rows(keys@),
            ts == tables(pages@),
            text::rows(out@) == frequent(ks.take(i as int), ts, least as nat),
    {
        proof {
            assert(ks.take(i + 1).drop_last() =~= ks.take(i as int));
            assert(ks.take(i + 1).last() == keys@[i as int]@);
        }
        if count_pages(keys[i].as_slice(), pages) >= least {
            let key = copied(keys[i].as_slice());
            proof {
                assert(text::rows(out@.push(key)) =~= text::rows(out@).push(key@));
            }
            out.push(key);
        }
    }
    assert(ks.take(ks.len() as int) =~= ks);
    out
}

/// Find the lines that repeat as running heads across the pages: short lines
/// whose key stands at the top or bottom of many of them.
pub fn detect_running_heads(raw_pages: &[String]) -> (r: Vec<Vec<char>>)
    ensures
        text::rows(r@) == heads_in(text::texts(raw_pages@)),
{
    if raw_pages.len() < 4 {
        let none: Vec<Vec<char>> = Vec::new();
        assert(text::rows(none@) =~= seq![]);
        return none;
    }
    let pages = rows_of(raw_pages);
    let ghost ps = text::rows(pages@);
    let mut keys: Vec<Vec<Vec<char>>> = Vec::new();
    for i in 0..pages.len()
        invariant
            ps == text::rows(pages@),
            tables(keys@) == ps.take(i as int).map_values(|p: Seq<char>| page_keys(p)),
    {
        let found = candidates(pages[i].as_slice());
        proof {
            let f = |p: Seq<char>| page_keys(p);
            assert(tables(keys@.push(found)) =~= tables(keys@).push(text::rows(found@)));
            assert(ps.take(i + 1).map_values(f) =~= ps.take(i as int).map_values(f).push(
                page_keys(ps[i as int]),
            ));
        }
        keys.push(found);
    }
    assert(ps.take(ps.len() as int) =~= ps);
    running_heads(&keys)
}

// ---------- What makes a running head ----------

proof fn lemma_distinct(keys: Seq<Seq<char>>)
    ensures
        distinct(keys).no_duplicates(),
        forall|k: Seq<char>| #[trigger] distinct(keys).contains(k) <==> keys.contains(k),
    decreases keys.len(),
{
    if keys.len() > 0 {
        let front = keys.drop_last();
        let last = keys.last();
        lemma_distinct(front);
        let d = distinct(front);
        assert forall|k: Seq<char>| #[trigger] keys.contains(k) <==> (front.contains(k) || k == last) by {
            if front.contains(k) {
                let i = front.index_of(k);
                assert(keys[i] == k);
            }
            if keys.contains(k) && k != last {
                let i = keys.index_of(k);
                assert(front[i] == k);
            }
            assert(keys[keys.len() - 1] == last);
        }
        if !d.contains(last) {
            assert forall|k: Seq<char>| #[trigger] d.push(last).contains(k) <==> (d.contains(k) || k
                == last) by {
                if d.contains(k) {
                    let i = d.index_of(k);
                    assert(d.push(last)[i] == k);
                }
                assert(d.push(last)[d.len() as int] == last);
            }
        }
    }
}

proof fn lemma_frequent(keys: Seq<Seq<char>>, pages: Seq<Seq<Seq<char>>>, least: nat)
    ensures
        keys.no_duplicates() ==> frequent(keys, pages, least).no_duplicates(),
        forall|k: Seq<char>| #[trigger]
            frequent(keys, pages, least).contains(k) <==> keys.contains(k) && pages_with(k, pages)
                >= least,
    decreases keys.len(),
{
    if keys.len() > 0 {
        let front = keys.drop_last();
        let last = keys.last();
        lemma_frequent(front, pages, least);
        let d = frequent(front, pages, least);
        assert forall|k: Seq<char>| #[trigger] keys.contains(k) <==> (front.contains(k) || k == last) by {
            if front.contains(k) {
                let i = front.index_of(k);
                assert(keys[i] == k);
            }
            if keys.contains(k) && k != last {
                let i = keys.index_of(k);
                assert(front[i] == k);
            }
            assert(keys[keys.len() - 1] == last);
        }
        assert forall|k: Seq<char>| #[trigger] d.push(last).contains(k) <==> (d.contains(k) || k == last) by {
            if d.contains(k) {
                let i = d.index_of(k);
                assert(d.push(last)[i] == k);
            }
            assert(d.push(last)[d.len() as int] == last);
        }
        if keys.no_duplicates() {
            assert(front.no_duplicates());
            if d.contains(last) {
                let i = front.index_of(last);
                assert(keys[i] == keys[keys.len() - 1]);
            }
        }
    }
}

proof fn lemma_pooled(key: Seq<char>, pages: Seq<Seq<Seq<char>>>)
    ensures
        text::pooled(pages).contains(key) <==> pages_with(key, pages) > 0,
    decreases pages.len(),
{
    if pages.len() > 0 {
        let front = text::pooled(pages.drop_last());
        let last = pages.last();
        lemma_pooled(key, pages.drop_last());
        let all = front + last;
        if front.contains(key) {
            let i = front.index_of(key);
            assert(all[i] == key);
        }
        if last.contains(key) {
            let i = last.index_of(key);
            assert(all[front.len() + i] == key);
        }
        if all.contains(key) {
            let i = all.index_of(key);
            if i < front.len() {
                assert(front[i] == key);
            } else {
                assert(last[i - front.len()] == key);
            }
        }
    }
}

/// A key is a running head exactly where there are four pages or more and it
/// stands on a quarter of them, and on two at least; no head is listed twice.
pub proof fn running_heads_recur(pages: Seq<Seq<Seq<char>>>, key: Seq<char>)
    ensures
        heads_of(pages).contains(key) <==> pages.len() >= 4 && pages_with(key, pages) >= 2 && 4
            * pages_with(key, pages) >= pages.len(),
        heads_of(pages).no_duplicates(),
{
    lemma_distinct(text::pooled(pages));
    lemma_frequent(distinct(text::pooled(pages)), pages, threshold(pages.len()));
    lemma_pooled(key, pages);
}

proof fn lemma_keys_of(lines: Seq<Seq<char>>)
    ensures
        forall|k: Seq<char>| #[trigger] keys_of(lines).contains(k) ==> head_like(k),
    decreases lines.len(),
{
    if lines.len() > 0 {
        let front = keys_of(lines.drop_last());
        let key = key_of(lines.last());
        lemma_keys_of(lines.drop_last());
        assert forall|k: Seq<char>| #[trigger] front.push(key).contains(k) implies front.contains(k)
            || k == key by {
            let i = front.push(key).index_of(k);
            if i < front.len() {
                assert(front[i] == k);
            }
        }
    }
}

proof fn lemma_page_with(key: Seq<char>, pages: Seq<Seq<Seq<char>>>)
    requires
        pages_with(key, pages) > 0,
    ensures
        exists|i: int| 0 <= i < pages.len() && #[trigger] pages[i].contains(key),
    decreases pages.len(),
{
    if pages.last().contains(key) {
        assert(pages[pages.len() - 1].contains(key));
    } else {
        lemma_page_with(key, pages.drop_last());
        let i = choose|i: int|
            0 <= i < pages.len() - 1 && #[trigger] pages.drop_last()[i].contains(key);
        assert(pages[i].contains(key));
    }
}

/// Every running head of a book is a short text that is no bare page number.
pub proof fn running_heads_are_short(pages: Seq<Seq<char>>, key: Seq<char>)
    requires
        heads_in(pages).contains(key),
    ensures
        head_like(key),
{
    let tables = pages.map_values(|p: Seq<char>| page_keys(p));
    running_heads_recur(tables, key);
    lemma_page_with(key, tables);
    let i = choose|i: int| 0 <= i < tables.len() && #[trigger] tables[i].contains(key);
    assert(tables[i] == page_keys(pages[i]));
    lemma_keys_of(edges(text::nonblank(text::lines(pages[i]))));
}

// ---------- Taking heads off a block ----------

/// What follows the head at the front of a text, if the head ends at a
/// boundary there.
pub open spec fn after_head(s: Seq<char>, head: Seq<char>) -> Option<Seq<char>> {
    let rest = s.skip(head.len() as int);
    if text::starts_with(s, head) && (rest.len() == 0 || chars::white(rest[0]) || rest[0] == '.') {
        Some(text::trim_front(rest, CharClass::HeadSeparator))
    } else {
        None
    }
}

/// What stands before the head at the end of a text, if the head begins at a
/// boundary there.
pub open spec fn before_head(s: Seq<char>, head: Seq<char>) -> Option<Seq<char>> {
    let rest = s.take(s.len() - head.len());
    if text::ends_with(s, head) && (rest.len() == 0 || chars::white(rest.last())) {
        Some(text::trim_back(rest, CharClass::White))
    } else {
        None
    }
}

/// The text without the first of the heads that stands at its front.
pub open spec fn off_front(s: Seq<char>, heads: Seq<Seq<char>>) -> Option<Seq<char>>
    decreases heads.len(),
{
    if heads.len() == 0 {
        None
    } else {
        match after_head(s, heads[0]) {
            Some(rest) => Some(rest),
            None => off_front(s, heads.skip(1)),
        }
    }
}

/// The text without the first of the heads that stands at its end.
pub open spec fn off_back(s: Seq<char>, heads: Seq<Seq<char>>) -> Option<Seq<char>>
    decreases heads.len(),
{
    if heads.len() == 0 {
        None
    } else {
        match before_head(s, heads[0]) {
            Some(rest) => Some(rest),
            None => off_back(s, heads.skip(1)),
        }
    }
}

/// The text without a page number and a head at its front, if there is a head.
pub open spec fn peel(s: Seq<char>, heads: Seq<Seq<char>>) -> Option<Seq<char>> {
    off_front(patterns::without_lead_folio(s), heads)
}

/// The text without up to two heads at its front.
pub open spec fn peel_twice(s: Seq<char>, heads: Seq<Seq<char>>) -> Seq<char> {
    match peel(s, heads) {
        Some(once) => match peel(once, heads) {
            Some(twice) => twice,
            None => once,
        },
        None => s,
    }
}

/// A block without the running heads at its ends.
pub open spec fn strip(block: Seq<char>, heads: Seq<Seq<char>>) -> Seq<char> {
    if heads.len() == 0 {
        block
    } else {
        let s = peel_twice(text::trim(block), heads);
        let end = patterns::without_trail_folio(text::trim_back(s, CharClass::White));
        match off_back(end, heads) {
            Some(rest) => rest,
            None => s,
        }
    }
}

/// Take the first of the heads that stands at the front of a text off it.
pub fn peel_front(s: &[char], heads: &Vec<Vec<char>>) -> (r: Option<Vec<char>>)
    ensures
        match r {
            Some(rest) => off_front(s@, text::rows(heads@)) == Some(rest@),
            None => off_front(s@, text::rows(heads@)) is None,
        },
{
    let ghost hs = text::rows(heads@);
    proof {
        assert(hs.skip(0) =~= hs);
    }
    for i in 0..heads.len()
        invariant
            hs == text::rows(heads@),
            off_front(s@, hs) == off_front(s@, hs.skip(i as int)),
    {
        let head: &[char] = heads[i].as_slice();
        proof {
            assert(hs.skip(i as int)[0] == head@);
            assert(hs.skip(i as int).skip(1) =~= hs.skip(i + 1));
        }
        if is_at(s, head, 0) {
            let rest = slice_subrange(s, head.len(), s.len());
            proof {
                assert(rest@ =~= s@.skip(head@.len() as int));
            }
            if rest.len() == 0 || is_white(rest[0]) || rest[0] == '.' {
                return Some(copied(trimmed_front(rest, CharClass::HeadSeparator)));
            }
        }
    }
    None
}

/// Take the first of the heads that stands at the end of a text off it.
pub fn peel_back(s: &[char], heads: &Vec<Vec<char>>) -> (r: Option<Vec<char>>)
    ensures
        match r {
            Some(rest) => off_back(s@, text::rows(heads@)) == Some(rest@),
            None => off_back(s@, text::rows(heads@)) is None,
        },
{
    let ghost hs = text::rows(heads@);
    proof {
        assert(hs.skip(0) =~= hs);
    }
    for i in 0..heads.len()
        invariant
            hs == text::rows(heads@),
            off_back(s@, hs) == off_back(s@, hs.skip(i as int)),
    {
        let head: &[char] = heads[i].as_slice();
        proof {
            assert(hs.skip(i as int)[0] == head@);
            assert(hs.skip(i as int).skip(1) =~= hs.skip(i + 1));
        }
        if head.len() <= s.len() && is_at(s, head, s.len() - head.len()) {
            let rest = slice_subrange(s, 0, s.len() - head.len());
            proof {
                assert(rest@ =~= s@.take(s@.len() - head@.len()));
            }
            if rest.len() == 0 || is_white(rest[rest.len() - 1]) {
                return Some(copied(trimmed_back(rest, CharClass::White)));
            }
        }
    }
    None
}

proof fn lemma_off_free(s: Seq<char>, heads: Seq<Seq<char>>, cl: CharClass)
    requires
        text::free(s, cl),
    ensures
        off_front(s, heads) matches Some(rest) ==> text::free(rest, cl),
        off_back(s, heads) matches Some(rest) ==> text::free(rest, cl),
    decreases heads.len(),
{
    if heads.len() > 0 {
        lemma_off_free(s, heads.skip(1), cl);
        let h = heads[0].len() as int;
        if h <= s.len() {
            text::lemma_free_part(s, h, s.len() as int, cl);
            text::lemma_free_trims(s.skip(h), CharClass::HeadSeparator, cl);
            text::lemma_free_part(s, 0, s.len() - h, cl);
            text::lemma_free_trims(s.take(s.len() - h), CharClass::White, cl);
        }
    }
}

/// Strip the running heads off a block where they stand at its start or its
/// end, also where they are fused onto the body text. A block of one line stays
/// one line.
pub fn strip_running_heads(block: &[char], heads: &Vec<Vec<char>>) -> (r: Vec<char>)
    ensures
        r@ == strip(block@, text::rows(heads@)),
        text::free(block@, CharClass::Newline) ==> text::free(r@, CharClass::Newline),
{
    let ghost hs = text::rows(heads@);
    let ghost line = text::free(block@, CharClass::Newline);
    assert(hs.len() == heads@.len());
    if heads.len() == 0 {
        return copied(block);
    }
    let mut s = copied(trimmed(block));
    proof {
        if line {
            text::lemma_free_trims(block@, CharClass::White, CharClass::Newline);
        }
    }
    let bare = patterns::lead_folio_dropped(s.as_slice());
    proof {
        if line {
            lemma_off_free(bare@, hs, CharClass::Newline);
        }
    }
    if let Some(once) = peel_front(bare.as_slice(), heads) {
        let again = patterns::lead_folio_dropped(once.as_slice());
        proof {
            if line {
                lemma_off_free(again@, hs, CharClass::Newline);
            }
        }
        s = match peel_front(again.as_slice(), heads) {
            Some(twice) => twice,
            None => once,
        };
    }
    proof {
        if line {
            text::lemma_free_trims(s@, CharClass::White, CharClass::Newline);
        }
    }
    let end = patterns::trail_folio_dropped(trimmed_back(s.as_slice(), CharClass::White));
    proof {
        if line {
            lemma_off_free(end@, hs, CharClass::Newline);
        }
    }
    match peel_back(end.as_slice(), heads) {
        Some(rest) => rest,
        None => s,
    }
}

/// Where there are no running heads a block stays as it is.
pub proof fn no_heads_no_change(block: Seq<char>)
    ensures
        strip(block, seq![]) == block,
{
}

// ---------- What taking heads off leaves alone ----------

proof fn lemma_plain_part(s: Seq<char>, a: int, b: int)
    requires
        patterns::plain(s),
        0 <= a <= b <= s.len(),
    ensures
        patterns::plain(s.subrange(a, b)),
{
    let t = s.subrange(a, b);
    assert forall|i: int| 0 <= i < t.len() implies (#[trigger] t[i] < '\u{660}' || '\u{2000}'
        <= t[i] <= '\u{206f}') by {
        assert(t[i] == s[a + i]);
    }
}

proof fn lemma_number_front(s: Seq<char>) -> (k: int)
    requires
        patterns::plain(s),
    ensures
        0 <= k <= s.len(),
        patterns::without_lead_folio(s) == s.subrange(k, s.len() as int),
{
    let a = text::lemma_trim_front_suffix(s, CharClass::White);
    let t = text::trim_front(s, CharClass::White);
    patterns::lemma_digits_front(t, 4);
    let n = patterns::digits_front(t, 4) as int;
    if n == 0 {
        assert(s =~= s.subrange(0, s.len() as int));
        0
    } else {
        let b = text::lemma_trim_front_suffix(t.skip(n), CharClass::White);
        assert(t.skip(n).skip(b) =~= s.subrange(a + n + b, s.len() as int));
        a + n + b
    }
}

proof fn lemma_number_back(s: Seq<char>) -> (k: int)
    requires
        patterns::plain(s),
    ensures
        0 <= k <= s.len(),
        patterns::without_trail_folio(s) == s.subrange(0, k),
{
    let a = text::lemma_trim_back_prefix(s, CharClass::White);
    let t = text::trim_back(s, CharClass::White);
    patterns::lemma_digits_back(t);
    let n = patterns::digits_back(t) as int;
    if n == 0 {
        assert(s =~= s.subrange(0, s.len() as int));
        s.len() as int
    } else if n <= 4 {
        let b = text::lemma_trim_back_prefix(t.take(t.len() - n), CharClass::White);
        assert(t.take(t.len() - n).take(b) =~= s.subrange(0, b));
        b
    } else {
        assert(t.take(t.len() - 4) =~= s.subrange(0, a - 4));
        a - 4
    }
}

proof fn lemma_no_front(s: Seq<char>, heads: Seq<Seq<char>>)
    requires
        forall|i: int| 0 <= i < heads.len() ==> !text::contains(s, #[trigger] heads[i]),
    ensures
        off_front(s, heads) is None,
        off_back(s, heads) is None,
    decreases heads.len(),
{
    if heads.len() > 0 {
        assert(!text::contains(s, heads[0]));
        let rest = heads.skip(1);
        assert forall|i: int| 0 <= i < rest.len() implies !text::contains(s, #[trigger] rest[i]) by {
            assert(rest[i] == heads[i + 1]);
        }
        lemma_no_front(s, rest);
    }
}

/// A block in which no running head occurs loses nothing but the blanks at its
/// ends.
pub proof fn blocks_without_heads_stay(block: Seq<char>, heads: Seq<Seq<char>>)
    requires
        patterns::plain(block),
        forall|i: int| 0 <= i < heads.len() ==> !text::contains(block, #[trigger] heads[i]),
    ensures
        text::trim(strip(block, heads)) == text::trim(block),
{
    if heads.len() > 0 {
        let (a, b) = text::lemma_trim_inside(block);
        let s = text::trim(block);
        lemma_plain_part(block, a, b);
        let k = lemma_number_front(s);
        let front = patterns::without_lead_folio(s);
        assert(front =~= block.subrange(a + k, b));
        let c = text::lemma_trim_back_prefix(s, CharClass::White);
        let t = text::trim_back(s, CharClass::White);
        assert(t =~= block.subrange(a, a + c));
        lemma_plain_part(block, a, a + c);
        let e = lemma_number_back(t);
        let end = patterns::without_trail_folio(t);
        assert(end =~= block.subrange(a, a + e));
        assert forall|i: int| 0 <= i < heads.len() implies !text::contains(
            front,
            #[trigger] heads[i],
        ) && !text::contains(end, heads[i]) by {
            if text::contains(front, heads[i]) {
                text::lemma_contains_part(block, a + k, b, heads[i]);
            }
            if text::contains(end, heads[i]) {
                text::lemma_contains_part(block, a, a + e, heads[i]);
            }
        }
        lemma_no_front(front, heads);
        lemma_no_front(end, heads);
        text::lemma_trim_again(block);
    }
}

/// A running head in front of a block is taken off, and nothing else is.
pub proof fn head_in_front_is_taken(head: Seq<char>, rest: Seq<char>)
    requires
        head.len() > 0,
        !chars::white(head[0]),
        !('0' <= head[0] <= '9'),
        rest.len() > 0,
        !chars::white(rest[0]),
        rest[0] != '.',
        !('0' <= rest[0] <= '9'),
        !chars::white(rest.last()),
        !text::contains(rest, head),
        patterns::plain(head),
        patterns::plain(rest),
    ensures
        strip(head + seq![' '] + rest, seq![head]) == rest,
{
    let heads = seq![head];
    let s = head + seq![' '] + rest;
    let n = head.len() as int;
    assert forall|i: int| 0 <= i < s.len() implies (#[trigger] s[i] < '\u{660}' || '\u{2000}'
        <= s[i] <= '\u{206f}') by {
        if i < n {
            assert(s[i] == head[i]);
        } else if i > n {
            assert(s[i] == rest[i - n - 1]);
        }
    }
    assert(s[0] == head[0]);
    assert(s.last() == rest.last());
    reveal_with_fuel(text::trim_front, 3);
    assert(text::trim(s) == s);
    assert(patterns::without_lead_folio(s) == s);
    assert(s.subrange(0, n) =~= head);
    let after = s.skip(n);
    assert(after =~= seq![' '] + rest);
    assert(after[0] == ' ');
    assert(after.skip(1) =~= rest);
    assert(after_head(s, head) == Some(rest));
    reveal_with_fuel(off_front, 2);
    assert(heads[0] == head);
    assert(peel(s, heads) == Some(rest));
    assert(patterns::without_lead_folio(rest) == rest);
    lemma_no_front(rest, heads);
    assert(peel_twice(s, heads) == rest);
    assert(text::trim_back(rest, CharClass::White) == rest);
    let e = lemma_number_back(rest);
    let end = patterns::without_trail_folio(rest);
    if text::contains(end, head) {
        text::lemma_contains_part(rest, 0, e, head);
    }
    lemma_no_front(end, heads);
}

/// Fewer than four pages have no running heads.
pub proof fn few_pages_have_no_heads(pages: Seq<Seq<char>>)
    requires
        pages.len() < 4,
    ensures
        heads_in(pages).len() == 0,
{
}

/// A page number before or behind a line does not count: the key of a line
/// without one is the line itself.
pub proof fn page_numbers_do_not_count(line: Seq<char>, number: Seq<char>)
    requires
        line.len() > 0,
        patterns::plain(line),
        !chars::white(line[0]),
        !chars::white(line.last()),
        !('0' <= line[0] <= '9'),
        !('0' <= line.last() <= '9'),
        forall|i: int, j: int|
            0 <= i && j == i + 1 && j < line.len() ==> !(CharClass::Blank.has(#[trigger] line[i])
                && CharClass::Blank.has(#[trigger] line[j])),
        0 < number.len() <= 4,
        forall|i: int| 0 <= i < number.len() ==> '0' <= #[trigger] number[i] <= '9',
    ensures
        key_of(line) == line,
        key_of(number + seq![' '] + line) == line,
        key_of(line + seq![' '] + number) == line,
{
    lemma_key_plain(line);
    let a = number + seq![' '] + line;
    let b = line + seq![' '] + number;
    let n = number.len() as int;
    let m = line.len() as int;
    assert forall|i: int| 0 <= i < a.len() implies (#[trigger] a[i] < '\u{660}' || '\u{2000}'
        <= a[i] <= '\u{206f}') by {
        if i < n {
            assert(a[i] == number[i]);
        } else if i > n {
            assert(a[i] == line[i - n - 1]);
        }
    }
    assert forall|i: int| 0 <= i < b.len() implies (#[trigger] b[i] < '\u{660}' || '\u{2000}'
        <= b[i] <= '\u{206f}') by {
        if i < m {
            assert(b[i] == line[i]);
        } else if i > m {
            assert(b[i] == number[i - m - 1]);
        }
    }
    // In front.
    assert(a[0] == number[0] && a.last() == line.last());
    assert(text::trim(a) == a);
    patterns::lemma_digits_front(a, 4);
    assert(a[n] == ' ');
    let k = patterns::digits_front(a, 4) as int;
    if k > n {
        assert(chars::ascii_digit(a[n]));
    } else if k < n {
        assert(a[k] == number[k]);
    }
    let rest = a.skip(n);
    assert(rest[0] == ' ');
    assert(rest.skip(1) =~= line);
    reveal_with_fuel(text::trim_front, 3);
    assert(patterns::without_lead_folio(a) == line);
    // Behind.
    assert(b[0] == line[0] && b.last() == number[n - 1]);
    assert(text::trim(b) == b);
    assert(patterns::without_lead_folio(b) == b);
    patterns::lemma_digits_back(b);
    let j = patterns::digits_back(b) as int;
    if j > n {
        assert(b[m] == ' ' && chars::ascii_digit(b[m]));
    } else if j < n {
        assert(b[b.len() - j - 1] == number[n - j - 1]);
    }
    let front = b.take(b.len() - n);
    assert(front.last() == ' ');
    assert(front.drop_last() =~= line);
    reveal_with_fuel(text::trim_back, 3);
    assert(patterns::without_trail_folio(b) == line);
}

proof fn lemma_key_plain(line: Seq<char>)
    requires
        line.len() > 0,
        patterns::plain(line),
        !chars::white(line[0]),
        !chars::white(line.last()),
        !('0' <= line[0] <= '9'),
        !('0' <= line.last() <= '9'),
        forall|i: int, j: int|
            0 <= i && j == i + 1 && j < line.len() ==> !(CharClass::Blank.has(#[trigger] line[i])
                && CharClass::Blank.has(#[trigger] line[j])),
    ensures
        text::trim(line) == line,
        patterns::without_lead_folio(line) == line,
        patterns::without_trail_folio(line) == line,
        patterns::collapse(line) == line,
        key_of(line) == line,
{
    lemma_collapse_none(line);
}

proof fn lemma_collapse_none(s: Seq<char>)
    requires
        forall|i: int, j: int|
            0 <= i && j == i + 1 && j < s.len() ==> !(CharClass::Blank.has(#[trigger] s[i])
                && CharClass::Blank.has(#[trigger] s[j])),
    ensures
        patterns::collapse(s) == s,
    decreases s.len(),
{
    if s.len() > 0 {
        let t = s.skip(1);
        assert forall|i: int, j: int| 0 <= i && j == i + 1 && j < t.len() implies !(
        CharClass::Blank.has(#[trigger] t[i]) && CharClass::Blank.has(#[trigger] t[j])) by {
            assert(t[i] == s[i + 1] && t[j] == s[j + 1]);
        }
        lemma_collapse_none(t);
        if s.len() >= 2 {
            assert(!(CharClass::Blank.has(s[0]) && CharClass::Blank.has(s[1])));
        }
        assert(seq![s[0]] + t =~= s);
    }
}

proof fn lemma_keys_complete(lines: Seq<Seq<char>>, i: int)
    requires
        0 <= i < lines.len(),
        key_of(lines[i]).len() > 0,
        text::words(key_of(lines[i])).len() <= 8,
        !patterns::folio(key_of(lines[i])),
    ensures
        keys_of(lines).contains(key_of(lines[i])),
    decreases lines.len(),
{
    let front = lines.drop_last();
    let key = key_of(lines[i]);
    if i < front.len() {
        assert(front[i] == lines[i]);
        lemma_keys_complete(front, i);
        let k = keys_of(front).index_of(key);
        assert(keys_of(lines)[k] == key);
    } else {
        assert(keys_of(lines)[keys_of(front).len() as int] == key);
    }
}

/// The two first and the two last lines of a page that are not blank are looked
/// at: each whose key is no page number and has up to eight words is a
/// candidate.
pub proof fn edge_lines_are_candidates(page: Seq<char>, i: int)
    requires
        ({
            let lines = text::nonblank(text::lines(page));
            let key = key_of(lines[i]);
            &&& 0 <= i < lines.len()
            &&& i < 2 || i + 2 >= lines.len()
            &&& key.len() > 0
            &&& text::words(key).len() <= 8
            &&& !patterns::folio(key)
        }),
    ensures
        page_keys(page).contains(key_of(text::nonblank(text::lines(page))[i])),
{
    let lines = text::nonblank(text::lines(page));
    let n = lines.len() as int;
    let e = edges(lines);
    let j: int = if i < 2 {
        i
    } else if i == n - 1 {
        2
    } else {
        3
    };
    assert(e[j] == lines[i]);
    lemma_keys_complete(e, j);
}

proof fn lemma_keys_sound(lines: Seq<Seq<char>>, key: Seq<char>) -> (i: int)
    requires
        keys_of(lines).contains(key),
    ensures
        0 <= i < lines.len(),
        key == key_of(lines[i]),
        0 < key.len() && text::words(key).len() <= 8 && !patterns::folio(key),
    decreases lines.len(),
{
    let front = lines.drop_last();
    let last = key_of(lines.last());
    if key == last && head_like(last) {
        lines.len() - 1
    } else {
        let k = keys_of(lines).index_of(key);
        assert(keys_of(front)[k] == key);
        let i = lemma_keys_sound(front, key);
        assert(front[i] == lines[i]);
        i
    }
}

/// No other line of a page is a candidate.
pub proof fn candidates_stand_at_the_edges(page: Seq<char>, key: Seq<char>) -> (i: int)
    requires
        page_keys(page).contains(key),
    ensures
        0 <= i < text::nonblank(text::lines(page)).len(),
        i < 2 || i + 2 >= text::nonblank(text::lines(page)).len(),
        key == key_of(text::nonblank(text::lines(page))[i]),
        0 < key.len() && text::words(key).len() <= 8 && !patterns::folio(key),
{
    let lines = text::nonblank(text::lines(page));
    let n = lines.len() as int;
    let j = lemma_keys_sound(edges(lines), key);
    if n == 1 {
        0
    } else if j < 2 {
        j
    } else if j == 2 {
        n - 1
    } else {
        n - 2
    }
}

/// The pages that show a key are counted one by one.
pub proof fn pages_are_counted(key: Seq<char>, a: Seq<Seq<Seq<char>>>, b: Seq<Seq<Seq<char>>>)
    ensures
        pages_with(key, a + b) == pages_with(key, a) + pages_with(key, b),
        pages_with(key, a) <= a.len(),
        pages_with(key, a) == a.len() <==> forall|i: int|
            0 <= i < a.len() ==> (#[trigger] a[i]).contains(key),
        pages_with(key, a) == 0 <==> forall|i: int|
            0 <= i < a.len() ==> !(#[trigger] a[i]).contains(key),
    decreases b.len(), a.len(),
{
    if b.len() > 0 {
        pages_are_counted(key, a, b.drop_last());
        assert((a + b).drop_last() =~= a + b.drop_last());
    } else {
        assert(a + b =~= a);
        if a.len() > 0 {
            let front = a.drop_last();
            pages_are_counted(key, front, b);
            assert(forall|i: int| 0 <= i < front.len() ==> front[i] == #[trigger] a[i]);
            assert(a.last() == a[a.len() - 1]);
        }
    }
}

/// A line that opens every page of a book of four pages or more, with a page
/// number or without, is a running head of it.
pub proof fn repeated_first_line_is_a_head(pages: Seq<Seq<char>>, key: Seq<char>)
    requires
        pages.len() >= 4,
        0 < key.len() && text::words(key).len() <= 8 && !patterns::folio(key),
        forall|i: int|
            0 <= i < pages.len() ==> text::nonblank(text::lines(#[trigger] pages[i])).len() > 0
                && key_of(text::nonblank(text::lines(pages[i]))[0]) == key,
    ensures
        heads_in(pages).contains(key),
{
    let tables = pages.map_values(|p: Seq<char>| page_keys(p));
    assert forall|i: int| 0 <= i < tables.len() implies (#[trigger] tables[i]).contains(key) by {
        assert(tables[i] == page_keys(pages[i]));
        edge_lines_are_candidates(pages[i], 0);
    }
    pages_are_counted(key, tables, seq![]);
    running_heads_recur(tables, key);
}

/// A running head behind a block is taken off, and nothing else is.
pub proof fn head_behind_is_taken(rest: Seq<char>, head: Seq<char>)
    requires
        rest.len() > 0,
        !chars::white(rest[0]),
        !('0' <= rest[0] <= '9'),
        !chars::white(rest.last()),
        head.len() > 0,
        !chars::white(head.last()),
        !('0' <= head.last() <= '9'),
        !text::starts_with(rest + seq![' '] + head, head),
        patterns::plain(rest),
        patterns::plain(head),
    ensures
        strip(rest + seq![' '] + head, seq![head]) == rest,
{
    let heads = seq![head];
    let s = rest + seq![' '] + head;
    let n = rest.len() as int;
    assert forall|i: int| 0 <= i < s.len() implies (#[trigger] s[i] < '\u{660}' || '\u{2000}'
        <= s[i] <= '\u{206f}') by {
        if i < n {
            assert(s[i] == rest[i]);
        } else if i > n {
            assert(s[i] == head[i - n - 1]);
        }
    }
    assert(s[0] == rest[0]);
    assert(s.last() == head.last());
    assert(text::trim(s) == s);
    assert(patterns::without_lead_folio(s) == s);
    assert(heads[0] == head);
    assert(heads.skip(1).len() == 0);
    reveal_with_fuel(off_front, 2);
    assert(peel(s, heads) is None);
    assert(text::trim_back(s, CharClass::White) == s);
    assert(patterns::without_trail_folio(s) == s);
    assert(s.subrange(n + 1, s.len() as int) =~= head);
    let front = s.take(s.len() - head.len());
    assert(front.last() == ' ');
    assert(front.drop_last() =~= rest);
    reveal_with_fuel(text::trim_back, 3);
    assert(before_head(s, head) == Some(rest));
    reveal_with_fuel(off_back, 2);
}

proof fn lemma_number_off(number: Seq<char>, s: Seq<char>)
    requires
        0 < number.len() <= 4,
        forall|i: int| 0 <= i < number.len() ==> '0' <= #[trigger] number[i] <= '9',
        s.len() > 0,
        !chars::white(s[0]),
        patterns::plain(s),
    ensures
        patterns::plain(number + seq![' '] + s),
        patterns::without_lead_folio(number + seq![' '] + s) == s,
{
    let a = number + seq![' '] + s;
    let n = number.len() as int;
    assert forall|i: int| 0 <= i < a.len() implies (#[trigger] a[i] < '\u{660}' || '\u{2000}'
        <= a[i] <= '\u{206f}') by {
        if i < n {
            assert(a[i] == number[i]);
        } else if i > n {
            assert(a[i] == s[i - n - 1]);
        }
    }
    assert(a[0] == number[0]);
    patterns::lemma_digits_front(a, 4);
    assert(a[n] == ' ');
    let k = patterns::digits_front(a, 4) as int;
    if k > n {
        assert(chars::ascii_digit(a[n]));
    } else if k < n {
        assert(a[k] == number[k]);
    }
    let rest = a.skip(n);
    assert(rest[0] == ' ');
    assert(rest.skip(1) =~= s);
    reveal_with_fuel(text::trim_front, 3);
}

/// A page number goes with the head that follows it.
pub proof fn number_and_head_are_taken(number: Seq<char>, head: Seq<char>, rest: Seq<char>)
    requires
        0 < number.len() <= 4,
        forall|i: int| 0 <= i < number.len() ==> '0' <= #[trigger] number[i] <= '9',
        head.len() > 0,
        !chars::white(head[0]),
        !('0' <= head[0] <= '9'),
        rest.len() > 0,
        !chars::white(rest[0]),
        rest[0] != '.',
        !('0' <= rest[0] <= '9'),
        !chars::white(rest.last()),
        !text::contains(rest, head),
        patterns::plain(head),
        patterns::plain(rest),
    ensures
        strip(number + seq![' '] + (head + seq![' '] + rest), seq![head]) == rest,
{
    let heads = seq![head];
    let s = head + seq![' '] + rest;
    let a = number + seq![' '] + s;
    head_in_front_is_taken(head, rest);
    let n = head.len() as int;
    assert forall|i: int| 0 <= i < s.len() implies (#[trigger] s[i] < '\u{660}' || '\u{2000}'
        <= s[i] <= '\u{206f}') by {
        if i < n {
            assert(s[i] == head[i]);
        } else if i > n {
            assert(s[i] == rest[i - n - 1]);
        }
    }
    assert(s[0] == head[0] && s.last() == rest.last());
    lemma_number_off(number, s);
    assert(a[0] == number[0] && a.last() == rest.last());
    assert(text::trim(a) == a);
    assert(text::trim(s) == s);
    assert(patterns::without_lead_folio(s) == s);
    assert(peel(a, heads) == peel(s, heads));
    assert(after_head(s, head) is Some) by {
        assert(s.subrange(0, n) =~= head);
        assert(s.skip(n)[0] == ' ');
    }
    reveal_with_fuel(off_front, 2);
    assert(heads[0] == head);
    assert(peel(s, heads) is Some);
}

/// The candidates of the pages are seen whole and in order.
pub proof fn tables_are_seen_in_order(v: Seq<Vec<Vec<char>>>, i: int)
    requires
        0 <= i < v.len(),
    ensures
        tables(v).len() == v.len(),
        tables(v)[i] == text::rows(v[i]@),
{
}

} // verus!
