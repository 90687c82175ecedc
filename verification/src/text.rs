//! Text as sequences of characters: trimming, searching, splitting, joining.
//!
//! The functions here work on character slices. Each has a specification of
//! its own over `Seq<char>`, and the rest of the library is stated over those.
use crate::chars::{is_ascii, is_white, to_ascii_lower, CharClass};
use crate::chars;
use vstd::prelude::*;
use vstd::slice::slice_subrange;

verus! {

/// The texts of a list of strings.
pub open spec fn texts(v: Seq<String>) -> Seq<Seq<char>> {
    v.map_values(|s: String| s@)
}

/// The texts of a list of character buffers.
pub open spec fn rows(v: Seq<Vec<char>>) -> Seq<Seq<char>> {
    v.map_values(|r: Vec<char>| r@)
}

/// The texts of a list of character slices.
pub open spec fn spans(v: Seq<&[char]>) -> Seq<Seq<char>> {
    v.map_values(|r: &[char]| r@)
}

// ---------- Strings and characters ----------

/// `String::push` appends one character to the end of the string.
pub assume_specification[ String::push ](s: &mut String, c: char)
    ensures
        final(s)@ == old(s)@.push(c),
;

/// The characters of a string, in order.
pub fn chars_of(s: &str) -> (r: Vec<char>)
    ensures
        r@ == s@,
{
    let mut out: Vec<char> = Vec::new();
    for c in it: s.chars()
        invariant
            it.seq() == s@,
            out@ == s@.take(it.index()),
    {
        out.push(c);
    }
    out
}

/// The string with the given characters.
pub fn string_of(v: &[char]) -> (r: String)
    ensures
        r@ == v@,
{
    let mut out = String::new();
    for i in 0..v.len()
        invariant
            out@ == v@.take(i as int),
    {
        out.push(v[i]);
    }
    out
}

/// One string per character buffer.
pub fn strings_of(v: &Vec<Vec<char>>) -> (r: Vec<String>)
    ensures
        texts(r@) == rows(v@),
{
    let mut out: Vec<String> = Vec::new();
    for i in 0..v.len()
        invariant
            texts(out@) == rows(v@).take(i as int),
    {
        let s = string_of(v[i].as_slice());
        proof {
            assert(texts(out@.push(s)) =~= texts(out@).push(s@));
        }
        out.push(s);
    }
    assert(rows(v@).take(v@.len() as int) =~= rows(v@));
    out
}

/// One character buffer per string.
pub fn rows_of(v: &[String]) -> (r: Vec<Vec<char>>)
    ensures
        rows(r@) == texts(v@),
{
    let mut out: Vec<Vec<char>> = Vec::new();
    for i in 0..v.len()
        invariant
            rows(out@) == texts(v@).take(i as int),
    {
        let s = chars_of(v[i].as_str());
        proof {
            assert(rows(out@.push(s)) =~= rows(out@).push(s@));
        }
        out.push(s);
    }
    assert(texts(v@).take(v@.len() as int) =~= texts(v@));
    out
}

/// A copy of a character slice.
pub fn copied(v: &[char]) -> (r: Vec<char>)
    ensures
        r@ == v@,
{
    let mut out: Vec<char> = Vec::new();
    for i in 0..v.len()
        invariant
            out@ == v@.take(i as int),
    {
        out.push(v[i]);
    }
    out
}

/// Copies of the slices of a list.
pub fn rows_from(v: &Vec<&[char]>) -> (r: Vec<Vec<char>>)
    ensures
        rows(r@) == spans(v@),
{
    let mut out: Vec<Vec<char>> = Vec::new();
    for i in 0..v.len()
        invariant
            rows(out@) == spans(v@).take(i as int),
    {
        let s = copied(v[i]);
        proof {
            assert(rows(out@.push(s)) =~= rows(out@).push(s@));
        }
        out.push(s);
    }
    assert(spans(v@).take(v@.len() as int) =~= spans(v@));
    out
}

/// The buffers of a list, each as a slice.
pub fn spans_of(v: &Vec<Vec<char>>) -> (r: Vec<&[char]>)
    ensures
        spans(r@) == rows(v@),
{
    let mut out: Vec<&[char]> = Vec::new();
    for i in 0..v.len()
        invariant
            spans(out@) == rows(v@).take(i as int),
    {
        let s: &[char] = v[i].as_slice();
        proof {
            assert(spans(out@.push(s)) =~= spans(out@).push(s@));
        }
        out.push(s);
    }
    assert(rows(v@).take(v@.len() as int) =~= rows(v@));
    out
}

/// Append a character slice to a buffer.
pub fn append(out: &mut Vec<char>, v: &[char])
    ensures
        final(out)@ == old(out)@ + v@,
{
    let ghost before = out@;
    for i in 0..v.len()
        invariant
            out@ == before + v@.take(i as int),
    {
        out.push(v[i]);
    }
    assert(v@.take(v@.len() as int) =~= v@);
}

/// Append a string to a buffer.
pub fn append_str(out: &mut Vec<char>, s: &str)
    ensures
        final(out)@ == old(out)@ + s@,
{
    let v = chars_of(s);
    append(out, v.as_slice());
}

/// Are two character slices equal?
pub fn same(a: &[char], b: &[char]) -> (r: bool)
    ensures
        r == (a@ == b@),
{
    if a.len() != b.len() {
        return false;
    }
    for i in 0..a.len()
        invariant
            a@.len() == b@.len(),
            a@.take(i as int) == b@.take(i as int),
    {
        if a[i] != b[i] {
            return false;
        }
        proof {
            assert(a@.take(i + 1) =~= a@.take(i as int).push(a@[i as int]));
            assert(b@.take(i + 1) =~= b@.take(i as int).push(b@[i as int]));
        }
    }
    assert(a@.take(a@.len() as int) =~= a@);
    assert(b@.take(b@.len() as int) =~= b@);
    true
}

/// Is this the given text?
pub fn is_text(a: &[char], s: &str) -> (r: bool)
    ensures
        r == (a@ == s@),
{
    same(a, chars_of(s).as_slice())
}

// ---------- Trimming ----------

/// The text without its longest prefix of characters of a class.
pub open spec fn trim_front(s: Seq<char>, cl: CharClass) -> Seq<char>
    decreases s.len(),
{
    if s.len() > 0 && cl.has(s[0]) {
        trim_front(s.skip(1), cl)
    } else {
        s
    }
}

/// The text without its longest suffix of characters of a class.
pub open spec fn trim_back(s: Seq<char>, cl: CharClass) -> Seq<char>
    decreases s.len(),
{
    if s.len() > 0 && cl.has(s.last()) {
        trim_back(s.drop_last(), cl)
    } else {
        s
    }
}

/// The text without leading and trailing whitespace.
pub open spec fn trim(s: Seq<char>) -> Seq<char> {
    trim_back(trim_front(s, CharClass::White), CharClass::White)
}

pub fn trimmed_front(s: &[char], cl: CharClass) -> (r: &[char])
    ensures
        r@ == trim_front(s@, cl),
{
    let mut i: usize = 0;
    proof {
        assert(s@.skip(0) =~= s@);
    }
    while i < s.len() && cl.contains(s[i])
        invariant
            i <= s.len(),
            trim_front(s@, cl) == trim_front(s@.skip(i as int), cl),
        decreases s.len() - i,
    {
        proof {
            assert(s@.skip(i as int).skip(1) =~= s@.skip(i + 1));
        }
        i = i + 1;
    }
    proof {
        assert(s@.subrange(i as int, s@.len() as int) =~= s@.skip(i as int));
    }
    slice_subrange(s, i, s.len())
}

pub fn trimmed_back(s: &[char], cl: CharClass) -> (r: &[char])
    ensures
        r@ == trim_back(s@, cl),
{
    let mut n: usize = s.len();
    proof {
        assert(s@.take(n as int) =~= s@);
    }
    while n > 0 && cl.contains(s[n - 1])
        invariant
            n <= s.len(),
            trim_back(s@, cl) == trim_back(s@.take(n as int), cl),
        decreases n,
    {
        proof {
            assert(s@.take(n as int).drop_last() =~= s@.take(n - 1));
        }
        n = n - 1;
    }
    proof {
        assert(s@.subrange(0, n as int) =~= s@.take(n as int));
    }
    slice_subrange(s, 0, n)
}

pub fn trimmed(s: &[char]) -> (r: &[char])
    ensures
        r@ == trim(s@),
{
    trimmed_back(trimmed_front(s, CharClass::White), CharClass::White)
}

// ---------- Searching ----------

/// The pattern stands in the text at position `i`.
pub open spec fn has_at(s: Seq<char>, pat: Seq<char>, i: int) -> bool {
    &&& 0 <= i
    &&& i + pat.len() <= s.len()
    &&& s.subrange(i, i + pat.len()) == pat
}

pub open spec fn starts_with(s: Seq<char>, pat: Seq<char>) -> bool {
    has_at(s, pat, 0)
}

pub open spec fn ends_with(s: Seq<char>, pat: Seq<char>) -> bool {
    has_at(s, pat, s.len() - pat.len())
}

/// The pattern stands somewhere in the text.
pub open spec fn contains(s: Seq<char>, pat: Seq<char>) -> bool {
    exists|i: int| has_at(s, pat, i)
}

/// The first position at which the pattern stands in the text.
pub open spec fn find(s: Seq<char>, pat: Seq<char>) -> Option<int>
    decreases s.len(),
{
    if has_at(s, pat, 0) {
        Some(0)
    } else if s.len() == 0 {
        None
    } else {
        match find(s.skip(1), pat) {
            Some(i) => Some(i + 1),
            None => None,
        }
    }
}

proof fn lemma_has_at_skip(s: Seq<char>, pat: Seq<char>, k: int, i: int)
    requires
        0 <= k <= s.len(),
        0 <= i,
    ensures
        has_at(s.skip(k), pat, i) == has_at(s, pat, i + k),
{
    if i + k + pat.len() <= s.len() {
        assert(s.skip(k).subrange(i, i + pat.len()) =~= s.subrange(i + k, i + k + pat.len()));
    }
}

/// `find` gives the least position of the pattern, and gives none only where
/// the pattern does not occur.
pub proof fn lemma_find(s: Seq<char>, pat: Seq<char>)
    ensures
        match find(s, pat) {
            Some(i) => has_at(s, pat, i) && (forall|j: int| 0 <= j < i ==> !has_at(s, pat, j)),
            None => !contains(s, pat),
        },
    decreases s.len(),
{
    if has_at(s, pat, 0) {
    } else if s.len() == 0 {
        assert forall|j: int| !has_at(s, pat, j) by {
            if has_at(s, pat, j) {
                assert(j == 0);
            }
        }
    } else {
        lemma_find(s.skip(1), pat);
        assert forall|j: int| 1 <= j implies has_at(s, pat, j) == has_at(s.skip(1), pat, j - 1) by {
            lemma_has_at_skip(s, pat, 1, j - 1);
        }
        match find(s.skip(1), pat) {
            Some(i) => {
                assert(has_at(s, pat, i + 1));
                assert forall|j: int| 0 <= j < i + 1 implies !has_at(s, pat, j) by {
                    if j >= 1 {
                        assert(!has_at(s.skip(1), pat, j - 1));
                    }
                }
            },
            None => {
                assert forall|j: int| !has_at(s, pat, j) by {
                    if has_at(s, pat, j) {
                        assert(j != 0);
                        assert(has_at(s.skip(1), pat, j - 1));
                    }
                }
            },
        }
    }
}

/// Does the pattern stand at position `i`?
pub fn is_at(s: &[char], pat: &[char], i: usize) -> (r: bool)
    ensures
        r == has_at(s@, pat@, i as int),
{
    if i > s.len() || pat.len() > s.len() - i {
        return false;
    }
    proof {
        assert(s@.subrange(i as int, i + pat@.len()).len() == pat@.len());
    }
    same(slice_subrange(s, i, i + pat.len()), pat)
}

/// Does the text end with the pattern?
pub fn ends_with_text(s: &[char], pat: &[char]) -> (r: bool)
    ensures
        r == ends_with(s@, pat@),
{
    pat.len() <= s.len() && is_at(s, pat, s.len() - pat.len())
}

/// The first position of the pattern at or after `from`, counted from `from`.
pub fn found_from(s: &[char], pat: &[char], from: usize) -> (r: Option<usize>)
    requires
        from <= s@.len(),
    ensures
        match r {
            Some(i) => find(s@.skip(from as int), pat@) == Some(i as int) && from + i + pat@.len()
                <= s@.len(),
            None => find(s@.skip(from as int), pat@) is None,
        },
{
    let ghost t = s@.skip(from as int);
    let mut i: usize = from;
    proof {
        lemma_find(t, pat@);
    }
    loop
        invariant
            from <= i <= s@.len(),
            t == s@.skip(from as int),
            forall|j: int| 0 <= j < i - from ==> !has_at(t, pat@, j),
            match find(t, pat@) {
                Some(k) => has_at(t, pat@, k) && (forall|j: int|
                    0 <= j < k ==> !has_at(t, pat@, j)),
                None => !contains(t, pat@),
            },
        decreases s@.len() - i,
    {
        proof {
            lemma_has_at_skip(s@, pat@, from as int, i - from);
        }
        if is_at(s, pat, i) {
            return Some(i - from);
        }
        if i == s.len() {
            return None;
        }
        i = i + 1;
    }
}

/// Does the pattern stand somewhere in the text?
pub fn has(s: &[char], pat: &[char]) -> (r: bool)
    ensures
        r == contains(s@, pat@),
{
    proof {
        assert(s@.skip(0) =~= s@);
        lemma_find(s@, pat@);
    }
    found_from(s, pat, 0).is_some()
}

// ---------- Splitting and joining ----------

/// The texts of all lists, one list after the other.
pub open spec fn pooled(lists: Seq<Seq<Seq<char>>>) -> Seq<Seq<char>>
    decreases lists.len(),
{
    if lists.len() == 0 {
        seq![]
    } else {
        pooled(lists.drop_last()) + lists.last()
    }
}

/// Lists that hold the texts of one list between them, in its order, and of
/// which none is empty.
pub open spec fn grouped(all: Seq<Seq<char>>, lists: Seq<Seq<Seq<char>>>) -> bool {
    &&& pooled(lists) == all
    &&& forall|i: int| 0 <= i < lists.len() ==> (#[trigger] lists[i]).len() > 0
}

/// The lists without the last of all texts.
pub open spec fn ungrouped(lists: Seq<Seq<Seq<char>>>) -> Seq<Seq<Seq<char>>> {
    let last = lists.last();
    if last.len() == 1 {
        lists.drop_last()
    } else {
        lists.drop_last().push(last.drop_last())
    }
}

/// Without its last text a list is grouped by the lists without theirs.
pub proof fn lemma_ungrouped(all: Seq<Seq<char>>, lists: Seq<Seq<Seq<char>>>)
    requires
        grouped(all, lists),
        all.len() > 0,
    ensures
        lists.len() > 0,
        lists.last().len() > 0,
        lists.last().last() == all.last(),
        grouped(all.drop_last(), ungrouped(lists)),
{
    let last = lists[lists.len() - 1];
    let front = lists.drop_last();
    let less = ungrouped(lists);
    assert(last.len() > 0);
    assert(all == pooled(front) + last);
    assert(front.push(last.drop_last()).drop_last() =~= front);
    assert(pooled(less) =~= all.drop_last());
    assert forall|i: int| 0 <= i < less.len() implies (#[trigger] less[i]).len() > 0 by {
        if i < front.len() {
            assert(less[i] == lists[i]);
        }
    }
}

/// The parts of the text between the occurrences of a separator, which are
/// taken from left to right and do not overlap.
pub open spec fn split(s: Seq<char>, sep: Seq<char>) -> Seq<Seq<char>>
    decreases s.len(),
{
    match find(s, sep) {
        Some(i) => if sep.len() == 0 || i < 0 || i + sep.len() > s.len() {
            seq![s]
        } else {
            seq![s.take(i)] + split(s.skip(i + sep.len()), sep)
        },
        None => seq![s],
    }
}

pub fn split_at_each<'a>(s: &'a [char], sep: &[char]) -> (r: Vec<&'a [char]>)
    requires
        sep@.len() > 0,
    ensures
        spans(r@) == split(s@, sep@),
{
    let n: usize = s.len();
    let mut out: Vec<&'a [char]> = Vec::new();
    let mut from: usize = 0;
    proof {
        assert(s@.skip(0) =~= s@);
        assert(spans(out@) + split(s@, sep@) =~= split(s@, sep@));
    }
    loop
        invariant
            n == s@.len(),
            sep@.len() > 0,
            from <= s@.len(),
            split(s@, sep@) == spans(out@) + split(s@.skip(from as int), sep@),
        decreases s@.len() - from,
    {
        match found_from(s, sep, from) {
            Some(i) => {
                let part: &'a [char] = slice_subrange(s, from, from + i);
                proof {
                    let t = s@.skip(from as int);
                    assert(t.take(i as int) =~= part@);
                    assert(t.skip(i + sep@.len()) =~= s@.skip(from + i + sep@.len()));
                    assert(spans(out@.push(part)) =~= spans(out@).push(part@));
                    let rest = split(s@.skip(from + i + sep@.len()), sep@);
                    assert(spans(out@) + (seq![part@] + rest) =~= spans(out@).push(part@) + rest);
                }
                out.push(part);
                from = from + i + sep.len();
            },
            None => {
                let part: &'a [char] = slice_subrange(s, from, n);
                proof {
                    assert(part@ =~= s@.skip(from as int));
                    assert(spans(out@.push(part)) =~= spans(out@) + seq![part@]);
                }
                out.push(part);
                return out;
            },
        }
    }
}

/// The text without one carriage return at its end.
pub open spec fn strip_cr(s: Seq<char>) -> Seq<char> {
    if s.len() > 0 && s.last() == '\r' {
        s.drop_last()
    } else {
        s
    }
}

/// The lines of the text. A line ends with a newline, or with a carriage
/// return and a newline; the last one may go without.
pub open spec fn lines(s: Seq<char>) -> Seq<Seq<char>>
    decreases s.len(),
{
    if s.len() == 0 {
        seq![]
    } else {
        match find(s, seq!['\n']) {
            Some(i) => if i < 0 || i >= s.len() {
                seq![s]
            } else {
                seq![strip_cr(s.take(i))] + lines(s.skip(i + 1))
            },
            None => seq![s],
        }
    }
}

pub fn lines_of<'a>(s: &'a [char]) -> (r: Vec<&'a [char]>)
    ensures
        spans(r@) == lines(s@),
{
    let mut newline: Vec<char> = Vec::new();
    newline.push('\n');
    let mut out: Vec<&'a [char]> = Vec::new();
    let mut from: usize = 0;
    proof {
        assert(s@.skip(0) =~= s@);
        assert(spans(out@) + lines(s@) =~= lines(s@));
        assert(newline@ =~= seq!['\n']);
    }
    while from < s.len()
        invariant
            newline@ == seq!['\n'],
            from <= s@.len(),
            lines(s@) == spans(out@) + lines(s@.skip(from as int)),
        decreases s@.len() - from,
    {
        match found_from(s, newline.as_slice(), from) {
            Some(i) => {
                let whole: &'a [char] = slice_subrange(s, from, from + i);
                let part: &'a [char] = if i > 0 && whole[i - 1] == '\r' {
                    slice_subrange(whole, 0, i - 1)
                } else {
                    whole
                };
                proof {
                    let t = s@.skip(from as int);
                    assert(t.take(i as int) =~= whole@);
                    assert(part@ =~= strip_cr(whole@));
                    assert(t.skip(i + 1) =~= s@.skip(from + i + 1));
                    assert(spans(out@.push(part)) =~= spans(out@).push(part@));
                    let rest = lines(s@.skip(from + i + 1));
                    assert(spans(out@) + (seq![part@] + rest) =~= spans(out@).push(part@) + rest);
                }
                out.push(part);
                from = from + i + 1;
            },
            None => {
                let part: &'a [char] = slice_subrange(s, from, s.len());
                proof {
                    assert(part@ =~= s@.skip(from as int));
                    assert(spans(out@.push(part)) =~= spans(out@) + seq![part@]);
                }
                out.push(part);
                return out;
            },
        }
    }
    proof {
        assert(s@.skip(from as int).len() == 0);
        assert(spans(out@) + Seq::<Seq<char>>::empty() =~= spans(out@));
    }
    out
}

/// The parts, trimmed, without those that are then empty.
pub open spec fn nonblank(parts: Seq<Seq<char>>) -> Seq<Seq<char>>
    decreases parts.len(),
{
    if parts.len() == 0 {
        seq![]
    } else {
        let p = trim(parts.last());
        if p.len() == 0 {
            nonblank(parts.drop_last())
        } else {
            nonblank(parts.drop_last()).push(p)
        }
    }
}

pub fn nonblank_of<'a>(parts: &Vec<&'a [char]>) -> (r: Vec<&'a [char]>)
    ensures
        spans(r@) == nonblank(spans(parts@)),
{
    let ghost ps = spans(parts@);
    let mut out: Vec<&'a [char]> = Vec::new();
    proof {
        assert(spans(out@) =~= seq![]);
    }
    for i in 0..parts.len()
        invariant
            ps == spans(parts@),
            spans(out@) == nonblank(ps.take(i as int)),
    {
        proof {
            assert(ps.take(i + 1).drop_last() =~= ps.take(i as int));
            assert(ps.take(i + 1).last() == parts@[i as int]@);
        }
        let p: &'a [char] = trimmed(parts[i]);
        if p.len() > 0 {
            proof {
                assert(spans(out@.push(p)) =~= spans(out@).push(p@));
            }
            out.push(p);
        }
    }
    assert(ps.take(ps.len() as int) =~= ps);
    out
}

pub proof fn lemma_nonblank(parts: Seq<Seq<char>>)
    ensures
        forall|i: int| 0 <= i < nonblank(parts).len() ==> (#[trigger] nonblank(parts)[i]).len() > 0,
    decreases parts.len(),
{
    if parts.len() > 0 {
        lemma_nonblank(parts.drop_last());
        let front = nonblank(parts.drop_last());
        assert forall|i: int| 0 <= i < nonblank(parts).len() implies (#[trigger] nonblank(
            parts,
        )[i]).len() > 0 by {
            if i < front.len() {
                assert(front[i].len() > 0);
            }
        }
    }
}

/// The paragraphs of a text: what blank lines separate, trimmed, as far as
/// anything is left.
pub open spec fn paragraphs(t: Seq<char>) -> Seq<Seq<char>> {
    nonblank(split(t, "\n\n"@))
}

pub fn paragraphs_of(t: &[char]) -> (r: Vec<Vec<char>>)
    ensures
        rows(r@) == paragraphs(t@),
{
    let gap = chars_of("\n\n");
    proof {
        reveal_strlit("\n\n");
    }
    let parts = split_at_each(t, gap.as_slice());
    rows_from(&nonblank_of(&parts))
}

/// The length of the longest prefix without whitespace.
pub open spec fn word_len(s: Seq<char>) -> nat
    decreases s.len(),
{
    if s.len() > 0 && !chars::white(s[0]) {
        1 + word_len(s.skip(1))
    } else {
        0
    }
}

pub proof fn lemma_word_len(s: Seq<char>)
    ensures
        word_len(s) <= s.len(),
        s.len() > 0 && !chars::white(s[0]) ==> word_len(s) > 0,
    decreases s.len(),
{
    if s.len() > 0 && !chars::white(s[0]) {
        lemma_word_len(s.skip(1));
    }
}

pub proof fn lemma_trim_front_len(s: Seq<char>, cl: CharClass)
    ensures
        trim_front(s, cl).len() <= s.len(),
        trim_front(s, cl).len() > 0 ==> !cl.has(trim_front(s, cl)[0]),
    decreases s.len(),
{
    if s.len() > 0 && cl.has(s[0]) {
        lemma_trim_front_len(s.skip(1), cl);
    }
}

/// Trimming a class off the front takes away characters of the class only.
pub proof fn lemma_trim_front_suffix(s: Seq<char>, cl: CharClass) -> (k: int)
    ensures
        0 <= k <= s.len(),
        trim_front(s, cl) == s.skip(k),
        forall|j: int| 0 <= j < k ==> cl.has(#[trigger] s[j]),
        s.len() > 0 && cl.has(s[0]) ==> k > 0,
    decreases s.len(),
{
    if s.len() > 0 && cl.has(s[0]) {
        let k = lemma_trim_front_suffix(s.skip(1), cl);
        assert(s.skip(1).skip(k) =~= s.skip(k + 1));
        assert forall|j: int| 0 <= j < k + 1 implies cl.has(#[trigger] s[j]) by {
            if j > 0 {
                assert(s.skip(1)[j - 1] == s[j]);
            }
        }
        k + 1
    } else {
        assert(s.skip(0) =~= s);
        0
    }
}

/// Trimming a class off the back takes away characters of the class only.
pub proof fn lemma_trim_back_prefix(s: Seq<char>, cl: CharClass) -> (k: int)
    ensures
        0 <= k <= s.len(),
        trim_back(s, cl) == s.take(k),
        k > 0 ==> !cl.has(s[k - 1]),
        forall|j: int| k <= j < s.len() ==> cl.has(#[trigger] s[j]),
    decreases s.len(),
{
    if s.len() > 0 && cl.has(s.last()) {
        let k = lemma_trim_back_prefix(s.drop_last(), cl);
        assert(s.drop_last().take(k) =~= s.take(k));
        assert forall|j: int| k <= j < s.len() implies cl.has(#[trigger] s[j]) by {
            if j < s.len() - 1 {
                assert(s.drop_last()[j] == s[j]);
            }
        }
        k
    } else {
        assert(s.take(s.len() as int) =~= s);
        s.len() as int
    }
}

/// A trimmed text is a part of the text, with no whitespace at its ends.
pub proof fn lemma_trim_inside(s: Seq<char>) -> (ab: (int, int))
    ensures
        0 <= ab.0 <= ab.1 <= s.len(),
        trim(s) == s.subrange(ab.0, ab.1),
        ab.0 < ab.1 ==> !chars::white(s[ab.0]) && !chars::white(s[ab.1 - 1]),
{
    trimming_takes_the_ends_only(s)
}

/// Trimming twice is trimming once.
pub proof fn lemma_trim_again(s: Seq<char>)
    ensures
        trim(trim(s)) == trim(s),
{
    let (a, b) = lemma_trim_inside(s);
    let t = trim(s);
    if t.len() > 0 {
        assert(t[0] == s[a]);
        assert(t.last() == s[b - 1]);
    }
}

/// The words of the text: its longest runs without whitespace.
pub open spec fn words(s: Seq<char>) -> Seq<Seq<char>>
    decreases s.len(),
    via words_decreases
{
    let t = trim_front(s, CharClass::White);
    if t.len() == 0 {
        seq![]
    } else {
        seq![t.take(word_len(t) as int)] + words(t.skip(word_len(t) as int))
    }
}

#[via_fn]
proof fn words_decreases(s: Seq<char>) {
    lemma_trim_front_len(s, CharClass::White);
    lemma_word_len(trim_front(s, CharClass::White));
}

fn word_length(s: &[char]) -> (r: usize)
    ensures
        r == word_len(s@),
{
    let mut n: usize = 0;
    proof {
        assert(s@.skip(0) =~= s@);
        lemma_word_len(s@);
    }
    while n < s.len() && !is_white(s[n])
        invariant
            n <= s.len(),
            word_len(s@) == n + word_len(s@.skip(n as int)),
        decreases s.len() - n,
    {
        proof {
            assert(s@.skip(n as int).skip(1) =~= s@.skip(n + 1));
        }
        n = n + 1;
    }
    n
}

pub fn words_of<'a>(s: &'a [char]) -> (r: Vec<&'a [char]>)
    ensures
        spans(r@) == words(s@),
{
    let mut out: Vec<&'a [char]> = Vec::new();
    let mut rest: &'a [char] = trimmed_front(s, CharClass::White);
    proof {
        lemma_trim_front_again(s@, CharClass::White);
        assert(spans(out@) + words(rest@) =~= words(s@));
    }
    while rest.len() > 0
        invariant
            words(s@) == spans(out@) + words(rest@),
            trim_front(rest@, CharClass::White) == rest@,
        decreases rest.len(),
    {
        let n = word_length(rest);
        let ghost before = rest@;
        proof {
            lemma_word_len(rest@);
            lemma_trim_front_len(rest@, CharClass::White);
        }
        let part: &'a [char] = slice_subrange(rest, 0, n);
        rest = trimmed_front(slice_subrange(rest, n, rest.len()), CharClass::White);
        proof {
            assert(part@ =~= before.take(n as int));
            let tail = before.skip(n as int);
            assert(before.subrange(n as int, before.len() as int) =~= tail);
            lemma_trim_front_len(tail, CharClass::White);
            lemma_trim_front_again(tail, CharClass::White);
            assert(spans(out@.push(part)) =~= spans(out@).push(part@));
            assert(spans(out@) + (seq![part@] + words(rest@)) =~= spans(out@).push(part@) + words(
                rest@,
            ));
        }
        out.push(part);
    }
    proof {
        assert(spans(out@) + Seq::<Seq<char>>::empty() =~= spans(out@));
    }
    out
}

/// Trimming a second time changes nothing, and `words` ignores leading
/// whitespace.
proof fn lemma_trim_front_again(s: Seq<char>, cl: CharClass)
    ensures
        trim_front(trim_front(s, cl), cl) == trim_front(s, cl),
        cl == CharClass::White ==> words(trim_front(s, cl)) == words(s),
    decreases s.len(),
{
    if s.len() > 0 && cl.has(s[0]) {
        lemma_trim_front_again(s.skip(1), cl);
    }
}

/// The parts in order, with the separator between each two.
pub open spec fn join(parts: Seq<Seq<char>>, sep: Seq<char>) -> Seq<char>
    decreases parts.len(),
{
    if parts.len() == 0 {
        seq![]
    } else if parts.len() == 1 {
        parts[0]
    } else {
        join(parts.drop_last(), sep) + sep + parts.last()
    }
}

pub fn joined(parts: &[&[char]], sep: &[char]) -> (r: Vec<char>)
    ensures
        r@ == join(spans(parts@), sep@),
{
    let mut out: Vec<char> = Vec::new();
    for i in 0..parts.len()
        invariant
            out@ == join(spans(parts@).take(i as int), sep@),
    {
        proof {
            let all = spans(parts@);
            assert(all.take(i + 1).drop_last() =~= all.take(i as int));
            assert(all.take(i + 1).last() == all[i as int]);
        }
        if i > 0 {
            append(&mut out, sep);
        }
        append(&mut out, parts[i]);
        proof {
            if i == 0 {
                assert(out@ =~= parts@[0]@);
            }
        }
    }
    assert(spans(parts@).take(parts@.len() as int) =~= spans(parts@));
    out
}

/// As `joined`, for parts that are buffers of their own.
pub fn joined_rows(parts: &Vec<Vec<char>>, sep: &[char]) -> (r: Vec<char>)
    ensures
        r@ == join(rows(parts@), sep@),
{
    let refs = spans_of(parts);
    joined(refs.as_slice(), sep)
}

/// No part of a split text holds the separator.
pub proof fn lemma_split_parts(s: Seq<char>, sep: Seq<char>)
    requires
        sep.len() > 0,
    ensures
        split(s, sep).len() > 0,
        forall|k: int| 0 <= k < split(s, sep).len() ==> !contains(#[trigger] split(s, sep)[k], sep),
    decreases s.len(),
{
    lemma_find(s, sep);
    match find(s, sep) {
        Some(i) => {
            let n = i + sep.len();
            lemma_split_parts(s.skip(n), sep);
            let first = s.take(i);
            let rest = split(s.skip(n), sep);
            assert forall|j: int| 0 <= j implies !has_at(first, sep, j) by {
                if has_at(first, sep, j) {
                    assert(first.subrange(j, j + sep.len()) =~= s.subrange(j, j + sep.len()));
                    assert(has_at(s, sep, j));
                }
            }
            assert forall|k: int| 0 <= k < split(s, sep).len() implies !contains(
                #[trigger] split(s, sep)[k],
                sep,
            ) by {
                if k > 0 {
                    assert(split(s, sep)[k] == rest[k - 1]);
                }
            }
        },
        None => {},
    }
}

/// The first part of a text stays the first part of what goes on with the
/// separator, unless that occurs across the end of the text there.
pub proof fn lemma_split_first(a: Seq<char>, sep: Seq<char>, b: Seq<char>)
    requires
        sep.len() > 0,
        forall|j: int|
            a.len() - sep.len() < j < a.len() && 0 <= j ==> !has_at(a + sep + b, sep, j),
    ensures
        split(a + sep + b, sep)[0] == split(a, sep)[0],
{
    let s = a + sep + b;
    lemma_find(a, sep);
    lemma_find(s, sep);
    assert forall|j: int| 0 <= j && j + sep.len() <= a.len() implies has_at(a, sep, j) == has_at(
        s,
        sep,
        j,
    ) by {
        assert(a.subrange(j, j + sep.len()) =~= s.subrange(j, j + sep.len()));
    }
    assert(s.subrange(a.len() as int, (a.len() + sep.len()) as int) =~= sep);
    assert(has_at(s, sep, a.len() as int));
    let i = match find(a, sep) {
        Some(i) => i,
        None => a.len() as int,
    };
    assert(has_at(s, sep, i));
    assert forall|j: int| 0 <= j < i implies !has_at(s, sep, j) by {
        if j + sep.len() <= a.len() {
            assert(!has_at(a, sep, j));
        }
    }
    assert(find(s, sep) == Some(i));
    assert(s.take(i) =~= a.take(i));
    assert(a.take(a.len() as int) =~= a);
}

pub proof fn lemma_join_push(parts: Seq<Seq<char>>, p: Seq<char>, sep: Seq<char>)
    ensures
        join(parts.push(p), sep) == if parts.len() == 0 {
            p
        } else {
            join(parts, sep) + sep + p
        },
{
    assert(parts.push(p).drop_last() =~= parts);
}

pub proof fn lemma_join_front(first: Seq<char>, rest: Seq<Seq<char>>, sep: Seq<char>)
    ensures
        join(seq![first] + rest, sep) == if rest.len() == 0 {
            first
        } else {
            first + sep + join(rest, sep)
        },
    decreases rest.len(),
{
    let all = seq![first] + rest;
    if rest.len() == 0 {
        assert(all =~= seq![first]);
    } else {
        lemma_join_front(first, rest.drop_last(), sep);
        assert(all.drop_last() =~= seq![first] + rest.drop_last());
        assert(all.last() == rest.last());
        if rest.len() == 1 {
            assert(rest =~= seq![rest[0]]);
        } else {
            let front = rest.drop_last();
            assert(first + sep + (join(front, sep) + sep + rest.last()) =~= first + sep + join(
                front,
                sep,
            ) + sep + rest.last());
        }
    }
}

/// The parts between the occurrences of a separator, joined by it, are the text
/// again.
pub proof fn lemma_join_split(s: Seq<char>, sep: Seq<char>)
    ensures
        join(split(s, sep), sep) == s,
        split(s, sep).len() > 0,
    decreases s.len(),
{
    lemma_find(s, sep);
    match find(s, sep) {
        Some(i) => {
            if sep.len() > 0 {
                let rest = s.skip(i + sep.len());
                lemma_join_split(rest, sep);
                lemma_join_front(s.take(i), split(rest, sep), sep);
                assert(s =~= s.take(i) + s.subrange(i, i + sep.len()) + rest);
            }
        },
        None => {},
    }
}

/// The words of a text with one space between each two.
pub open spec fn squeeze(s: Seq<char>) -> Seq<char> {
    join(words(s), seq![' '])
}

pub fn squeezed(s: &[char]) -> (r: Vec<char>)
    ensures
        r@ == squeeze(s@),
{
    let words = words_of(s);
    let mut space: Vec<char> = Vec::new();
    space.push(' ');
    assert(space@ =~= seq![' ']);
    joined(words.as_slice(), space.as_slice())
}

/// The first word of a text, and what comes behind it.
pub proof fn lemma_squeeze_front(s: Seq<char>)
    ensures
        ({
            let t = trim_front(s, CharClass::White);
            let w = t.take(word_len(t) as int);
            let u = t.skip(word_len(t) as int);
            if t.len() == 0 {
                squeeze(s) == Seq::<char>::empty()
            } else if words(u).len() == 0 {
                squeeze(s) == w
            } else {
                squeeze(s) == w + seq![' '] + squeeze(u)
            }
        }),
{
    let t = trim_front(s, CharClass::White);
    if t.len() > 0 {
        let u = t.skip(word_len(t) as int);
        lemma_join_front(t.take(word_len(t) as int), words(u), seq![' ']);
    }
}

/// A word holds no whitespace, and ends where some stands or the text ends.
pub proof fn lemma_word_chars(s: Seq<char>)
    ensures
        word_len(s) <= s.len(),
        forall|i: int| 0 <= i < word_len(s) ==> !chars::white(#[trigger] s[i]),
        word_len(s) < s.len() ==> chars::white(s[word_len(s) as int]),
    decreases s.len(),
{
    if s.len() > 0 && !chars::white(s[0]) {
        let rest = s.skip(1);
        lemma_word_chars(rest);
        assert forall|i: int| 0 <= i < word_len(s) implies !chars::white(#[trigger] s[i]) by {
            if i > 0 {
                assert(s[i] == rest[i - 1]);
            }
        }
    }
}

/// A squeezed text has the words of the text, so squeezing it again changes
/// nothing.
pub proof fn lemma_squeeze_again(s: Seq<char>)
    ensures
        words(squeeze(s)) == words(s),
        squeeze(squeeze(s)) == squeeze(s),
    decreases s.len(),
{
    let t = trim_front(s, CharClass::White);
    lemma_squeeze_front(s);
    lemma_trim_front_len(s, CharClass::White);
    let r = squeeze(s);
    if t.len() > 0 {
        lemma_word_len(t);
        lemma_word_chars(t);
        let n = word_len(t) as int;
        let w = t.take(n);
        let u = t.skip(n);
        assert forall|i: int| 0 <= i < n implies !chars::white(#[trigger] r[i]) by {
            assert(r[i] == t[i]);
        }
        lemma_word_chars(r);
        let k = word_len(r) as int;
        assert(trim_front(r, CharClass::White) == r);
        if words(u).len() == 0 {
            assert(k == n);
            assert(r.skip(n) =~= seq![]);
            assert(words(r) == seq![r.take(n)] + words(r.skip(n)));
            assert(r.take(n) =~= w);
            assert(words(u) =~= words(r.skip(n)));
        } else {
            let q = squeeze(u);
            lemma_squeeze_again(u);
            assert(r[n] == ' ');
            assert(k == n);
            let rest = r.skip(n);
            assert(rest =~= seq![' '] + q);
            assert(rest.skip(1) =~= q);
            assert(words(rest) == words(q));
            assert(r.take(n) =~= w);
        }
    } else {
        assert(r =~= seq![]);
    }
}

/// No character of the text belongs to the class.
pub open spec fn free(s: Seq<char>, cl: CharClass) -> bool {
    forall|i: int| 0 <= i < s.len() ==> !cl.has(#[trigger] s[i])
}

/// A part of a text is free of what the text is free of.
pub proof fn lemma_free_part(s: Seq<char>, a: int, b: int, cl: CharClass)
    requires
        free(s, cl),
        0 <= a <= b <= s.len(),
    ensures
        free(s.subrange(a, b), cl),
        b == s.len() ==> free(s.skip(a), cl),
        a == 0 ==> free(s.take(b), cl),
{
    let t = s.subrange(a, b);
    assert forall|i: int| 0 <= i < t.len() implies !cl.has(#[trigger] t[i]) by {
        assert(t[i] == s[i + a]);
    }
    assert(b == s.len() ==> s.skip(a) =~= t);
    assert(a == 0 ==> s.take(b) =~= t);
}

/// A trimmed text is free of what the text is free of.
pub proof fn lemma_free_trims(s: Seq<char>, off: CharClass, cl: CharClass)
    requires
        free(s, cl),
    ensures
        free(trim_front(s, off), cl),
        free(trim_back(s, off), cl),
        free(trim(s), cl),
{
    let a = lemma_trim_front_suffix(s, off);
    lemma_free_part(s, a, s.len() as int, cl);
    let b = lemma_trim_back_prefix(s, off);
    lemma_free_part(s, 0, b, cl);
    let (c, d) = lemma_trim_inside(s);
    lemma_free_part(s, c, d, cl);
}

/// Two texts put together are free of what both are free of.
pub proof fn lemma_free_concat(a: Seq<char>, b: Seq<char>, cl: CharClass)
    requires
        free(a, cl),
        free(b, cl),
    ensures
        free(a + b, cl),
{
    assert forall|i: int| 0 <= i < (a + b).len() implies !cl.has(#[trigger] (a + b)[i]) by {
        if i < a.len() {
            assert((a + b)[i] == a[i]);
        } else {
            assert((a + b)[i] == b[i - a.len()]);
        }
    }
}

/// No two whitespace characters stand next to each other, and none at the ends.
pub open spec fn single_spaced(s: Seq<char>) -> bool {
    &&& forall|i: int, j: int|
        0 <= i && j == i + 1 && j < s.len() ==> !(chars::white(#[trigger] s[i]) && chars::white(
            #[trigger] s[j],
        ))
    &&& s.len() > 0 ==> !chars::white(s[0]) && !chars::white(s.last())
}

/// Squeezing leaves single spaces only, and brings in no character but those.
pub proof fn lemma_squeeze(s: Seq<char>, cl: CharClass)
    ensures
        single_spaced(squeeze(s)),
        free(s, cl) && !cl.has(' ') ==> free(squeeze(s), cl),
        words(s).len() > 0 ==> squeeze(s).len() > 0,
{
    lemma_squeeze_spaced(s);
    if free(s, cl) && !cl.has(' ') {
        lemma_squeeze_free(s, cl);
    }
}

proof fn lemma_squeeze_free(s: Seq<char>, cl: CharClass)
    requires
        free(s, cl),
        !cl.has(' '),
    ensures
        free(squeeze(s), cl),
    decreases s.len(),
{
    let k = lemma_trim_front_suffix(s, CharClass::White);
    lemma_trim_front_len(s, CharClass::White);
    lemma_squeeze_front(s);
    let t = trim_front(s, CharClass::White);
    if t.len() > 0 {
        lemma_word_len(t);
        let n = word_len(t) as int;
        let w = t.take(n);
        let u = t.skip(n);
        assert forall|i: int| 0 <= i < u.len() implies !cl.has(#[trigger] u[i]) by {
            assert(u[i] == s[i + n + k]);
        }
        assert forall|i: int| 0 <= i < w.len() implies !cl.has(#[trigger] w[i]) by {
            assert(w[i] == s[i + k]);
        }
        lemma_squeeze_free(u, cl);
        let r = squeeze(s);
        let q = squeeze(u);
        if words(u).len() > 0 {
            assert forall|i: int| 0 <= i < r.len() implies !cl.has(#[trigger] r[i]) by {
                if i < n {
                    assert(r[i] == w[i]);
                } else if i > n {
                    assert(r[i] == q[i - n - 1]);
                }
            }
        }
    }
}

proof fn lemma_squeeze_spaced(s: Seq<char>)
    ensures
        single_spaced(squeeze(s)),
        words(s).len() > 0 ==> squeeze(s).len() > 0,
    decreases s.len(),
{
    lemma_trim_front_len(s, CharClass::White);
    lemma_squeeze_front(s);
    let t = trim_front(s, CharClass::White);
    if t.len() > 0 {
        lemma_word_len(t);
        lemma_word_chars(t);
        let n = word_len(t) as int;
        let w = t.take(n);
        let u = t.skip(n);
        lemma_squeeze_spaced(u);
        assert forall|i: int| 0 <= i < n implies !chars::white(#[trigger] w[i]) by {
            assert(w[i] == t[i]);
        }
        if words(u).len() > 0 {
            lemma_spaced_concat(w, squeeze(u));
        }
    }
}

proof fn lemma_spaced_concat(w: Seq<char>, q: Seq<char>)
    requires
        w.len() > 0,
        q.len() > 0,
        forall|i: int| 0 <= i < w.len() ==> !chars::white(#[trigger] w[i]),
        single_spaced(q),
    ensures
        single_spaced(w + seq![' '] + q),
{
    let n = w.len() as int;
    let r = w + seq![' '] + q;
    assert forall|i: int, j: int| 0 <= i && j == i + 1 && j < r.len() implies !(chars::white(
        #[trigger] r[i],
    ) && chars::white(#[trigger] r[j])) by {
        if i < n {
            assert(r[i] == w[i]);
        } else {
            assert(r[j] == q[j - n - 1]);
            if i > n {
                assert(r[i] == q[i - n - 1]);
            }
        }
    }
    assert(r.last() == q.last());
    assert(r[0] == w[0]);
}

/// The text with every occurrence of a pattern replaced.
pub open spec fn replace(s: Seq<char>, pat: Seq<char>, with: Seq<char>) -> Seq<char> {
    join(split(s, pat), with)
}

pub fn replaced(s: &[char], pat: &[char], with: &[char]) -> (r: Vec<char>)
    requires
        pat@.len() > 0,
    ensures
        r@ == replace(s@, pat@, with@),
{
    let parts = split_at_each(s, pat);
    joined(parts.as_slice(), with)
}

// ---------- Character by character ----------

/// The text without the characters of a class.
pub open spec fn without(s: Seq<char>, cl: CharClass) -> Seq<char>
    decreases s.len(),
{
    if s.len() == 0 {
        seq![]
    } else if cl.has(s.last()) {
        without(s.drop_last(), cl)
    } else {
        without(s.drop_last(), cl).push(s.last())
    }
}

pub proof fn lemma_without_free(s: Seq<char>, cl: CharClass)
    ensures
        free(without(s, cl), cl),
    decreases s.len(),
{
    if s.len() > 0 {
        lemma_without_free(s.drop_last(), cl);
    }
}

/// Nothing goes from a text that is free of the class.
pub proof fn lemma_without_nothing(s: Seq<char>, cl: CharClass)
    requires
        free(s, cl),
    ensures
        without(s, cl) == s,
    decreases s.len(),
{
    if s.len() > 0 {
        assert(!cl.has(s[s.len() - 1]));
        assert forall|i: int| 0 <= i < s.drop_last().len() implies !cl.has(
            #[trigger] s.drop_last()[i],
        ) by {
            assert(s.drop_last()[i] == s[i]);
        }
        lemma_without_nothing(s.drop_last(), cl);
        assert(s =~= s.drop_last().push(s.last()));
    } else {
        assert(s =~= seq![]);
    }
}

pub fn removed(s: &[char], cl: CharClass) -> (r: Vec<char>)
    ensures
        r@ == without(s@, cl),
{
    let mut out: Vec<char> = Vec::new();
    for i in 0..s.len()
        invariant
            out@ == without(s@.take(i as int), cl),
    {
        proof {
            assert(s@.take(i + 1).drop_last() =~= s@.take(i as int));
        }
        if !cl.contains(s[i]) {
            out.push(s[i]);
        }
    }
    assert(s@.take(s@.len() as int) =~= s@);
    out
}

pub proof fn lemma_without_concat(a: Seq<char>, b: Seq<char>, cl: CharClass)
    ensures
        without(a + b, cl) == without(a, cl) + without(b, cl),
    decreases b.len(),
{
    if b.len() == 0 {
        assert(a + b =~= a);
    } else {
        lemma_without_concat(a, b.drop_last(), cl);
        assert((a + b).drop_last() =~= a + b.drop_last());
        assert((a + b).last() == b.last());
    }
}

pub proof fn lemma_without_one(c: char, cl: CharClass)
    ensures
        without(seq![c], cl) == if cl.has(c) {
            seq![]
        } else {
            seq![c]
        },
{
    reveal_with_fuel(without, 2);
    assert(seq![c].drop_last() =~= seq![]);
    assert(Seq::<char>::empty().push(c) =~= seq![c]);
}

/// Trimming whitespace away changes nothing that is left once the whitespace
/// is taken out anyway.
pub proof fn lemma_without_trim(s: Seq<char>, cl: CharClass)
    requires
        forall|c: char| chars::white(c) ==> cl.has(c),
    ensures
        without(trim_front(s, CharClass::White), cl) == without(s, cl),
        without(trim_back(s, CharClass::White), cl) == without(s, cl),
        without(trim(s), cl) == without(s, cl),
{
    lemma_without_trim_front(s, cl);
    lemma_without_trim_back(s, cl);
    lemma_without_trim_back(trim_front(s, CharClass::White), cl);
}

proof fn lemma_without_trim_front(s: Seq<char>, cl: CharClass)
    requires
        forall|c: char| chars::white(c) ==> cl.has(c),
    ensures
        without(trim_front(s, CharClass::White), cl) == without(s, cl),
    decreases s.len(),
{
    if s.len() > 0 && chars::white(s[0]) {
        lemma_without_trim_front(s.skip(1), cl);
        assert(s =~= seq![s[0]] + s.skip(1));
        lemma_without_concat(seq![s[0]], s.skip(1), cl);
        lemma_without_one(s[0], cl);
    }
}

proof fn lemma_without_trim_back(s: Seq<char>, cl: CharClass)
    requires
        forall|c: char| chars::white(c) ==> cl.has(c),
    ensures
        without(trim_back(s, CharClass::White), cl) == without(s, cl),
    decreases s.len(),
{
    if s.len() > 0 && chars::white(s.last()) {
        lemma_without_trim_back(s.drop_last(), cl);
    }
}

/// What is left of the parts of a text once the characters of a class are
/// taken out.
pub open spec fn residue(parts: Seq<Seq<char>>, cl: CharClass) -> Seq<char>
    decreases parts.len(),
{
    if parts.len() == 0 {
        seq![]
    } else {
        residue(parts.drop_last(), cl) + without(parts.last(), cl)
    }
}

pub proof fn lemma_residue_front(first: Seq<char>, rest: Seq<Seq<char>>, cl: CharClass)
    ensures
        residue(seq![first] + rest, cl) == without(first, cl) + residue(rest, cl),
    decreases rest.len(),
{
    let all = seq![first] + rest;
    reveal_with_fuel(residue, 2);
    if rest.len() == 0 {
        assert(all.drop_last() =~= seq![]);
        assert(all.last() == first);
    } else {
        lemma_residue_front(first, rest.drop_last(), cl);
        assert(all.drop_last() =~= seq![first] + rest.drop_last());
        assert(all.last() == rest.last());
        assert(without(first, cl) + residue(rest, cl) =~= without(first, cl) + residue(
            rest.drop_last(),
            cl,
        ) + without(rest.last(), cl));
    }
}

/// Splitting a text into lines loses nothing but whitespace.
pub proof fn lemma_residue_lines(s: Seq<char>, cl: CharClass)
    requires
        forall|c: char| chars::white(c) ==> cl.has(c),
    ensures
        residue(lines(s), cl) == without(s, cl),
    decreases s.len(),
{
    if s.len() > 0 {
        lemma_find(s, seq!['\n']);
        match find(s, seq!['\n']) {
            Some(i) => {
                let line = s.take(i);
                let rest = s.skip(i + 1);
                lemma_residue_lines(rest, cl);
                lemma_residue_front(strip_cr(line), lines(rest), cl);
                assert(s.subrange(i, i + 1)[0] == '\n');
                assert(s =~= line + seq!['\n'] + rest);
                lemma_without_concat(line, seq!['\n'], cl);
                lemma_without_concat(line + seq!['\n'], rest, cl);
                lemma_without_one('\n', cl);
                assert(chars::white('\n') && chars::white('\r'));
                assert(without(strip_cr(line), cl) == without(line, cl));
            },
            None => {
                lemma_residue_front(s, seq![], cl);
                assert(seq![s] + Seq::<Seq<char>>::empty() =~= seq![s]);
            },
        }
    }
}

/// How many characters of the text belong to a class.
pub open spec fn count(s: Seq<char>, cl: CharClass) -> nat
    decreases s.len(),
{
    if s.len() == 0 {
        0
    } else {
        count(s.drop_last(), cl) + if cl.has(s.last()) {
            1nat
        } else {
            0nat
        }
    }
}

pub fn counted(s: &[char], cl: CharClass) -> (r: usize)
    ensures
        r == count(s@, cl),
        r <= s@.len(),
{
    let mut n: usize = 0;
    for i in 0..s.len()
        invariant
            n == count(s@.take(i as int), cl),
            n <= i,
    {
        proof {
            assert(s@.take(i + 1).drop_last() =~= s@.take(i as int));
        }
        if cl.contains(s[i]) {
            n = n + 1;
        }
    }
    assert(s@.take(s@.len() as int) =~= s@);
    n
}

/// The text with each character of a class replaced by one character.
pub open spec fn swap(s: Seq<char>, cl: CharClass, to: char) -> Seq<char> {
    s.map_values(
        |c: char|
            if cl.has(c) {
                to
            } else {
                c
            },
    )
}

pub fn swapped(s: &[char], cl: CharClass, to: char) -> (r: Vec<char>)
    ensures
        r@ == swap(s@, cl, to),
{
    let mut out: Vec<char> = Vec::new();
    for i in 0..s.len()
        invariant
            out@ == swap(s@.take(i as int), cl, to),
    {
        let c = s[i];
        let d = if cl.contains(c) {
            to
        } else {
            c
        };
        proof {
            assert(swap(s@.take(i + 1), cl, to) =~= swap(s@.take(i as int), cl, to).push(d));
        }
        out.push(d);
    }
    assert(s@.take(s@.len() as int) =~= s@);
    out
}

// ---------- Letter case ----------

/// All characters are ASCII.
pub open spec fn all_ascii(s: Seq<char>) -> bool {
    forall|i: int| 0 <= i < s.len() ==> chars::ascii(#[trigger] s[i])
}

/// The text is of ASCII characters and the signs of typeset text.
pub open spec fn all_typeset(s: Seq<char>) -> bool {
    forall|i: int| 0 <= i < s.len() ==> chars::typeset(#[trigger] s[i])
}

/// The text with its ASCII capitals in lowercase.
pub open spec fn ascii_lower(s: Seq<char>) -> Seq<char> {
    s.map_values(|c: char| chars::ascii_lowered(c))
}

/// What `str::to_lowercase` makes of a text.
pub uninterp spec fn unicode_lower(s: Seq<char>) -> Seq<char>;

/// `str::to_lowercase` depends on the text alone: it maps the text by the
/// Unicode tables.
#[verifier::external_body]
fn to_unicode_lower(s: &str) -> (r: String)
    ensures
        r@ == unicode_lower(s@),
{
    s.to_lowercase()
}

/// The text in lowercase. An ASCII text is mapped character by character; any
/// other is mapped by the Unicode tables.
pub open spec fn lower(s: Seq<char>) -> Seq<char> {
    if all_ascii(s) {
        ascii_lower(s)
    } else {
        unicode_lower(s)
    }
}

pub fn is_all_ascii(s: &[char]) -> (r: bool)
    ensures
        r == all_ascii(s@),
{
    for i in 0..s.len()
        invariant
            forall|j: int| 0 <= j < i ==> chars::ascii(#[trigger] s@[j]),
    {
        if !is_ascii(s[i]) {
            return false;
        }
    }
    true
}

pub fn ascii_lowered(s: &[char]) -> (r: Vec<char>)
    ensures
        r@ == ascii_lower(s@),
{
    let mut out: Vec<char> = Vec::new();
    for i in 0..s.len()
        invariant
            out@ == ascii_lower(s@.take(i as int)),
    {
        let c = to_ascii_lower(s[i]);
        proof {
            assert(ascii_lower(s@.take(i + 1)) =~= ascii_lower(s@.take(i as int)).push(c));
        }
        out.push(c);
    }
    assert(s@.take(s@.len() as int) =~= s@);
    out
}

pub fn lowered(s: &[char]) -> (r: Vec<char>)
    ensures
        r@ == lower(s@),
{
    if is_all_ascii(s) {
        ascii_lowered(s)
    } else {
        let t = to_unicode_lower(string_of(s).as_str());
        chars_of(t.as_str())
    }
}

/// Two texts that differ at most in the case of ASCII letters.
pub open spec fn same_ignoring_ascii_case(a: Seq<char>, b: Seq<char>) -> bool {
    ascii_lower(a) == ascii_lower(b)
}

pub fn is_same_ignoring_ascii_case(a: &[char], b: &[char]) -> (r: bool)
    ensures
        r == same_ignoring_ascii_case(a@, b@),
{
    let x = ascii_lowered(a);
    let y = ascii_lowered(b);
    same(x.as_slice(), y.as_slice())
}

// ---------- Order ----------

/// The first text stands before the second in the order of their characters.
pub open spec fn less(a: Seq<char>, b: Seq<char>) -> bool
    decreases a.len(),
{
    if b.len() == 0 {
        false
    } else if a.len() == 0 {
        true
    } else if a[0] != b[0] {
        a[0] < b[0]
    } else {
        less(a.skip(1), b.skip(1))
    }
}

/// Of two texts, either one stands before the other or they are the same.
pub proof fn lemma_less_total(a: Seq<char>, b: Seq<char>)
    ensures
        less(a, b) || less(b, a) || a == b,
        !(less(a, b) && less(b, a)),
        !less(a, a),
    decreases a.len() + b.len(),
{
    if a.len() > 0 && b.len() > 0 && a[0] == b[0] {
        lemma_less_total(a.skip(1), b.skip(1));
        if a.skip(1) == b.skip(1) {
            assert(a =~= seq![a[0]] + a.skip(1));
            assert(b =~= seq![b[0]] + b.skip(1));
        }
    }
    if a.len() == 0 && b.len() == 0 {
        assert(a =~= b);
    }
    lemma_less_irreflexive(a);
}

proof fn lemma_less_irreflexive(a: Seq<char>)
    ensures
        !less(a, a),
    decreases a.len(),
{
    if a.len() > 0 {
        lemma_less_irreflexive(a.skip(1));
    }
}

pub proof fn lemma_less_transitive(a: Seq<char>, b: Seq<char>, c: Seq<char>)
    requires
        less(a, b),
        less(b, c),
    ensures
        less(a, c),
    decreases a.len(),
{
    if a.len() > 0 && a[0] == b[0] && b[0] == c[0] {
        lemma_less_transitive(a.skip(1), b.skip(1), c.skip(1));
    }
}

/// Does the first text stand before the second?
pub fn is_less(a: &[char], b: &[char]) -> (r: bool)
    ensures
        r == less(a@, b@),
{
    let mut i: usize = 0;
    proof {
        assert(a@.skip(0) =~= a@);
        assert(b@.skip(0) =~= b@);
    }
    while i < a.len() && i < b.len()
        invariant
            i <= a@.len(),
            i <= b@.len(),
            less(a@, b@) == less(a@.skip(i as int), b@.skip(i as int)),
        decreases a@.len() - i,
    {
        if a[i] != b[i] {
            return a[i] < b[i];
        }
        proof {
            assert(a@.skip(i as int).skip(1) =~= a@.skip(i + 1));
            assert(b@.skip(i as int).skip(1) =~= b@.skip(i + 1));
        }
        i = i + 1;
    }
    i < b.len()
}

// ---------- Numbers ----------

/// The character of a decimal digit.
pub open spec fn digit(d: nat) -> char {
    (48 + d) as char
}

/// A number in decimal notation.
pub open spec fn decimal(n: nat) -> Seq<char>
    decreases n,
{
    if n < 10 {
        seq![digit(n)]
    } else {
        decimal(n / 10).push(digit(n % 10))
    }
}

/// A number in decimal notation, with zeros in front up to two digits.
pub open spec fn decimal2(n: nat) -> Seq<char> {
    if n < 10 {
        seq!['0', digit(n)]
    } else {
        decimal(n)
    }
}

fn digit_char(d: u8) -> (r: char)
    requires
        d < 10,
    ensures
        r == digit(d as nat),
{
    (48 + d) as char
}

/// Append a number in decimal notation.
pub fn append_decimal(out: &mut Vec<char>, n: u64)
    ensures
        final(out)@ == old(out)@ + decimal(n as nat),
    decreases n,
{
    if n >= 10 {
        append_decimal(out, n / 10);
        out.push(digit_char((n % 10) as u8));
    } else {
        out.push(digit_char(n as u8));
    }
}

/// The characters of a number in decimal notation.
pub fn decimal_of(n: u64) -> (r: Vec<char>)
    ensures
        r@ == decimal(n as nat),
{
    let mut out: Vec<char> = Vec::new();
    append_decimal(&mut out, n);
    assert(Seq::<char>::empty() + decimal(n as nat) =~= decimal(n as nat));
    out
}

// ---------- Encoded length ----------

/// The number of bytes of one character in UTF-8.
pub open spec fn utf8_width(c: char) -> nat {
    if c <= '\u{7f}' {
        1
    } else if c <= '\u{7ff}' {
        2
    } else if c <= '\u{ffff}' {
        3
    } else {
        4
    }
}

/// The number of bytes of a text in UTF-8.
pub open spec fn utf8_len(s: Seq<char>) -> nat
    decreases s.len(),
{
    if s.len() == 0 {
        0
    } else {
        utf8_len(s.drop_last()) + utf8_width(s.last())
    }
}

pub fn utf8_length(s: &[char]) -> (r: u128)
    ensures
        r == utf8_len(s@),
        r <= 4 * usize::MAX,
{
    let len: usize = s.len();
    let mut n: u128 = 0;
    for i in 0..len
        invariant
            len == s@.len(),
            n == utf8_len(s@.take(i as int)),
            n <= 4 * i,
    {
        proof {
            assert(s@.take(i + 1).drop_last() =~= s@.take(i as int));
        }
        let c = s[i];
        let w: u128 = if c <= '\u{7f}' {
            1
        } else if c <= '\u{7ff}' {
            2
        } else if c <= '\u{ffff}' {
            3
        } else {
            4
        };
        n = n + w;
    }
    assert(s@.take(s@.len() as int) =~= s@);
    n
}

/// A text is blank to its end where and only where trimming leaves nothing.
pub proof fn lemma_trim_blank(s: Seq<char>)
    ensures
        trim(s).len() == 0 <==> forall|k: int| 0 <= k < s.len() ==> chars::white(#[trigger] s[k]),
{
    let a = lemma_trim_front_suffix(s, CharClass::White);
    let t = trim_front(s, CharClass::White);
    let b = lemma_trim_back_prefix(t, CharClass::White);
    if trim(s).len() == 0 {
        assert forall|k: int| 0 <= k < s.len() implies chars::white(#[trigger] s[k]) by {
            if k < a {
                assert(CharClass::White.has(s[k]));
            } else {
                assert(t[k - a] == s[k]);
                assert(CharClass::White.has(t[k - a]));
            }
        }
    } else {
        assert(!CharClass::White.has(t[b - 1]));
        assert(t[b - 1] == s[a + b - 1]);
    }
}

// ---------- What these operations are for ----------

/// Trimming takes blanks from both ends and nothing else: what stands outside
/// the result is whitespace, and the result neither starts nor ends with any.
pub proof fn trimming_takes_the_ends_only(s: Seq<char>) -> (ab: (int, int))
    ensures
        0 <= ab.0 <= ab.1 <= s.len(),
        trim(s) == s.subrange(ab.0, ab.1),
        forall|k: int| 0 <= k < ab.0 || ab.1 <= k < s.len() ==> chars::white(#[trigger] s[k]),
        ab.0 < ab.1 ==> !chars::white(s[ab.0]) && !chars::white(s[ab.1 - 1]),
{
    let a = lemma_trim_front_suffix(s, CharClass::White);
    let t = trim_front(s, CharClass::White);
    lemma_trim_front_len(s, CharClass::White);
    let b = lemma_trim_back_prefix(t, CharClass::White);
    assert(trim(s) =~= s.subrange(a, a + b));
    assert forall|k: int| 0 <= k < a || a + b <= k < s.len() implies chars::white(
        #[trigger] s[k],
    ) by {
        if k < a {
            assert(CharClass::White.has(s[k]));
        } else {
            assert(t[k - a] == s[k]);
            assert(CharClass::White.has(t[k - a]));
        }
    }
    if b > 0 {
        assert(t[0] == s[a] && t[b - 1] == s[a + b - 1]);
    }
    (a, a + b)
}

proof fn lemma_word_len_all(s: Seq<char>)
    requires
        free(s, CharClass::White),
    ensures
        word_len(s) == s.len(),
    decreases s.len(),
{
    if s.len() > 0 {
        assert(!CharClass::White.has(s[0]));
        lemma_free_part(s, 1, s.len() as int, CharClass::White);
        lemma_word_len_all(s.skip(1));
    }
}

proof fn lemma_word_len_break(s: Seq<char>, w: char, t: Seq<char>)
    requires
        free(s, CharClass::White),
        chars::white(w),
    ensures
        word_len(s + seq![w] + t) == s.len(),
    decreases s.len(),
{
    let all = s + seq![w] + t;
    if s.len() == 0 {
        assert(all[0] == w);
    } else {
        assert(all[0] == s[0] && !CharClass::White.has(s[0]));
        lemma_free_part(s, 1, s.len() as int, CharClass::White);
        lemma_word_len_break(s.skip(1), w, t);
        assert(all.skip(1) =~= s.skip(1) + seq![w] + t);
    }
}

/// A run of characters without whitespace is one word, however long it is.
pub proof fn unbroken_text_is_one_word(s: Seq<char>)
    requires
        s.len() > 0,
        free(s, CharClass::White),
    ensures
        words(s) == seq![s],
{
    assert(!CharClass::White.has(s[0]));
    lemma_word_len_all(s);
    assert(s.take(s.len() as int) =~= s);
    let none = s.skip(s.len() as int);
    assert(none.len() == 0);
    assert(words(none) =~= seq![]);
    assert(seq![s] + Seq::<Seq<char>>::empty() =~= seq![s]);
}

/// Whitespace separates words: the words of two texts with a whitespace
/// character between them are the words of the first and then those of the
/// second.
pub proof fn words_of_joined_texts(a: Seq<char>, w: char, b: Seq<char>)
    requires
        chars::white(w),
    ensures
        words(a + seq![w] + b) == words(a) + words(b),
    decreases a.len(),
{
    let all = a + seq![w] + b;
    lemma_trim_front_again(all, CharClass::White);
    if a.len() == 0 {
        assert(all[0] == w && all.skip(1) =~= b);
        lemma_trim_front_again(b, CharClass::White);
        assert(words(a) =~= seq![]);
        assert(words(all) =~= words(a) + words(b));
    } else if chars::white(a[0]) {
        assert(all[0] == a[0]);
        assert(all.skip(1) =~= a.skip(1) + seq![w] + b);
        lemma_trim_front_again(a, CharClass::White);
        lemma_trim_front_again(all.skip(1), CharClass::White);
        lemma_trim_front_again(a.skip(1), CharClass::White);
        words_of_joined_texts(a.skip(1), w, b);
    } else {
        assert(all[0] == a[0]);
        let n = word_len(a) as int;
        lemma_word_chars(a);
        lemma_word_len(a);
        let first = a.take(n);
        assert forall|i: int| 0 <= i < first.len() implies !CharClass::White.has(
            #[trigger] first[i],
        ) by {
            assert(first[i] == a[i]);
        }
        let rest = a.skip(n);
        if n < a.len() {
            let more = rest.skip(1);
            assert(all =~= first + seq![a[n]] + (more + seq![w] + b));
            lemma_word_len_break(first, a[n], more + seq![w] + b);
            assert(all.skip(n) =~= rest + seq![w] + b);
            words_of_joined_texts(rest, w, b);
        } else {
            assert(first =~= a);
            lemma_word_len_break(a, w, b);
            assert(all.skip(n) =~= Seq::<char>::empty() + seq![w] + b);
            words_of_joined_texts(seq![], w, b);
            assert(rest =~= seq![]);
        }
        assert(all.take(n) =~= first);
        assert(words(all) =~= seq![first] + words(all.skip(n)));
        assert(words(a) =~= seq![first] + words(rest));
        assert(words(all) =~= words(a) + words(b));
    }
}

/// Every character of a text is either counted or left.
pub proof fn counted_and_left_is_all(s: Seq<char>, cl: CharClass)
    ensures
        count(s, cl) + without(s, cl).len() == s.len(),
        count(s, cl) == 0 <==> free(s, cl),
    decreases s.len(),
{
    if s.len() > 0 {
        let front = s.drop_last();
        counted_and_left_is_all(front, cl);
        if free(s, cl) {
            assert(!cl.has(s[s.len() - 1]));
            assert forall|i: int| 0 <= i < front.len() implies !cl.has(#[trigger] front[i]) by {
                assert(front[i] == s[i]);
            }
        } else if !cl.has(s.last()) {
            let i = choose|i: int| 0 <= i < s.len() && cl.has(#[trigger] s[i]);
            assert(front[i] == s[i]);
        }
    }
}

/// Dropping blank parts drops no text, and the parts of two lists are those of
/// the first and then those of the second.
pub proof fn only_blank_parts_are_dropped(parts: Seq<Seq<char>>, cl: CharClass)
    requires
        forall|c: char| chars::white(c) ==> cl.has(c),
    ensures
        residue(nonblank(parts), cl) == residue(parts, cl),
        forall|i: int|
            0 <= i < parts.len() && trim(#[trigger] parts[i]).len() > 0 ==> nonblank(
                parts,
            ).contains(trim(parts[i])),
    decreases parts.len(),
{
    if parts.len() > 0 {
        let front = parts.drop_last();
        let last = parts.last();
        let p = trim(last);
        only_blank_parts_are_dropped(front, cl);
        lemma_without_trim(last, cl);
        if p.len() > 0 {
            assert(nonblank(front).push(p).drop_last() =~= nonblank(front));
        } else {
            assert(without(p, cl) =~= seq![]);
        }
        assert forall|i: int| 0 <= i < parts.len() && trim(
            #[trigger] parts[i],
        ).len() > 0 implies nonblank(parts).contains(trim(parts[i])) by {
            if i < front.len() {
                assert(front[i] == parts[i]);
                let k = nonblank(front).index_of(trim(parts[i]));
                assert(nonblank(parts)[k] == trim(parts[i]));
            } else {
                assert(nonblank(parts).last() == p);
            }
        }
    }
}

pub proof fn lemma_residue_concat(a: Seq<Seq<char>>, b: Seq<Seq<char>>, cl: CharClass)
    ensures
        residue(a + b, cl) == residue(a, cl) + residue(b, cl),
    decreases b.len(),
{
    if b.len() == 0 {
        assert(a + b =~= a);
    } else {
        lemma_residue_concat(a, b.drop_last(), cl);
        assert((a + b).drop_last() =~= a + b.drop_last());
        assert(residue(a + b, cl) =~= residue(a, cl) + residue(b, cl));
    }
}

/// Joining parts adds nothing but the separators.
pub proof fn lemma_residue_join(parts: Seq<Seq<char>>, sep: Seq<char>, cl: CharClass)
    requires
        without(sep, cl).len() == 0,
    ensures
        without(join(parts, sep), cl) == residue(parts, cl),
    decreases parts.len(),
{
    if parts.len() > 0 {
        let front = parts.drop_last();
        let last = parts.last();
        lemma_residue_join(front, sep, cl);
        assert(parts =~= front.push(last));
        lemma_join_push(front, last, sep);
        if front.len() == 0 {
            assert(residue(front, cl) =~= seq![]);
            assert(residue(parts, cl) =~= without(last, cl));
        } else {
            lemma_without_concat(join(front, sep), sep, cl);
            lemma_without_concat(join(front, sep) + sep, last, cl);
            assert(without(sep, cl) =~= seq![]);
            assert(without(join(front, sep), cl) + without(sep, cl) =~= residue(front, cl));
        }
    }
}

/// The number that a row of decimal digits stands for.
pub open spec fn number(s: Seq<char>) -> int
    decreases s.len(),
{
    if s.len() == 0 {
        0
    } else {
        10 * number(s.drop_last()) + (s.last() as int - '0' as int)
    }
}

/// Decimal notation can be read back, consists of digits, and starts with no
/// zero but that of zero itself; two digits are made of one by a zero in front.
pub proof fn decimal_reads_back(n: nat)
    ensures
        number(decimal(n)) == n,
        number(decimal2(n)) == n,
        decimal(n).len() > 0,
        decimal2(n).len() >= 2,
        n >= 10 ==> decimal2(n) == decimal(n),
        n > 0 ==> decimal(n)[0] != '0',
        forall|i: int| 0 <= i < decimal(n).len() ==> chars::ascii_digit(#[trigger] decimal(n)[i]),
    decreases n,
{
    reveal_with_fuel(number, 3);
    if n < 10 {
        assert(seq![digit(n)].drop_last() =~= seq![]);
        assert(decimal2(n).drop_last() =~= seq!['0']);
        assert(seq!['0'].drop_last() =~= seq![]);
    } else {
        decimal_reads_back(n / 10);
        let front = decimal(n / 10);
        assert(decimal(n).drop_last() =~= front);
        assert(decimal(n)[0] == front[0]);
        assert forall|i: int| 0 <= i < decimal(n).len() implies chars::ascii_digit(
            #[trigger] decimal(n)[i],
        ) by {
            if i < front.len() {
                assert(decimal(n)[i] == front[i]);
            }
        }
        if n < 100 {
            reveal_with_fuel(decimal, 3);
        } else {
            assert(decimal(n).len() >= 2);
        }
    }
}

/// Replacing characters of a class keeps the length, leaves the others in their
/// places, and leaves none of the class.
pub proof fn swapping_touches_its_class_only(s: Seq<char>, cl: CharClass, to: char)
    ensures
        swap(s, cl, to).len() == s.len(),
        forall|i: int|
            0 <= i < s.len() && !cl.has(s[i]) ==> #[trigger] swap(s, cl, to)[i] == s[i],
        forall|i: int|
            0 <= i < s.len() && cl.has(s[i]) ==> #[trigger] swap(s, cl, to)[i] == to,
        !cl.has(to) ==> free(swap(s, cl, to), cl),
{
}

/// Of two texts the one comes first that has the smaller character where they
/// first differ, or is the beginning of the other.
pub proof fn first_difference_decides(common: Seq<char>, a: Seq<char>, b: Seq<char>)
    requires
        b.len() > 0,
        a.len() > 0 ==> a[0] < b[0],
    ensures
        less(common + a, common + b),
        !less(common + b, common + a),
    decreases common.len(),
{
    let x = common + a;
    let y = common + b;
    if common.len() > 0 {
        first_difference_decides(common.skip(1), a, b);
        assert(x.skip(1) =~= common.skip(1) + a);
        assert(y.skip(1) =~= common.skip(1) + b);
        assert(x[0] == y[0]);
    } else {
        assert(x =~= a && y =~= b);
    }
}

/// A text takes a byte for each ASCII character, and as many as its parts.
pub proof fn bytes_add_up(a: Seq<char>, b: Seq<char>)
    ensures
        utf8_len(a + b) == utf8_len(a) + utf8_len(b),
        a.len() <= utf8_len(a) <= 4 * a.len(),
        all_ascii(a) <==> utf8_len(a) == a.len(),
    decreases b.len(), a.len(),
{
    if b.len() > 0 {
        bytes_add_up(a, b.drop_last());
        assert((a + b).drop_last() =~= a + b.drop_last());
    } else {
        assert(a + b =~= a);
        if a.len() > 0 {
            let front = a.drop_last();
            bytes_add_up(front, seq![]);
            assert(a =~= front.push(a.last()));
            if all_ascii(front) && chars::ascii(a.last()) {
                assert forall|i: int| 0 <= i < a.len() implies chars::ascii(#[trigger] a[i]) by {
                    if i < front.len() {
                        assert(front[i] == a[i]);
                    }
                }
            }
            if all_ascii(a) {
                assert(chars::ascii(a[a.len() - 1]));
                assert forall|i: int| 0 <= i < front.len() implies chars::ascii(
                    #[trigger] front[i],
                ) by {
                    assert(front[i] == a[i]);
                }
            }
        }
    }
}

/// A text without a newline is one line, or none if it is empty.
pub proof fn text_without_newline_is_one_line(s: Seq<char>)
    requires
        free(s, CharClass::Newline),
    ensures
        lines(s) == if s.len() > 0 {
            seq![s]
        } else {
            seq![]
        },
{
    let nl = seq!['\n'];
    lemma_find(s, nl);
    if let Some(j) = find(s, nl) {
        assert(s.subrange(j, j + 1)[0] == s[j]);
        assert(!CharClass::Newline.has(s[j]));
    }
}

/// A newline ends a line: what stands before the first one, without the return
/// at its end, is the first line, and the others are the lines of the rest.
pub proof fn newlines_end_lines(first: Seq<char>, rest: Seq<char>)
    requires
        free(first, CharClass::Newline),
    ensures
        lines(first + seq!['\n'] + rest) == seq![strip_cr(first)] + lines(rest),
{
    let all = first + seq!['\n'] + rest;
    let n = first.len() as int;
    assert forall|j: int| 0 <= j < n implies all[j] != '\n' by {
        assert(all[j] == first[j]);
        assert(!CharClass::Newline.has(first[j]));
    }
    assert(all[n] == '\n');
    lemma_first_char(all, '\n', n);
    assert(all.take(n) =~= first);
    assert(all.skip(n + 1) =~= rest);
}

/// What a larger class leaves of a text can be had from what a smaller one
/// leaves of it.
pub proof fn lemma_without_twice(s: Seq<char>, small: CharClass, large: CharClass)
    requires
        forall|c: char| small.has(c) ==> #[trigger] large.has(c),
    ensures
        without(without(s, small), large) == without(s, large),
    decreases s.len(),
{
    if s.len() > 0 {
        lemma_without_twice(s.drop_last(), small, large);
        if !small.has(s.last()) {
            assert(without(s, small).drop_last() =~= without(s.drop_last(), small));
        } else {
            assert(large.has(s.last()));
        }
    }
}

/// What a part of a text holds, the text holds.
pub proof fn lemma_contains_part(s: Seq<char>, a: int, b: int, pat: Seq<char>)
    requires
        0 <= a <= b <= s.len(),
        contains(s.subrange(a, b), pat),
    ensures
        contains(s, pat),
{
    let t = s.subrange(a, b);
    let i = choose|i: int| has_at(t, pat, i);
    assert(s.subrange(a + i, a + i + pat.len()) =~= t.subrange(i, i + pat.len()));
    assert(has_at(s, pat, a + i));
}

/// The parts of a text hold no character that it does not hold.
pub proof fn lemma_split_free(s: Seq<char>, sep: Seq<char>, cl: CharClass)
    requires
        free(s, cl),
    ensures
        forall|k: int| 0 <= k < split(s, sep).len() ==> free(#[trigger] split(s, sep)[k], cl),
    decreases s.len(),
{
    lemma_find(s, sep);
    if let Some(i) = find(s, sep) {
        if sep.len() > 0 {
            let n = s.len() as int;
            let rest = s.skip(i + sep.len());
            lemma_free_part(s, 0, i, cl);
            lemma_free_part(s, i + sep.len(), n, cl);
            lemma_split_free(rest, sep, cl);
            assert forall|k: int| 0 <= k < split(s, sep).len() implies free(
                #[trigger] split(s, sep)[k],
                cl,
            ) by {
                if k > 0 {
                    assert(split(s, sep)[k] == split(rest, sep)[k - 1]);
                }
            }
        }
    }
}

/// Putting single spaces between words changes nothing but whitespace.
pub proof fn squeezing_keeps_text(s: Seq<char>)
    ensures
        without(squeeze(s), CharClass::White) == without(s, CharClass::White),
    decreases s.len(),
{
    let cl = CharClass::White;
    let t = trim_front(s, cl);
    lemma_trim_front_len(s, cl);
    lemma_without_trim(s, cl);
    lemma_word_len(t);
    if t.len() == 0 {
        assert(words(s) =~= seq![]);
        assert(without(t, cl) =~= seq![]);
    } else {
        let n = word_len(t) as int;
        let w = t.take(n);
        let rest = t.skip(n);
        squeezing_keeps_text(rest);
        assert(t =~= w + rest);
        lemma_without_concat(w, rest, cl);
        lemma_join_front(w, words(rest), seq![' ']);
        lemma_without_one(' ', cl);
        if words(rest).len() > 0 {
            lemma_without_concat(w, seq![' '], cl);
            lemma_without_concat(w + seq![' '], squeeze(rest), cl);
            assert(without(w, cl) + Seq::<char>::empty() =~= without(w, cl));
        } else {
            assert(squeeze(rest) =~= seq![]);
            assert(without(w, cl) + without(rest, cl) =~= without(w, cl));
        }
    }
}

/// A text with single spaces between its words, and no other whitespace, stays
/// as it is.
pub proof fn single_spaced_text_stays(s: Seq<char>)
    requires
        single_spaced(s),
        forall|i: int| 0 <= i < s.len() && chars::white(#[trigger] s[i]) ==> s[i] == ' ',
    ensures
        squeeze(s) == s,
    decreases s.len(),
{
    if s.len() == 0 {
        assert(words(s) =~= seq![]);
        assert(squeeze(s) =~= s);
    } else {
        lemma_word_chars(s);
        lemma_word_len(s);
        let n = word_len(s) as int;
        let w = s.take(n);
        assert forall|i: int| 0 <= i < w.len() implies !CharClass::White.has(#[trigger] w[i]) by {
            assert(w[i] == s[i]);
        }
        unbroken_text_is_one_word(w);
        if n == s.len() {
            assert(w =~= s);
            assert(join(seq![s], seq![' ']) == s);
        } else {
            let rest = s.skip(n + 1);
            assert(s[n] == ' ');
            assert(s.last() == s[s.len() - 1]);
            assert(rest.len() > 0);
            assert(rest[0] == s[n + 1] && rest.last() == s.last());
            assert(!(chars::white(s[n]) && chars::white(s[n + 1])));
            assert forall|i: int, j: int| 0 <= i && j == i + 1 && j < rest.len() implies !(
            chars::white(#[trigger] rest[i]) && chars::white(#[trigger] rest[j])) by {
                assert(rest[i] == s[n + 1 + i] && rest[j] == s[n + 1 + j]);
            }
            assert forall|i: int| 0 <= i < rest.len() && chars::white(
                #[trigger] rest[i],
            ) implies rest[i] == ' ' by {
                assert(rest[i] == s[n + 1 + i]);
            }
            single_spaced_text_stays(rest);
            assert(s =~= w + seq![' '] + rest);
            words_of_joined_texts(w, ' ', rest);
            lemma_join_front(w, words(rest), seq![' ']);
            if words(rest).len() == 0 {
                assert(squeeze(rest).len() == 0);
            }
        }
    }
}

/// The paragraphs of a text hold all of it but whitespace, in order; each holds
/// something, and no blank line is in it.
pub proof fn paragraphs_keep_text(t: Seq<char>)
    ensures
        residue(paragraphs(t), CharClass::White) == without(t, CharClass::White),
        forall|i: int|
            0 <= i < paragraphs(t).len() ==> (#[trigger] paragraphs(t)[i]).len() > 0 && !contains(
                paragraphs(t)[i],
                "\n\n"@,
            ),
{
    let cl = CharClass::White;
    let gap = "\n\n"@;
    reveal_strlit("\n\n");
    let parts = split(t, gap);
    only_blank_parts_are_dropped(parts, cl);
    lemma_nonblank(parts);
    lemma_join_split(t, gap);
    lemma_split_parts(t, gap);
    reveal_with_fuel(without, 3);
    assert(gap.drop_last() =~= seq!['\n']);
    assert(seq!['\n'].drop_last() =~= seq![]);
    assert(chars::white('\n'));
    assert(without(gap, cl).len() == 0);
    lemma_residue_join(parts, gap, cl);
    lemma_nonblank_inside(parts, gap);
}

proof fn lemma_nonblank_inside(parts: Seq<Seq<char>>, pat: Seq<char>)
    requires
        forall|i: int| 0 <= i < parts.len() ==> !contains(#[trigger] parts[i], pat),
    ensures
        forall|i: int|
            0 <= i < nonblank(parts).len() ==> !contains(#[trigger] nonblank(parts)[i], pat),
    decreases parts.len(),
{
    if parts.len() > 0 {
        let front = parts.drop_last();
        let last = parts[parts.len() - 1];
        assert forall|i: int| 0 <= i < front.len() implies !contains(#[trigger] front[i], pat) by {
            assert(front[i] == parts[i]);
        }
        lemma_nonblank_inside(front, pat);
        assert(!contains(last, pat));
        let (a, b) = lemma_trim_inside(last);
        if contains(trim(last), pat) {
            lemma_contains_part(last, a, b, pat);
        }
        assert forall|i: int| 0 <= i < nonblank(parts).len() implies !contains(
            #[trigger] nonblank(parts)[i],
            pat,
        ) by {
            if i < nonblank(front).len() {
                assert(nonblank(parts)[i] == nonblank(front)[i]);
            }
        }
    }
}

/// Putting single spaces between words leaves the last character where it is no
/// whitespace.
pub proof fn lemma_squeeze_last(s: Seq<char>)
    requires
        s.len() > 0,
        !chars::white(s.last()),
    ensures
        squeeze(s).len() > 0,
        squeeze(s).last() == s.last(),
    decreases s.len(),
{
    let cl = CharClass::White;
    let k = lemma_trim_front_suffix(s, cl);
    let t = trim_front(s, cl);
    lemma_trim_front_len(s, cl);
    if k == s.len() {
        assert(cl.has(s[s.len() - 1]));
    }
    lemma_word_len(t);
    let n = word_len(t) as int;
    let w = t.take(n);
    let rest = t.skip(n);
    lemma_join_front(w, words(rest), seq![' ']);
    assert(t.last() == s.last());
    if rest.len() == 0 {
        assert(words(rest) =~= seq![]);
        assert(w =~= t);
    } else {
        assert(rest.last() == t.last());
        lemma_squeeze_last(rest);
        if words(rest).len() == 0 {
            assert(squeeze(rest).len() == 0);
        }
    }
}

proof fn lemma_first_char(s: Seq<char>, c: char, i: int)
    requires
        0 <= i < s.len(),
        s[i] == c,
        forall|j: int| 0 <= j < i ==> s[j] != c,
    ensures
        find(s, seq![c]) == Some(i),
{
    let one = seq![c];
    lemma_find(s, one);
    assert(s.subrange(i, i + 1) =~= one);
    assert(has_at(s, one, i));
    let k = find(s, one)->0;
    assert(has_at(s, one, k));
    assert(s.subrange(k, k + 1)[0] == s[k]);
    assert(!(k < i)) by {
        if k < i {
            assert(s[k] != c);
        }
    }
}

proof fn lemma_no_char(s: Seq<char>, c: char)
    requires
        !s.contains(c),
    ensures
        split(s, seq![c]) == seq![s],
{
    lemma_find(s, seq![c]);
    if let Some(k) = find(s, seq![c]) {
        assert(s.subrange(k, k + 1)[0] == s[k]);
        assert(s.contains(c));
    }
}

proof fn lemma_split_char(first: Seq<char>, c: char, rest: Seq<char>)
    requires
        !first.contains(c),
    ensures
        split(first + seq![c] + rest, seq![c]) == seq![first] + split(rest, seq![c]),
{
    let s = first + seq![c] + rest;
    let n = first.len() as int;
    assert forall|j: int| 0 <= j < n implies s[j] != c by {
        assert(s[j] == first[j]);
        assert(first.contains(first[j]));
    }
    assert(s[n] == c);
    lemma_first_char(s, c, n);
    assert(s.take(n) =~= first);
    assert(s.skip(n + 1) =~= rest);
}

/// Parts that do not hold the separating character come back when what they were
/// joined to is split.
pub proof fn joined_parts_split_again(parts: Seq<Seq<char>>, c: char)
    requires
        parts.len() > 0,
        forall|i: int| 0 <= i < parts.len() ==> !(#[trigger] parts[i]).contains(c),
    ensures
        split(join(parts, seq![c]), seq![c]) == parts,
    decreases parts.len(),
{
    let first = parts[0];
    let rest = parts.skip(1);
    assert(parts =~= seq![first] + rest);
    lemma_join_front(first, rest, seq![c]);
    if rest.len() == 0 {
        lemma_no_char(first, c);
    } else {
        assert forall|i: int| 0 <= i < rest.len() implies !(#[trigger] rest[i]).contains(c) by {
            assert(rest[i] == parts[i + 1]);
        }
        joined_parts_split_again(rest, c);
        lemma_split_char(first, c, join(rest, seq![c]));
    }
}

/// Lists of texts are seen whole and in order.
pub proof fn texts_are_seen_in_order(
    a: Seq<String>,
    b: Seq<Vec<char>>,
    c: Seq<&[char]>,
    i: int,
)
    ensures
        texts(a).len() == a.len() && rows(b).len() == b.len() && spans(c).len() == c.len(),
        0 <= i < a.len() ==> texts(a)[i] == a[i]@,
        0 <= i < b.len() ==> rows(b)[i] == b[i]@,
        0 <= i < c.len() ==> spans(c)[i] == c[i]@,
{
}

/// A return goes with the newline behind it, and only one.
pub proof fn returns_before_newlines_go(s: Seq<char>)
    ensures
        strip_cr(s.push('\r')) == s,
        s.len() == 0 || s.last() != '\r' ==> strip_cr(s) == s,
{
    assert(s.push('\r').drop_last() =~= s);
}

} // verus!
