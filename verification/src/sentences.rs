//! Sentences: a text cut into pieces that are spoken in one breath.
use crate::chars;
use crate::chars::CharClass;
use crate::text;
use crate::text::{chars_of, copied, is_text, lowered, strings_of, swapped, trimmed, trimmed_back, trimmed_front};
use vstd::prelude::*;
use vstd::slice::slice_subrange;

verus! {

/// Words that end with a period without ending a sentence.
pub open spec fn abbreviation(w: Seq<char>) -> bool {
    ||| w == "dr"@
    ||| w == "mr"@
    ||| w == "mrs"@
    ||| w == "ms"@
    ||| w == "prof"@
    ||| w == "st"@
    ||| w == "rev"@
    ||| w == "hon"@
    ||| w == "sr"@
    ||| w == "jr"@
    ||| w == "vs"@
    ||| w == "etc"@
    ||| w == "eg"@
    ||| w == "ie"@
    ||| w == "no"@
    ||| w == "vol"@
    ||| w == "fig"@
    ||| w == "p"@
    ||| w == "pp"@
    ||| w == "ch"@
}

fn is_abbreviation(w: &[char]) -> (r: bool)
    ensures
        r == abbreviation(w@),
{
    is_text(w, "dr") || is_text(w, "mr") || is_text(w, "mrs") || is_text(w, "ms") || is_text(
        w,
        "prof",
    ) || is_text(w, "st") || is_text(w, "rev") || is_text(w, "hon") || is_text(w, "sr") || is_text(
        w,
        "jr",
    ) || is_text(w, "vs") || is_text(w, "etc") || is_text(w, "eg") || is_text(w, "ie") || is_text(
        w,
        "no",
    ) || is_text(w, "vol") || is_text(w, "fig") || is_text(w, "p") || is_text(w, "pp") || is_text(
        w,
        "ch",
    )
}

/// The last run of letters and digits in a text.
pub open spec fn last_word(s: Seq<char>) -> Seq<char> {
    let t = text::trim_back(s, CharClass::NotAlphanumeric);
    t.skip(text::trim_back(t, CharClass::Alphanumeric).len() as int)
}

fn last_word_of<'a>(s: &'a [char]) -> (r: &'a [char])
    ensures
        r@ == last_word(s@),
{
    let t: &'a [char] = trimmed_back(s, CharClass::NotAlphanumeric);
    let n: usize = trimmed_back(t, CharClass::Alphanumeric).len();
    proof {
        let k = text::lemma_trim_back_prefix(t@, CharClass::Alphanumeric);
        assert(t@.subrange(n as int, t@.len() as int) =~= t@.skip(n as int));
    }
    slice_subrange(t, n, t.len())
}

/// The marks that can end a sentence.
pub open spec fn terminator(c: char) -> bool {
    c == '.' || c == '?' || c == '!'
}

/// The mark at `i` belongs to an ellipsis: a period follows, or it is a period
/// behind another.
pub open spec fn in_ellipsis(s: Seq<char>, i: int) -> bool {
    (i + 1 < s.len() && s[i + 1] == '.') || (s[i] == '.' && i > 0 && s[i - 1] == '.')
}

/// A sentence that began at `start` ends with the mark at `i`.
pub open spec fn ends_at(s: Seq<char>, start: int, i: int) -> bool {
    &&& terminator(s[i])
    &&& !in_ellipsis(s, i)
    &&& !(s[i] == '.' && abbreviation(text::lower(last_word(s.subrange(start, i + 1)))))
}

/// The end of the closing quotes and brackets that start at `i`.
pub open spec fn past_closers(s: Seq<char>, i: int) -> int {
    s.len() - text::trim_front(s.skip(i), CharClass::Closer).len()
}

/// A list of one text, trimmed, or of none if nothing is left of it.
pub open spec fn piece(s: Seq<char>) -> Seq<Seq<char>> {
    if text::trim(s).len() == 0 {
        seq![]
    } else {
        seq![text::trim(s)]
    }
}

/// The sentences of the text from `start` on, of which the part up to `i` is
/// known to hold no end.
pub open spec fn sentences_from(s: Seq<char>, start: int, i: int) -> Seq<Seq<char>>
    decreases s.len() - i,
    via sentences_from_decreases
{
    if start < 0 || i < start || i >= s.len() {
        piece(s.skip(start))
    } else if ends_at(s, start, i) {
        let end = past_closers(s, i + 1);
        piece(s.subrange(start, end)) + sentences_from(s, end, end)
    } else {
        sentences_from(s, start, i + 1)
    }
}

#[via_fn]
proof fn sentences_from_decreases(s: Seq<char>, start: int, i: int) {
    if 0 <= i < s.len() {
        let k = text::lemma_trim_front_suffix(s.skip(i + 1), CharClass::Closer);
    }
}

/// The sentences of a text. Its newlines count as spaces.
pub open spec fn sentences(t: Seq<char>) -> Seq<Seq<char>> {
    sentences_from(text::swap(t, CharClass::Newline, ' '), 0, 0)
}

fn push_piece(out: &mut Vec<Vec<char>>, s: &[char])
    ensures
        text::rows(final(out)@) == text::rows(old(out)@) + piece(s@),
{
    let t = trimmed(s);
    if t.len() > 0 {
        let kept = copied(t);
        out.push(kept);
        assert(text::rows(out@) =~= text::rows(old(out)@) + seq![kept@]);
    } else {
        assert(text::rows(old(out)@) + Seq::<Seq<char>>::empty() =~= text::rows(old(out)@));
    }
}

fn is_end(s: &[char], start: usize, i: usize) -> (r: bool)
    requires
        start <= i < s@.len(),
    ensures
        r == ends_at(s@, start as int, i as int),
{
    let n: usize = s.len();
    let c = s[i];
    if !(c == '.' || c == '?' || c == '!') {
        return false;
    }
    if (i + 1 < n && s[i + 1] == '.') || (c == '.' && i > 0 && s[i - 1] == '.') {
        return false;
    }
    if c != '.' {
        return true;
    }
    let word = lowered(last_word_of(slice_subrange(s, start, i + 1)));
    !is_abbreviation(word.as_slice())
}

/// Split a text into sentences at periods, question and exclamation marks.
/// Abbreviations and ellipses end none, and closing quotes and brackets stay
/// with the sentence before them.
pub fn split_sentences(t: &str) -> (r: Vec<String>)
    ensures
        text::texts(r@) == sentences(t@),
{
    let raw = chars_of(t);
    let s = swapped(raw.as_slice(), CharClass::Newline, ' ');
    let n: usize = s.len();
    let mut out: Vec<Vec<char>> = Vec::new();
    let mut start: usize = 0;
    let mut i: usize = 0;
    proof {
        assert(text::rows(out@) + sentences_from(s@, 0, 0) =~= sentences_from(s@, 0, 0));
    }
    while i < n
        invariant
            n == s@.len(),
            s@ == text::swap(t@, CharClass::Newline, ' '),
            start <= i <= n,
            sentences(t@) == text::rows(out@) + sentences_from(s@, start as int, i as int),
        decreases n - i,
    {
        if is_end(s.as_slice(), start, i) {
            proof {
                assert(s@.subrange(i + 1, n as int) =~= s@.skip(i + 1));
                let k = text::lemma_trim_front_suffix(s@.skip(i + 1), CharClass::Closer);
            }
            let after = trimmed_front(
                slice_subrange(s.as_slice(), i + 1, n),
                CharClass::Closer,
            );
            let end: usize = n - after.len();
            let ghost before = text::rows(out@);
            push_piece(&mut out, slice_subrange(s.as_slice(), start, end));
            proof {
                let own = piece(s@.subrange(start as int, end as int));
                let rest = sentences_from(s@, end as int, end as int);
                assert(before + (own + rest) =~= before + own + rest);
            }
            start = end;
            i = end;
        } else {
            i = i + 1;
        }
    }
    proof {
        assert(s@.subrange(start as int, n as int) =~= s@.skip(start as int));
    }
    push_piece(&mut out, slice_subrange(s.as_slice(), start, n));
    strings_of(&out)
}

// ---------- What splitting keeps ----------

proof fn lemma_piece(s: Seq<char>)
    ensures
        text::residue(piece(s), CharClass::White) == text::without(s, CharClass::White),
        forall|k: int|
            0 <= k < piece(s).len() ==> (#[trigger] piece(s)[k]).len() > 0 && text::trim(
                piece(s)[k],
            ) == piece(s)[k],
{
    text::lemma_without_trim(s, CharClass::White);
    text::lemma_trim_again(s);
    if text::trim(s).len() == 0 {
        assert(text::trim(s) =~= seq![]);
    } else {
        text::lemma_residue_front(text::trim(s), seq![], CharClass::White);
        assert(seq![text::trim(s)] + Seq::<Seq<char>>::empty() =~= seq![text::trim(s)]);
    }
}

proof fn lemma_sentences_from(s: Seq<char>, start: int, i: int)
    requires
        0 <= start <= i <= s.len(),
    ensures
        text::residue(sentences_from(s, start, i), CharClass::White) == text::without(
            s.skip(start),
            CharClass::White,
        ),
        forall|k: int|
            0 <= k < sentences_from(s, start, i).len() ==> (#[trigger] sentences_from(
                s,
                start,
                i,
            )[k]).len() > 0 && text::trim(sentences_from(s, start, i)[k]) == sentences_from(
                s,
                start,
                i,
            )[k],
    decreases s.len() - i,
{
    if i >= s.len() {
        lemma_piece(s.skip(start));
    } else if ends_at(s, start, i) {
        let k = text::lemma_trim_front_suffix(s.skip(i + 1), CharClass::Closer);
        let end = past_closers(s, i + 1);
        let own = piece(s.subrange(start, end));
        let rest = sentences_from(s, end, end);
        lemma_piece(s.subrange(start, end));
        lemma_sentences_from(s, end, end);
        assert(s.skip(start) =~= s.subrange(start, end) + s.skip(end));
        text::lemma_without_concat(s.subrange(start, end), s.skip(end), CharClass::White);
        if own.len() == 0 {
            assert(own + rest =~= rest);
            assert(own =~= seq![]);
        } else {
            assert(own =~= seq![own[0]]);
            text::lemma_residue_front(own[0], rest, CharClass::White);
            text::lemma_residue_front(own[0], seq![], CharClass::White);
            assert(seq![own[0]] + Seq::<Seq<char>>::empty() =~= own);
        }
        assert forall|m: int| 0 <= m < (own + rest).len() implies (#[trigger] (own
            + rest)[m]).len() > 0 && text::trim((own + rest)[m]) == (own + rest)[m] by {
            if m < own.len() {
                assert((own + rest)[m] == own[m]);
            } else {
                assert((own + rest)[m] == rest[m - own.len()]);
            }
        }
    } else {
        lemma_sentences_from(s, start, i + 1);
    }
}

proof fn lemma_without_swap(t: Seq<char>)
    ensures
        text::without(text::swap(t, CharClass::Newline, ' '), CharClass::White) == text::without(
            t,
            CharClass::White,
        ),
    decreases t.len(),
{
    let u = text::swap(t, CharClass::Newline, ' ');
    if t.len() > 0 {
        lemma_without_swap(t.drop_last());
        assert(u.drop_last() =~= text::swap(t.drop_last(), CharClass::Newline, ' '));
    }
}

/// Splitting a text into sentences loses nothing but whitespace, and adds and
/// reorders nothing.
pub proof fn splitting_keeps_text(t: Seq<char>)
    ensures
        text::residue(sentences(t), CharClass::White) == text::without(t, CharClass::White),
{
    let s = text::swap(t, CharClass::Newline, ' ');
    lemma_sentences_from(s, 0, 0);
    lemma_without_swap(t);
    assert(s.skip(0) =~= s);
}

/// No sentence is blank, and none has whitespace at its ends.
pub proof fn sentences_are_trimmed(t: Seq<char>, k: int)
    requires
        0 <= k < sentences(t).len(),
    ensures
        sentences(t)[k].len() > 0,
        text::trim(sentences(t)[k]) == sentences(t)[k],
{
    lemma_sentences_from(text::swap(t, CharClass::Newline, ' '), 0, 0);
}

/// A period behind an abbreviation ends no sentence, and neither does a mark in
/// an ellipsis.
pub proof fn abbreviations_end_nothing(s: Seq<char>, start: int, i: int)
    requires
        0 <= start <= i < s.len(),
        in_ellipsis(s, i) || (s[i] == '.' && abbreviation(
            text::lower(last_word(s.subrange(start, i + 1))),
        )),
    ensures
        sentences_from(s, start, i) == sentences_from(s, start, i + 1),
{
}

// ---------- How sentences end ----------

/// The text ends with the mark at `m` and closing quotes and brackets behind it.
pub open spec fn marked(y: Seq<char>, m: int) -> bool {
    &&& 0 <= m < y.len()
    &&& terminator(y[m])
    &&& forall|j: int| m < j < y.len() ==> CharClass::Closer.has(#[trigger] y[j])
}

/// The text ends with the mark at `m` and closing quotes and brackets behind it,
/// and if the mark is a period no abbreviation stands before it.
pub open spec fn complete(y: Seq<char>, m: int) -> bool {
    &&& marked(y, m)
    &&& y[m] == '.' ==> !abbreviation(text::lower(last_word(y.take(m + 1))))
}

proof fn lemma_complete(s: Seq<char>, start: int, i: int, k: int) -> (ym: (Seq<char>, int))
    requires
        0 <= start <= i <= s.len(),
        0 <= k < sentences_from(s, start, i).len() - 1,
    ensures
        complete(ym.0, ym.1),
        text::trim(ym.0) == sentences_from(s, start, i)[k],
    decreases s.len() - i,
{
    if i >= s.len() {
        (s, 0)
    } else if ends_at(s, start, i) {
        let n = text::lemma_trim_front_suffix(s.skip(i + 1), CharClass::Closer);
        let end = past_closers(s, i + 1);
        let y = s.subrange(start, end);
        let own = piece(y);
        let rest = sentences_from(s, end, end);
        if k < own.len() {
            assert(y.take(i - start + 1) =~= s.subrange(start, i + 1));
            assert forall|j: int| i - start < j < y.len() implies CharClass::Closer.has(
                #[trigger] y[j],
            ) by {
                assert(y[j] == s.skip(i + 1)[j + start - i - 1]);
            }
            (y, i - start)
        } else {
            assert((own + rest)[k] == rest[k - own.len()]);
            lemma_complete(s, end, end, k - own.len())
        }
    } else {
        lemma_complete(s, start, i + 1, k)
    }
}

proof fn lemma_trim_back_whole(w: Seq<char>, z: Seq<char>, cl: CharClass)
    ensures
        text::trim_back(w + z, cl) == if text::trim_back(z, cl).len() > 0 {
            w + text::trim_back(z, cl)
        } else {
            text::trim_back(w, cl)
        },
    decreases z.len(),
{
    if z.len() == 0 {
        assert(w + z =~= w);
    } else {
        assert((w + z).last() == z.last());
        assert((w + z).drop_last() =~= w + z.drop_last());
        if cl.has(z.last()) {
            lemma_trim_back_whole(w, z.drop_last(), cl);
        }
    }
}

proof fn lemma_last_word(w: Seq<char>, z: Seq<char>)
    requires
        forall|i: int| 0 <= i < w.len() ==> !chars::alphanumeric(#[trigger] w[i]),
    ensures
        last_word(w + z) == last_word(z),
{
    let non = CharClass::NotAlphanumeric;
    let al = CharClass::Alphanumeric;
    lemma_trim_back_whole(w, z, non);
    let k = text::lemma_trim_back_prefix(w, non);
    assert(k == 0) by {
        if k > 0 {
            assert(!chars::alphanumeric(w[k - 1]));
        }
    }
    let t = text::trim_back(z, non);
    if t.len() > 0 {
        lemma_trim_back_whole(w, t, al);
        let rest = text::trim_back(t, al);
        let n = text::lemma_trim_back_prefix(t, al);
        if w.len() > 0 {
            assert(!chars::alphanumeric(w[w.len() - 1]));
        }
        assert(text::trim_back(w, al) =~= w);
        assert((w + t).skip((w.len() + rest.len()) as int) =~= t.skip(rest.len() as int));
    } else {
        assert(text::trim_back(w, non) =~= t);
    }
}

proof fn lemma_trimmed_end(y: Seq<char>, m: int) -> (a: int)
    requires
        marked(y, m),
    ensures
        0 <= a <= m,
        text::trim(y) == y.skip(a),
        marked(text::trim(y), m - a),
        forall|j: int| 0 <= j < a ==> chars::white(#[trigger] y[j]),
{
    let a = text::lemma_trim_front_suffix(y, CharClass::White);
    let z = y.skip(a);
    assert(a <= m) by {
        if a > m {
            assert(CharClass::White.has(y[m]));
        }
    }
    let n = text::lemma_trim_back_prefix(z, CharClass::White);
    let last = y.len() - 1;
    assert(!chars::white(y[last])) by {
        if m < last {
            assert(CharClass::Closer.has(y[last]));
        }
    }
    assert(z[z.len() - 1] == y[last]);
    assert(z.take(z.len() as int) =~= z);
    assert forall|j: int| m - a < j < z.len() implies CharClass::Closer.has(#[trigger] z[j]) by {
        assert(z[j] == y[j + a]);
    }
    assert forall|j: int| 0 <= j < a implies chars::white(#[trigger] y[j]) by {
        assert(CharClass::White.has(y[j]));
    }
    a
}

/// Every sentence but the last ends with a mark and closing quotes and
/// brackets, and if the mark is a period no abbreviation stands before it.
pub proof fn sentences_are_complete(t: Seq<char>, k: int)
    requires
        0 <= k < sentences(t).len() - 1,
    ensures
        exists|m: int| complete(sentences(t)[k], m),
{
    let s = text::swap(t, CharClass::Newline, ' ');
    let (y, m) = lemma_complete(s, 0, 0, k);
    let a = lemma_trimmed_end(y, m);
    let x = sentences(t)[k];
    let w = y.take(a);
    assert forall|i: int| 0 <= i < w.len() implies !chars::alphanumeric(#[trigger] w[i]) by {
        assert(chars::white(y[i]));
    }
    assert(y.take(m + 1) =~= w + x.take(m - a + 1));
    lemma_last_word(w, x.take(m - a + 1));
    assert(complete(x, m - a));
}

// ---------- Where sentences are split ----------

/// No mark of the text ends a sentence.
pub open spec fn unmarked(s: Seq<char>) -> bool {
    forall|i: int|
        0 <= i < s.len() ==> #[trigger] s[i] != '.' && s[i] != '?' && s[i] != '!'
}

proof fn lemma_run_on(s: Seq<char>, start: int, i: int, n: int)
    requires
        0 <= start <= i <= n <= s.len(),
        forall|j: int| i <= j < n ==> #[trigger] s[j] != '.' && s[j] != '?' && s[j] != '!',
    ensures
        sentences_from(s, start, i) == sentences_from(s, start, n),
    decreases n - i,
{
    if i < n {
        assert(s[i] != '.' && s[i] != '?' && s[i] != '!');
        lemma_run_on(s, start, i + 1, n);
    }
}

/// A text that no mark interrupts is one sentence, however long it is.
pub proof fn unmarked_text_is_one_sentence(t: Seq<char>)
    requires
        unmarked(t),
        text::free(t, CharClass::Newline),
        text::trim(t).len() > 0,
    ensures
        sentences(t) == seq![text::trim(t)],
{
    let s = text::swap(t, CharClass::Newline, ' ');
    assert forall|i: int| 0 <= i < t.len() implies s[i] == t[i] by {
        assert(!CharClass::Newline.has(t[i]));
    }
    assert(s =~= t);
    lemma_run_on(s, 0, 0, s.len() as int);
    assert(s.skip(0) =~= s);
}

/// The sentences of a text from some place on depend on what stands from there
/// on, unless an ellipsis reaches across it.
proof fn lemma_shift(s: Seq<char>, k: int, start: int, i: int)
    requires
        0 <= k <= start <= i <= s.len(),
        k < s.len() ==> s[k] != '.',
    ensures
        sentences_from(s, start, i) == sentences_from(s.skip(k), start - k, i - k),
    decreases s.len() - i,
{
    let t = s.skip(k);
    assert(t.skip(start - k) =~= s.skip(start));
    if i < s.len() {
        assert(t[i - k] == s[i]);
        if i + 1 < s.len() {
            assert(t[i + 1 - k] == s[i + 1]);
        }
        if i > k {
            assert(t[i - 1 - k] == s[i - 1]);
        }
        assert(t.subrange(start - k, i + 1 - k) =~= s.subrange(start, i + 1));
        assert(ends_at(t, start - k, i - k) == ends_at(s, start, i));
        let m = text::lemma_trim_front_suffix(s.skip(i + 1), CharClass::Closer);
        assert(t.skip(i + 1 - k) =~= s.skip(i + 1));
        let end = past_closers(s, i + 1);
        assert(past_closers(t, i + 1 - k) == end - k);
        if ends_at(s, start, i) {
            lemma_shift(s, k, end, end);
            assert(t.subrange(start - k, end - k) =~= s.subrange(start, end));
        } else {
            lemma_shift(s, k, start, i + 1);
        }
    }
}

/// The first mark behind which no other period stands, and before which no
/// abbreviation, ends a sentence. The closing quotes and brackets behind it
/// belong to that sentence, and the other sentences are those of the rest.
pub proof fn marks_end_sentences(a: Seq<char>, mark: char, closers: Seq<char>, rest: Seq<char>)
    requires
        unmarked(a),
        text::free(a, CharClass::Newline),
        text::trim(a).len() > 0,
        mark == '.' || mark == '?' || mark == '!',
        mark == '.' ==> !abbreviation(text::lower(last_word(a.push('.')))),
        forall|i: int| 0 <= i < closers.len() ==> "\"”)'"@.contains(#[trigger] closers[i]),
        rest.len() > 0 ==> rest[0] != '.' && !"\"”)'"@.contains(rest[0]),
    ensures
        sentences(a + seq![mark] + closers + rest) == seq![
            text::trim(a + seq![mark] + closers),
        ] + sentences(rest),
{
    let t = a + seq![mark] + closers + rest;
    let s = text::swap(t, CharClass::Newline, ' ');
    let r = text::swap(rest, CharClass::Newline, ' ');
    let n = a.len() as int;
    let m = closers.len() as int;
    let end = n + 1 + m;
    assert forall|i: int| 0 <= i < m implies CharClass::Closer.has(#[trigger] closers[i]) by {
        chars::classes_are_spelled_out(closers[i]);
    }
    let first = a + seq![mark] + closers;
    assert forall|i: int| 0 <= i < end implies #[trigger] s[i] == first[i] by {
        assert(t[i] == first[i]);
        if i < n {
            assert(first[i] == a[i]);
            assert(!CharClass::Newline.has(a[i]));
        } else if i > n {
            assert(first[i] == closers[i - n - 1]);
        }
    }
    assert(s.skip(end) =~= r);
    assert forall|j: int| 0 <= j < n implies #[trigger] s[j] != '.' && s[j] != '?' && s[j] != '!' by {
        assert(s[j] == a[j]);
    }
    lemma_run_on(s, 0, 0, n);
    assert(s[n] == mark);
    assert(s.subrange(0, n + 1) =~= a.push(mark));
    if n > 0 {
        assert(s[n - 1] == a[n - 1]);
    }
    if n + 1 < s.len() {
        if m > 0 {
            assert(s[n + 1] == closers[0]);
            assert(CharClass::Closer.has(closers[0]));
        } else {
            assert(s[n + 1] == r[0]);
        }
    }
    assert(ends_at(s, 0, n));
    if rest.len() > 0 {
        chars::classes_are_spelled_out(rest[0]);
        assert(r[0] == rest[0] || r[0] == ' ');
        assert(s[end] == r[0]);
    }
    let tail = s.skip(n + 1);
    let k = text::lemma_trim_front_suffix(tail, CharClass::Closer);
    text::lemma_trim_front_len(tail, CharClass::Closer);
    if k < m {
        assert(tail[k] == closers[k]);
    } else if k > m {
        assert(CharClass::Closer.has(tail[m]));
        assert(tail[m] == r[0]);
    }
    assert(past_closers(s, n + 1) == end);
    assert(s.subrange(0, end) =~= first);
    lemma_shift(s, end, end, end);
    text::lemma_trim_blank(a);
    text::lemma_trim_blank(first);
    if text::trim(first).len() == 0 {
        assert(first[n] == mark);
    }
}

/// Titles, common abbreviations of scholarship, and no longer words.
pub proof fn abbreviations_are_known(w: Seq<char>)
    ensures
        abbreviation("dr"@) && abbreviation("mr"@) && abbreviation("mrs"@) && abbreviation("ms"@),
        abbreviation("prof"@) && abbreviation("st"@) && abbreviation("rev"@) && abbreviation(
            "hon"@,
        ),
        abbreviation("sr"@) && abbreviation("jr"@) && abbreviation("vs"@) && abbreviation("etc"@),
        abbreviation("eg"@) && abbreviation("ie"@) && abbreviation("no"@) && abbreviation("vol"@),
        abbreviation("fig"@) && abbreviation("p"@) && abbreviation("pp"@) && abbreviation("ch"@),
        w.len() > 4 || w.len() == 0 ==> !abbreviation(w),
{
    reveal_strlit("dr");
    reveal_strlit("mr");
    reveal_strlit("mrs");
    reveal_strlit("ms");
    reveal_strlit("prof");
    reveal_strlit("st");
    reveal_strlit("rev");
    reveal_strlit("hon");
    reveal_strlit("sr");
    reveal_strlit("jr");
    reveal_strlit("vs");
    reveal_strlit("etc");
    reveal_strlit("eg");
    reveal_strlit("ie");
    reveal_strlit("no");
    reveal_strlit("vol");
    reveal_strlit("fig");
    reveal_strlit("p");
    reveal_strlit("pp");
    reveal_strlit("ch");
}

/// The last word of a text is its last run of letters and digits, whatever stands
/// before it and whatever signs stand behind it.
pub proof fn last_word_is_the_last(before: Seq<char>, word: Seq<char>, after: Seq<char>)
    requires
        before.len() > 0 ==> !chars::alphanumeric(before.last()),
        word.len() > 0,
        forall|i: int| 0 <= i < word.len() ==> chars::alphanumeric(#[trigger] word[i]),
        forall|i: int| 0 <= i < after.len() ==> !chars::alphanumeric(#[trigger] after[i]),
    ensures
        last_word(before + word + after) == word,
{
    let s = before + word + after;
    let b = before.len() as int;
    let n = b + word.len();
    let k = text::lemma_trim_back_prefix(s, CharClass::NotAlphanumeric);
    assert(s[n - 1] == word[word.len() - 1]);
    if k < n {
        assert(CharClass::NotAlphanumeric.has(s[n - 1]));
    } else if k > n {
        assert(s[k - 1] == after[k - 1 - n]);
    }
    let t = s.take(n);
    let j = text::lemma_trim_back_prefix(t, CharClass::Alphanumeric);
    if j < b {
        assert(t[b - 1] == before.last());
        assert(CharClass::Alphanumeric.has(t[b - 1]));
    } else if j > b {
        assert(t[j - 1] == word[j - 1 - b]);
    }
    assert(t.skip(b) =~= word);
}

/// No mark in a row of periods ends a sentence, and neither does a mark right
/// before a period.
pub proof fn ellipses_end_nothing(s: Seq<char>, start: int, i: int)
    requires
        0 <= start <= i < s.len(),
        (i + 1 < s.len() && s[i + 1] == '.') || (s[i] == '.' && i > 0 && s[i - 1] == '.'),
    ensures
        sentences_from(s, start, i) == sentences_from(s, start, i + 1),
{
}

} // verus!
