//! From raw page texts to flowing paragraphs fit for narration: lines joined,
//! hyphenation repaired, running heads, page numbers, footnotes and
//! bibliographies dropped.
use crate::chars;
use crate::chars::{is_lower_letter, CharClass};
use crate::patterns;
use crate::running_heads;
use crate::running_heads::{detect_running_heads, strip_running_heads};
use crate::text;
use crate::text::{
    append, chars_of, copied, joined_rows, lines_of, rows_from, rows_of, split_at_each, string_of,
    trimmed, trimmed_back,
};
use unicode_normalization::UnicodeNormalization;
use vstd::prelude::*;
use vstd::slice::slice_subrange;

verus! {

// ---------- Joining lines ----------

/// A hyphen between these two pieces was put there by the typesetter: it stands
/// between two lowercase letters.
pub open spec fn soft_break(base: Seq<char>, next: Seq<char>) -> bool {
    &&& base.len() > 0
    &&& chars::lowercase(base.last())
    &&& next.len() > 0
    &&& chars::lowercase(next[0])
}

/// Two pieces of which the first ends with a hyphen: a soft hyphen goes, a real
/// one stays, and no space comes between.
pub open spec fn glue(prev: Seq<char>, next: Seq<char>) -> Seq<char> {
    if soft_break(prev.drop_last(), next) {
        prev.drop_last() + next
    } else {
        prev + next
    }
}

/// The text so far with one more line.
pub open spec fn add_line(before: Seq<char>, line: Seq<char>) -> Seq<char> {
    if line.len() == 0 {
        before
    } else if before.len() == 0 {
        line
    } else if before.last() == '-' {
        glue(before, line)
    } else {
        before + seq![' '] + line
    }
}

/// The lines, each trimmed, as one text.
pub open spec fn join_all(lines: Seq<Seq<char>>) -> Seq<char>
    decreases lines.len(),
{
    if lines.len() == 0 {
        seq![]
    } else {
        add_line(join_all(lines.drop_last()), text::trim(lines.last()))
    }
}

/// The lines of one block as one text.
pub open spec fn join_block(block: Seq<char>) -> Seq<char> {
    join_all(text::lines(block))
}

fn glued(prev: &[char], next: &[char]) -> (r: Vec<char>)
    requires
        prev@.len() > 0,
    ensures
        r@ == glue(prev@, next@),
{
    let n: usize = prev.len();
    let soft = n > 1 && is_lower_letter(prev[n - 2]) && next.len() > 0 && is_lower_letter(next[0]);
    let mut out = copied(
        if soft {
            slice_subrange(prev, 0, n - 1)
        } else {
            prev
        },
    );
    proof {
        assert(prev@.subrange(0, n - 1) =~= prev@.drop_last());
    }
    append(&mut out, next);
    out
}

/// Join the visual lines of one block, repairing end-of-line hyphenation.
pub fn join_lines(block: &[char]) -> (r: Vec<char>)
    ensures
        r@ == join_block(block@),
{
    let all = lines_of(block);
    let ghost ls = text::lines(block@);
    let mut out: Vec<char> = Vec::new();
    for i in 0..all.len()
        invariant
            text::spans(all@) == ls,
            out@ == join_all(ls.take(i as int)),
    {
        proof {
            assert(ls.take(i + 1).drop_last() =~= ls.take(i as int));
            assert(ls.take(i + 1).last() == all@[i as int]@);
        }
        let line = trimmed(all[i]);
        if line.len() > 0 {
            if out.len() == 0 {
                out = copied(line);
            } else if out[out.len() - 1] == '-' {
                out = glued(out.as_slice(), line);
            } else {
                out.push(' ');
                append(&mut out, line);
                assert(out@ =~= join_all(ls.take(i as int)) + seq![' '] + line@);
            }
        }
    }
    assert(ls.take(ls.len() as int) =~= ls);
    out
}

/// The class holds all that joining two lines may change.
pub open spec fn holds_seams(cl: CharClass) -> bool {
    forall|c: char| chars::white(c) || c == '-' ==> #[trigger] cl.has(c)
}

/// Joining the lines of a block loses nothing but whitespace and hyphens, and
/// adds and reorders nothing else.
pub proof fn joining_keeps_text(block: Seq<char>)
    ensures
        text::without(join_block(block), CharClass::Seam) == text::without(block, CharClass::Seam),
{
    lemma_join_block(block, CharClass::Seam);
}

pub proof fn lemma_join_block(block: Seq<char>, cl: CharClass)
    requires
        holds_seams(cl),
    ensures
        text::without(join_block(block), cl) == text::without(block, cl),
{
    lemma_join_all(text::lines(block), cl);
    text::lemma_residue_lines(block, cl);
}

proof fn lemma_glue(prev: Seq<char>, next: Seq<char>, cl: CharClass)
    requires
        holds_seams(cl),
        prev.len() > 0,
        prev.last() == '-',
    ensures
        text::without(glue(prev, next), cl) == text::without(prev, cl) + text::without(next, cl),
{
    text::lemma_without_concat(prev, next, cl);
    text::lemma_without_concat(prev.drop_last(), next, cl);
    assert(cl.has('-'));
}

proof fn lemma_join_with_space(a: Seq<char>, b: Seq<char>, cl: CharClass)
    requires
        holds_seams(cl),
    ensures
        text::without(a + seq![' '] + b, cl) == text::without(a, cl) + text::without(b, cl),
{
    text::lemma_without_concat(a, seq![' '], cl);
    text::lemma_without_concat(a + seq![' '], b, cl);
    text::lemma_without_one(' ', cl);
    assert(cl.has(' '));
}

proof fn lemma_join_all(lines: Seq<Seq<char>>, cl: CharClass)
    requires
        holds_seams(cl),
    ensures
        text::without(join_all(lines), cl) == text::residue(lines, cl),
    decreases lines.len(),
{
    if lines.len() > 0 {
        let before = join_all(lines.drop_last());
        let line = text::trim(lines.last());
        lemma_join_all(lines.drop_last(), cl);
        text::lemma_without_trim(lines.last(), cl);
        if line.len() > 0 && before.len() > 0 {
            if before.last() == '-' {
                lemma_glue(before, line, cl);
            } else {
                lemma_join_with_space(before, line, cl);
            }
        }
    }
}

proof fn lemma_lines_free(s: Seq<char>)
    ensures
        forall|i: int|
            0 <= i < text::lines(s).len() ==> text::free(
                #[trigger] text::lines(s)[i],
                CharClass::Newline,
            ),
    decreases s.len(),
{
    let nl = seq!['\n'];
    if s.len() > 0 {
        text::lemma_find(s, nl);
        let first = match text::find(s, nl) {
            Some(i) => text::strip_cr(s.take(i)),
            None => s,
        };
        assert forall|k: int| 0 <= k < first.len() implies !CharClass::Newline.has(
            #[trigger] first[k],
        ) by {
            assert(first[k] == s[k]);
            if s[k] == '\n' {
                assert(s.subrange(k, k + 1) =~= nl);
                assert(text::has_at(s, nl, k));
            }
        }
        if let Some(i) = text::find(s, nl) {
            let rest = text::lines(s.skip(i + 1));
            lemma_lines_free(s.skip(i + 1));
            assert forall|k: int| 0 <= k < text::lines(s).len() implies text::free(
                #[trigger] text::lines(s)[k],
                CharClass::Newline,
            ) by {
                if k > 0 {
                    assert(text::lines(s)[k] == rest[k - 1]);
                }
            }
        }
    }
}

/// No text of the list holds a character of the class.
pub open spec fn all_free(v: Seq<Seq<char>>, cl: CharClass) -> bool {
    forall|i: int| 0 <= i < v.len() ==> text::free(#[trigger] v[i], cl)
}

proof fn lemma_lines_keep_free(s: Seq<char>, cl: CharClass)
    requires
        text::free(s, cl),
    ensures
        all_free(text::lines(s), cl),
    decreases s.len(),
{
    let nl = seq!['\n'];
    if s.len() > 0 {
        text::lemma_find(s, nl);
        let n = s.len() as int;
        if let Some(i) = text::find(s, nl) {
            text::lemma_free_part(s, 0, i, cl);
            text::lemma_free_part(s, i + 1, n, cl);
            let line = s.take(i);
            if line.len() > 0 {
                text::lemma_free_part(line, 0, i - 1, cl);
                assert(line.drop_last() =~= line.take(i - 1));
            }
            lemma_lines_keep_free(s.skip(i + 1), cl);
            let rest = text::lines(s.skip(i + 1));
            assert forall|k: int| 0 <= k < text::lines(s).len() implies text::free(
                #[trigger] text::lines(s)[k],
                cl,
            ) by {
                if k > 0 {
                    assert(text::lines(s)[k] == rest[k - 1]);
                }
            }
        }
    }
}

proof fn lemma_join_all_free(lines: Seq<Seq<char>>, cl: CharClass)
    requires
        all_free(lines, cl),
        !cl.has(' '),
    ensures
        text::free(join_all(lines), cl),
    decreases lines.len(),
{
    if lines.len() > 0 {
        let front = lines.drop_last();
        assert forall|i: int| 0 <= i < front.len() implies text::free(#[trigger] front[i], cl) by {
            assert(front[i] == lines[i]);
        }
        lemma_join_all_free(front, cl);
        let last = lines[lines.len() - 1];
        let (a, b) = text::lemma_trim_inside(last);
        let line = text::trim(last);
        assert forall|k: int| 0 <= k < line.len() implies !cl.has(#[trigger] line[k]) by {
            assert(line[k] == last[k + a]);
        }
        let before = join_all(front);
        let r = join_all(lines);
        assert forall|k: int| 0 <= k < r.len() implies !cl.has(#[trigger] r[k]) by {
            if line.len() > 0 && before.len() > 0 {
                let n = r.len() - line.len();
                if k >= n {
                    assert(r[k] == line[k - n]);
                } else if k < before.len() {
                    assert(r[k] == before[k]);
                }
            }
        }
    }
}

/// A joined block is one line.
pub proof fn joined_block_is_one_line(block: Seq<char>)
    ensures
        text::free(join_block(block), CharClass::Newline),
{
    lemma_lines_free(block);
    lemma_join_all_free(text::lines(block), CharClass::Newline);
}

// ---------- Stitching paragraphs ----------

/// The first character is a lowercase letter.
pub open spec fn starts_lower(p: Seq<char>) -> bool {
    p.len() > 0 && chars::lowercase(p[0])
}

/// The text ends a sentence: its last character but for whitespace is a
/// closing mark.
pub open spec fn ends_sentence(p: Seq<char>) -> bool {
    let t = text::trim_back(p, CharClass::White);
    t.len() > 0 && CharClass::ParagraphEnd.has(t.last())
}

/// The paragraphs so far with one more. It continues the last one after a
/// hyphen, or where the last one ends no sentence and it starts with a
/// lowercase letter.
pub open spec fn add_paragraph(before: Seq<Seq<char>>, p: Seq<char>) -> Seq<Seq<char>> {
    if before.len() == 0 {
        before.push(p)
    } else {
        let prev = before.last();
        if prev.len() > 0 && prev.last() == '-' {
            before.drop_last().push(glue(prev, p))
        } else if !ends_sentence(prev) && starts_lower(p) {
            before.drop_last().push(text::trim_back(prev, CharClass::White) + seq![' '] + p)
        } else {
            before.push(p)
        }
    }
}

/// The paragraphs with those put together that a page break had split.
pub open spec fn stitch(paras: Seq<Seq<char>>) -> Seq<Seq<char>>
    decreases paras.len(),
{
    if paras.len() == 0 {
        seq![]
    } else {
        add_paragraph(stitch(paras.drop_last()), paras.last())
    }
}

/// Stitch paragraphs that were split across page or column breaks.
pub fn stitch_across_breaks(paras: &Vec<Vec<char>>) -> (r: Vec<Vec<char>>)
    ensures
        text::rows(r@) == stitch(text::rows(paras@)),
{
    let ghost ps = text::rows(paras@);
    let mut merged: Vec<Vec<char>> = Vec::new();
    proof {
        assert(ps.take(0) =~= seq![]);
        assert(text::rows(merged@) =~= seq![]);
    }
    for i in 0..paras.len()
        invariant
            ps == text::rows(paras@),
            text::rows(merged@) == stitch(ps.take(i as int)),
    {
        let p: &[char] = paras[i].as_slice();
        let ghost before = text::rows(merged@);
        proof {
            assert(ps.take(i + 1).drop_last() =~= ps.take(i as int));
            assert(ps.take(i + 1).last() == p@);
        }
        let next: Vec<char>;
        match merged.pop() {
            None => {
                next = copied(p);
            },
            Some(prev) => {
                proof {
                    assert(text::rows(merged@) =~= before.drop_last());
                    assert(before.last() == prev@);
                }
                if prev.len() > 0 && prev[prev.len() - 1] == '-' {
                    next = glued(prev.as_slice(), p);
                } else {
                    let lower = p.len() > 0 && is_lower_letter(p[0]);
                    let kept = trimmed_back(prev.as_slice(), CharClass::White);
                    let done = kept.len() > 0 && CharClass::ParagraphEnd.contains(
                        kept[kept.len() - 1],
                    );
                    if !done && lower {
                        let mut whole = copied(kept);
                        whole.push(' ');
                        append(&mut whole, p);
                        assert(whole@ =~= kept@ + seq![' '] + p@);
                        next = whole;
                    } else {
                        merged.push(prev);
                        assert(text::rows(merged@) =~= before);
                        next = copied(p);
                    }
                }
            },
        }
        let ghost rest = merged@;
        merged.push(next);
        proof {
            assert(text::rows(rest.push(next)) =~= text::rows(rest).push(next@));
        }
    }
    assert(ps.take(ps.len() as int) =~= ps);
    merged
}

/// Stitching paragraphs together loses nothing but whitespace and hyphens, and
/// adds and reorders nothing else.
pub proof fn stitching_keeps_text(paras: Seq<Seq<char>>)
    ensures
        text::residue(stitch(paras), CharClass::Seam) == text::residue(paras, CharClass::Seam),
{
    lemma_stitch(paras, CharClass::Seam);
}

pub proof fn lemma_stitch(paras: Seq<Seq<char>>, cl: CharClass)
    requires
        holds_seams(cl),
    ensures
        text::residue(stitch(paras), cl) == text::residue(paras, cl),
    decreases paras.len(),
{
    if paras.len() > 0 {
        let before = stitch(paras.drop_last());
        let p = paras.last();
        lemma_stitch(paras.drop_last(), cl);
        assert(before.push(p).drop_last() =~= before);
        if before.len() > 0 {
            let prev = before.last();
            let kept = text::trim_back(prev, CharClass::White);
            assert forall|x: Seq<char>| #[trigger]
                before.drop_last().push(x).drop_last() == before.drop_last() by {
                assert(before.drop_last().push(x).drop_last() =~= before.drop_last());
            }
            if prev.len() > 0 && prev.last() == '-' {
                lemma_glue(prev, p, cl);
            } else {
                text::lemma_without_trim(prev, cl);
                lemma_join_with_space(kept, p, cl);
            }
        }
    }
}

/// Stitching never makes more paragraphs than there were, and leaves at least
/// one where there was one.
pub proof fn stitching_only_merges(paras: Seq<Seq<char>>)
    ensures
        stitch(paras).len() <= paras.len(),
        paras.len() > 0 ==> stitch(paras).len() > 0,
    decreases paras.len(),
{
    if paras.len() > 0 {
        stitching_only_merges(paras.drop_last());
    }
}

/// The second paragraph would be put together with the first.
pub open spec fn continues(prev: Seq<char>, p: Seq<char>) -> bool {
    ||| prev.len() > 0 && prev.last() == '-'
    ||| !ends_sentence(prev) && starts_lower(p)
}

/// Stitching leaves no two paragraphs that it would put together.
pub proof fn stitching_is_done(paras: Seq<Seq<char>>)
    ensures
        forall|i: int, j: int|
            0 <= i && j == i + 1 && j < stitch(paras).len() ==> !continues(
                #[trigger] stitch(paras)[i],
                #[trigger] stitch(paras)[j],
            ),
    decreases paras.len(),
{
    if paras.len() > 0 {
        stitching_is_done(paras.drop_last());
        let before = stitch(paras.drop_last());
        let p = paras.last();
        let all = stitch(paras);
        let n = all.len() as int;
        if before.len() > 0 && continues(before.last(), p) {
            // What was put together starts as it did before.
            let prev = before.last();
            let k = text::lemma_trim_back_prefix(prev, CharClass::White);
            assert(starts_lower(all[n - 1]) ==> starts_lower(prev)) by {
                if prev.last() != '-' && k == 0 {
                    assert(all[n - 1][0] == ' ');
                }
            }
        }
        assert forall|i: int, j: int| 0 <= i && j == i + 1 && j < n implies !continues(
            #[trigger] all[i],
            #[trigger] all[j],
        ) by {
            assert(all[i] == before[i]);
            if j < before.len() {
                assert(!continues(before[i], before[j]));
            }
        }
    }
}

/// Each text of the list is one line.
pub open spec fn all_lines(v: Seq<Seq<char>>) -> bool {
    forall|i: int| 0 <= i < v.len() ==> text::free(#[trigger] v[i], CharClass::Newline)
}

proof fn lemma_glue_line(prev: Seq<char>, next: Seq<char>, cl: CharClass)
    requires
        prev.len() > 0,
        text::free(prev, cl),
        text::free(next, cl),
    ensures
        text::free(glue(prev, next), cl),
{
    let n = prev.len() as int;
    text::lemma_free_part(prev, 0, n - 1, cl);
    assert(prev.drop_last() =~= prev.take(n - 1));
    text::lemma_free_concat(prev.drop_last(), next, cl);
    text::lemma_free_concat(prev, next, cl);
}

pub proof fn lemma_stitch_free(paras: Seq<Seq<char>>, cl: CharClass)
    requires
        all_free(paras, cl),
        !cl.has(' '),
    ensures
        all_free(stitch(paras), cl),
    decreases paras.len(),
{
    if paras.len() > 0 {
        let front = paras.drop_last();
        assert forall|i: int| 0 <= i < front.len() implies text::free(#[trigger] front[i], cl) by {
            assert(front[i] == paras[i]);
        }
        lemma_stitch_free(front, cl);
        let before = stitch(front);
        let p = paras[paras.len() - 1];
        assert(text::free(p, cl));
        if before.len() > 0 {
            let prev = before[before.len() - 1];
            let kept = text::trim_back(prev, CharClass::White);
            assert(text::free(prev, cl));
            text::lemma_free_trims(prev, CharClass::White, cl);
            if prev.len() > 0 && prev.last() == '-' {
                lemma_glue_line(prev, p, cl);
            }
            assert(text::free(seq![' '], cl));
            text::lemma_free_concat(kept, seq![' '], cl);
            text::lemma_free_concat(kept + seq![' '], p, cl);
        }
        let all = stitch(paras);
        assert forall|i: int| 0 <= i < all.len() implies text::free(#[trigger] all[i], cl) by {
            if i < before.len() && i < all.len() - 1 {
                assert(all[i] == before[i]);
            }
        }
    }
}

/// Where every paragraph is one line, every stitched one is.
pub proof fn stitching_keeps_lines(paras: Seq<Seq<char>>)
    requires
        all_lines(paras),
    ensures
        all_lines(stitch(paras)),
{
    lemma_stitch_free(paras, CharClass::Newline);
}

// ---------- Normalizing one paragraph ----------

/// The Unicode normalization form KC of a text.
pub uninterp spec fn nfkc(s: Seq<char>) -> Seq<char>;

/// `unicode_normalization::UnicodeNormalization::nfkc`: the result depends on
/// the text alone. ASCII characters and the quotation marks and dashes of typeset
/// text neither decompose nor combine with each other, so a text of them is its
/// own normal form. A newline is the decomposition or composition of no other
/// character, so a text without one has a normal form without one.
#[verifier::external_body]
fn to_nfkc(s: &str) -> (r: String)
    ensures
        r@ == nfkc(s@),
        text::all_typeset(s@) ==> r@ == s@,
        text::free(s@, CharClass::Newline) ==> text::free(r@, CharClass::Newline),
{
    s.nfkc().collect()
}

/// The normal form of a text, which a typeset text is itself.
pub open spec fn compatible(s: Seq<char>) -> Seq<char> {
    if text::all_typeset(s) {
        s
    } else {
        nfkc(s)
    }
}

/// A text with no whitespace before punctuation, no run of blanks, and none of
/// either at its ends.
pub open spec fn spaced(s: Seq<char>) -> Seq<char> {
    text::trim(patterns::collapse(patterns::tighten(s)))
}

/// One paragraph in its final form.
pub open spec fn normal(t: Seq<char>) -> Seq<char> {
    spaced(patterns::note_free(compatible(t)))
}

/// Nowhere in the text does a character of one class stand right before one of
/// another.
pub open spec fn never_before(s: Seq<char>, a: CharClass, b: CharClass) -> bool {
    forall|i: int, j: int|
        0 <= i && j == i + 1 && j < s.len() ==> !(a.has(#[trigger] s[i]) && b.has(#[trigger] s[j]))
}

proof fn lemma_collapse(s: Seq<char>)
    ensures
        never_before(patterns::collapse(s), CharClass::Blank, CharClass::Blank),
        never_before(s, CharClass::White, CharClass::TightPunctuation) ==> never_before(
            patterns::collapse(s),
            CharClass::White,
            CharClass::TightPunctuation,
        ),
        s.len() > 0 ==> patterns::collapse(s).len() > 0 && (patterns::collapse(s)[0] == s[0] || (
        CharClass::Blank.has(s[0]) && patterns::collapse(s)[0] == ' ')),
    decreases s.len(),
{
    if s.len() > 0 {
        if s.len() >= 2 && CharClass::Blank.has(s[0]) && CharClass::Blank.has(s[1]) {
            let k = text::lemma_trim_front_suffix(s, CharClass::Blank);
            text::lemma_trim_front_len(s, CharClass::Blank);
            let rest = s.skip(k);
            lemma_collapse(rest);
            let r = patterns::collapse(s);
            assert(r == seq![' '] + patterns::collapse(rest));
            if rest.len() > 0 {
                assert(rest[0] == s[k] && CharClass::Blank.has(s[k - 1]));
                if never_before(s, CharClass::White, CharClass::TightPunctuation) {
                    assert forall|i: int, j: int|
                        0 <= i && j == i + 1 && j < rest.len() implies !(CharClass::White.has(
                        #[trigger] rest[i],
                    ) && CharClass::TightPunctuation.has(#[trigger] rest[j])) by {
                        assert(rest[i] == s[i + k] && rest[j] == s[j + k]);
                    }
                }
            }
        } else {
            let rest = s.skip(1);
            lemma_collapse(rest);
            let r = patterns::collapse(s);
            assert(r == seq![s[0]] + patterns::collapse(rest));
            if rest.len() > 0 {
                assert(rest[0] == s[1]);
                if never_before(s, CharClass::White, CharClass::TightPunctuation) {
                    assert forall|i: int, j: int|
                        0 <= i && j == i + 1 && j < rest.len() implies !(CharClass::White.has(
                        #[trigger] rest[i],
                    ) && CharClass::TightPunctuation.has(#[trigger] rest[j])) by {
                        assert(rest[i] == s[i + 1] && rest[j] == s[j + 1]);
                    }
                }
            }
        }
    }
}

proof fn lemma_tighten(s: Seq<char>)
    ensures
        never_before(patterns::tighten(s), CharClass::White, CharClass::TightPunctuation),
        patterns::tighten(s).len() > 0 && CharClass::TightPunctuation.has(patterns::tighten(s)[0])
            ==> ({
            let next = text::trim_front(s, CharClass::White);
            next.len() > 0 && CharClass::TightPunctuation.has(next[0])
        }),
    decreases s.len(),
{
    if s.len() > 0 {
        lemma_tighten(s.skip(1));
        let next = text::trim_front(s, CharClass::White);
        if CharClass::White.has(s[0]) && next.len() > 0 && CharClass::TightPunctuation.has(next[0]) {
        } else {
            assert(patterns::tighten(s) == seq![s[0]] + patterns::tighten(s.skip(1)));
        }
    }
}

/// In a text whose spacing is right no two blanks stand next to each other, no
/// whitespace stands before a punctuation mark, and none at either end.
pub proof fn spacing_is_right(s: Seq<char>)
    ensures
        never_before(spaced(s), CharClass::Blank, CharClass::Blank),
        never_before(spaced(s), CharClass::White, CharClass::TightPunctuation),
        spaced(s).len() > 0 ==> !chars::white(spaced(s)[0]) && !chars::white(spaced(s).last()),
{
    let t = patterns::tighten(s);
    lemma_tighten(s);
    lemma_collapse(t);
    let c = patterns::collapse(t);
    let (a, b) = text::lemma_trim_inside(c);
    let r = spaced(s);
    assert forall|i: int, j: int| 0 <= i && j == i + 1 && j < r.len() implies !(
    CharClass::Blank.has(#[trigger] r[i]) && CharClass::Blank.has(#[trigger] r[j])) && !(
    CharClass::White.has(r[i]) && CharClass::TightPunctuation.has(r[j])) by {
        assert(r[i] == c[i + a] && r[j] == c[j + a]);
    }
}

pub proof fn lemma_collapse_keeps(s: Seq<char>, cl: CharClass)
    requires
        forall|c: char| chars::white(c) ==> cl.has(c),
    ensures
        text::without(patterns::collapse(s), cl) == text::without(s, cl),
    decreases s.len(),
{
    if s.len() > 0 {
        if s.len() >= 2 && CharClass::Blank.has(s[0]) && CharClass::Blank.has(s[1]) {
            let rest = text::trim_front(s, CharClass::Blank);
            let k = text::lemma_trim_front_suffix(s, CharClass::Blank);
            assert(k > 0);
            lemma_collapse_keeps(rest, cl);
            assert(s =~= s.take(k) + s.skip(k));
            text::lemma_without_concat(s.take(k), s.skip(k), cl);
            lemma_all_out(s.take(k), cl);
            text::lemma_without_concat(seq![' '], patterns::collapse(rest), cl);
            text::lemma_without_one(' ', cl);
            assert(Seq::<char>::empty() + text::without(rest, cl) =~= text::without(rest, cl));
        } else {
            lemma_collapse_keeps(s.skip(1), cl);
            assert(s =~= seq![s[0]] + s.skip(1));
            text::lemma_without_concat(seq![s[0]], s.skip(1), cl);
            text::lemma_without_concat(seq![s[0]], patterns::collapse(s.skip(1)), cl);
        }
    }
}

/// Nothing is left of a text whose characters are all taken out.
proof fn lemma_all_out(s: Seq<char>, cl: CharClass)
    requires
        forall|i: int| 0 <= i < s.len() ==> cl.has(#[trigger] s[i]),
    ensures
        text::without(s, cl) == Seq::<char>::empty(),
    decreases s.len(),
{
    if s.len() > 0 {
        lemma_all_out(s.drop_last(), cl);
        assert(cl.has(s[s.len() - 1]));
    }
}

proof fn lemma_tighten_keeps(s: Seq<char>, cl: CharClass)
    requires
        forall|c: char| chars::white(c) ==> cl.has(c),
    ensures
        text::without(patterns::tighten(s), cl) == text::without(s, cl),
    decreases s.len(),
{
    if s.len() > 0 {
        let rest = patterns::tighten(s.skip(1));
        lemma_tighten_keeps(s.skip(1), cl);
        assert(s =~= seq![s[0]] + s.skip(1));
        text::lemma_without_concat(seq![s[0]], s.skip(1), cl);
        text::lemma_without_concat(seq![s[0]], rest, cl);
        text::lemma_without_one(s[0], cl);
        assert(Seq::<char>::empty() + text::without(rest, cl) =~= text::without(rest, cl));
    }
}

/// Putting the spacing of a text right changes nothing but its whitespace.
pub proof fn spacing_keeps_text(s: Seq<char>, cl: CharClass)
    requires
        forall|c: char| chars::white(c) ==> cl.has(c),
    ensures
        text::without(spaced(s), cl) == text::without(s, cl),
{
    let tight = patterns::tighten(s);
    lemma_tighten_keeps(s, cl);
    lemma_collapse_keeps(tight, cl);
    text::lemma_without_trim(patterns::collapse(tight), cl);
}

proof fn lemma_digits_front(s: Seq<char>, most: nat, i: int)
    requires
        0 <= i < patterns::digits_front(s, most),
    ensures
        i < s.len(),
        chars::ascii_digit(s[i]),
    decreases most,
{
    if i > 0 {
        lemma_digits_front(s.skip(1), (most - 1) as nat, i - 1);
    }
}

/// Of a reference to a footnote only whitespace and digits are dropped.
pub proof fn notes_hold_no_words(s: Seq<char>)
    ensures
        text::without(patterns::without_notes(s), CharClass::Numeral) == text::without(
            s,
            CharClass::Numeral,
        ),
    decreases s.len(),
{
    let cl = CharClass::Numeral;
    if s.len() > 0 {
        match patterns::note_ref(s) {
            Some(e) => {
                let n: int = if s.len() > 1 && chars::white(s[1]) {
                    2
                } else {
                    1
                };
                let digits = s.skip(n);
                lemma_digits_front(digits, 3, e - n - 1);
                let number = s.subrange(1, e);
                assert forall|i: int| 0 <= i < number.len() implies cl.has(#[trigger] number[i]) by {
                    if i + 1 >= n {
                        lemma_digits_front(digits, 3, i + 1 - n);
                        assert(digits[i + 1 - n] == s[i + 1]);
                    }
                }
                lemma_all_out(number, cl);
                let first = seq![s[0]];
                let rest = s.skip(e);
                assert(s =~= first + (number + rest));
                text::lemma_without_concat(first, number + rest, cl);
                text::lemma_without_concat(number, rest, cl);
                assert(Seq::<char>::empty() + text::without(rest, cl) =~= text::without(rest, cl));
                if e < s.len() {
                    let tail = s.skip(e + 1);
                    notes_hold_no_words(tail);
                    let kept = patterns::without_notes(tail);
                    assert(rest =~= seq![s[e]] + tail);
                    text::lemma_without_concat(seq![s[e]], tail, cl);
                    assert(seq![s[0], s[e]] + kept =~= first + (seq![s[e]] + kept));
                    text::lemma_without_concat(first, seq![s[e]] + kept, cl);
                    text::lemma_without_concat(seq![s[e]], kept, cl);
                } else {
                    assert(rest =~= Seq::<char>::empty());
                    assert(text::without(first, cl) + Seq::<char>::empty() =~= text::without(
                        first,
                        cl,
                    ));
                }
            },
            None => {
                notes_hold_no_words(s.skip(1));
                assert(s =~= seq![s[0]] + s.skip(1));
                text::lemma_without_concat(seq![s[0]], s.skip(1), cl);
                text::lemma_without_concat(seq![s[0]], patterns::without_notes(s.skip(1)), cl);
            },
        }
    }
}

/// A text in which nothing reads as a reference to a footnote keeps all of its
/// characters.
pub proof fn other_numbers_stay(s: Seq<char>)
    requires
        forall|i: int| 0 <= i < s.len() ==> patterns::note_ref(#[trigger] s.skip(i)) is None,
    ensures
        patterns::without_notes(s) == s,
    decreases s.len(),
{
    if s.len() > 0 {
        assert(s.skip(0) =~= s);
        assert forall|i: int| 0 <= i < s.skip(1).len() implies patterns::note_ref(
            #[trigger] s.skip(1).skip(i),
        ) is None by {
            assert(s.skip(1).skip(i) =~= s.skip(i + 1));
        }
        other_numbers_stay(s.skip(1));
        assert(s =~= seq![s[0]] + s.skip(1));
    }
}

/// The final form of a paragraph holds every character of its normal form in
/// order, but for whitespace and digits.
pub proof fn normalizing_keeps_words(t: Seq<char>)
    requires
        patterns::plain(compatible(t)),
    ensures
        text::without(normal(t), CharClass::Numeral) == text::without(
            compatible(t),
            CharClass::Numeral,
        ),
{
    notes_hold_no_words(compatible(t));
    spacing_keeps_text(patterns::without_notes(compatible(t)), CharClass::Numeral);
}

/// The normal form of a text.
pub fn compatible_form(t: &[char]) -> (r: Vec<char>)
    ensures
        r@ == compatible(t@),
        text::free(t@, CharClass::Newline) ==> text::free(r@, CharClass::Newline),
{
    let s = to_nfkc(string_of(t).as_str());
    chars_of(s.as_str())
}

/// The text with its spacing put right.
pub fn respaced(s: &[char]) -> (r: Vec<char>)
    ensures
        r@ == spaced(s@),
        text::free(s@, CharClass::Newline) ==> text::free(r@, CharClass::Newline),
{
    let tight = patterns::tightened(s);
    let single = patterns::collapsed(tight.as_slice());
    proof {
        if text::free(s@, CharClass::Newline) {
            text::lemma_free_trims(single@, CharClass::White, CharClass::Newline);
        }
    }
    copied(trimmed(single.as_slice()))
}

/// Bring one paragraph to its final form: ligatures resolved, references to
/// footnotes dropped, spacing put right. One line stays one line.
pub fn normalize(t: &[char]) -> (r: Vec<char>)
    ensures
        r@ == normal(t@),
        text::free(t@, CharClass::Newline) ==> text::free(r@, CharClass::Newline),
{
    let plain = compatible_form(t);
    let bare = patterns::without_note_refs(plain.as_slice());
    respaced(bare.as_slice())
}

// ---------- Whole pages ----------

/// What the patterns for apparatus say of a block.
#[derive(Clone, Copy)]
pub struct Marks {
    /// The block is a bare page number.
    pub folio: bool,
    /// It begins like a list of footnotes.
    pub footnote: bool,
    /// It begins like a bibliography entry.
    pub biblio_start: bool,
    /// It holds publication data.
    pub biblio_signature: bool,
}

/// What the patterns for apparatus say of a text.
pub open spec fn marks(t: Seq<char>) -> Marks {
    Marks {
        folio: patterns::folio(t),
        footnote: patterns::footnote(t),
        biblio_start: patterns::biblio_start(t),
        biblio_signature: patterns::biblio_signed(t),
    }
}

/// A text with these marks is to be narrated: it is not empty, no page number,
/// no footnote, and not both begun like a bibliography entry and signed like
/// one.
pub open spec fn narrated(t: Seq<char>, m: Marks) -> bool {
    &&& t.len() > 0
    &&& !m.folio
    &&& !m.footnote
    &&& !(m.biblio_start && m.biblio_signature)
}

/// One block as one text, without running heads.
pub open spec fn body(block: Seq<char>, heads: Seq<Seq<char>>) -> Seq<char> {
    text::trim(running_heads::strip(join_block(block), heads))
}

/// The bodies of the blocks that are to be narrated.
pub open spec fn bodies(blocks: Seq<Seq<char>>, heads: Seq<Seq<char>>) -> Seq<Seq<char>>
    decreases blocks.len(),
{
    if blocks.len() == 0 {
        seq![]
    } else {
        let t = body(blocks.last(), heads);
        if narrated(t, marks(t)) {
            bodies(blocks.drop_last(), heads).push(t)
        } else {
            bodies(blocks.drop_last(), heads)
        }
    }
}

/// The blocks of the pages, which blank lines separate.
pub open spec fn blocks_in(pages: Seq<Seq<char>>) -> Seq<Seq<char>> {
    text::pooled(pages.map_values(|p: Seq<char>| text::split(p, "\n\n"@)))
}

/// The paragraphs in their final form, without those that are then empty.
pub open spec fn finished(paras: Seq<Seq<char>>) -> Seq<Seq<char>>
    decreases paras.len(),
{
    if paras.len() == 0 {
        seq![]
    } else {
        let p = normal(paras.last());
        if p.len() == 0 {
            finished(paras.drop_last())
        } else {
            finished(paras.drop_last()).push(p)
        }
    }
}

/// The paragraphs of the transcript of some pages.
pub open spec fn paragraphs(pages: Seq<Seq<char>>) -> Seq<Seq<char>> {
    finished(stitch(bodies(blocks_in(pages), running_heads::heads_in(pages))))
}

/// The transcript of some pages: their paragraphs, with blank lines between.
pub open spec fn transcript(pages: Seq<Seq<char>>) -> Seq<char> {
    text::join(paragraphs(pages), "\n\n"@)
}

/// Is a text with these marks to be narrated?
pub fn is_narrated(t: &[char], m: Marks) -> (r: bool)
    ensures
        r == narrated(t@, m),
{
    t.len() > 0 && !m.folio && !m.footnote && !(m.biblio_start && m.biblio_signature)
}

fn marks_of(t: &[char]) -> (r: Marks)
    ensures
        r == marks(t@),
{
    Marks {
        folio: patterns::is_folio(t),
        footnote: patterns::is_footnote(t),
        biblio_start: patterns::is_biblio_start(t),
        biblio_signature: patterns::is_biblio_signed(t),
    }
}

/// The blocks of the pages.
pub fn blocks_of(pages: &Vec<Vec<char>>) -> (r: Vec<Vec<char>>)
    ensures
        text::rows(r@) == blocks_in(text::rows(pages@)),
{
    let gap = chars_of("\n\n");
    proof {
        reveal_strlit("\n\n");
    }
    let ghost f = |p: Seq<char>| text::split(p, "\n\n"@);
    let ghost ps = text::rows(pages@);
    let mut out: Vec<Vec<char>> = Vec::new();
    proof {
        assert(text::rows(out@) =~= seq![]);
        assert(ps.take(0).map_values(f) =~= seq![]);
    }
    for i in 0..pages.len()
        invariant
            gap@ == "\n\n"@,
            gap@.len() > 0,
            f == (|p: Seq<char>| text::split(p, "\n\n"@)),
            ps == text::rows(pages@),
            text::rows(out@) == text::pooled(ps.take(i as int).map_values(f)),
    {
        let parts = split_at_each(pages[i].as_slice(), gap.as_slice());
        let mut blocks = rows_from(&parts);
        let ghost before = text::rows(out@);
        let ghost own = text::rows(blocks@);
        out.append(&mut blocks);
        proof {
            assert(text::rows(out@) =~= before + own);
            let so_far = ps.take(i + 1).map_values(f);
            assert(so_far.drop_last() =~= ps.take(i as int).map_values(f));
            assert(so_far.last() == own);
        }
    }
    assert(ps.take(ps.len() as int) =~= ps);
    out
}

fn bodies_of(blocks: &Vec<Vec<char>>, heads: &Vec<Vec<char>>) -> (r: Vec<Vec<char>>)
    ensures
        text::rows(r@) == bodies(text::rows(blocks@), text::rows(heads@)),
        all_lines(text::rows(r@)),
{
    let ghost bs = text::rows(blocks@);
    let ghost hs = text::rows(heads@);
    let mut out: Vec<Vec<char>> = Vec::new();
    proof {
        assert(text::rows(out@) =~= seq![]);
    }
    for i in 0..blocks.len()
        invariant
            bs == text::rows(blocks@),
            hs == text::rows(heads@),
            text::rows(out@) == bodies(bs.take(i as int), hs),
            all_lines(text::rows(out@)),
    {
        proof {
            assert(bs.take(i + 1).drop_last() =~= bs.take(i as int));
            assert(bs.take(i + 1).last() == blocks@[i as int]@);
        }
        let whole = join_lines(blocks[i].as_slice());
        let bare = strip_running_heads(whole.as_slice(), heads);
        let t = trimmed(bare.as_slice());
        proof {
            joined_block_is_one_line(bs[i as int]);
            text::lemma_free_trims(bare@, CharClass::White, CharClass::Newline);
        }
        if t.len() > 0 && is_narrated(t, marks_of(t)) {
            let kept = copied(t);
            proof {
                assert(text::rows(out@.push(kept)) =~= text::rows(out@).push(kept@));
            }
            out.push(kept);
        }
    }
    assert(bs.take(bs.len() as int) =~= bs);
    out
}

fn finish(paras: &Vec<Vec<char>>) -> (r: Vec<Vec<char>>)
    ensures
        text::rows(r@) == finished(text::rows(paras@)),
        all_lines(text::rows(paras@)) ==> all_lines(text::rows(r@)),
{
    let ghost ps = text::rows(paras@);
    let mut out: Vec<Vec<char>> = Vec::new();
    proof {
        assert(text::rows(out@) =~= seq![]);
    }
    for i in 0..paras.len()
        invariant
            ps == text::rows(paras@),
            text::rows(out@) == finished(ps.take(i as int)),
            all_lines(ps) ==> all_lines(text::rows(out@)),
    {
        proof {
            assert(ps.take(i + 1).drop_last() =~= ps.take(i as int));
            assert(ps.take(i + 1).last() == paras@[i as int]@);
        }
        let p = normalize(paras[i].as_slice());
        if p.len() > 0 {
            proof {
                assert(all_lines(ps) ==> text::free(ps[i as int], CharClass::Newline));
                assert(text::rows(out@.push(p)) =~= text::rows(out@).push(p@));
            }
            out.push(p);
        }
    }
    assert(ps.take(ps.len() as int) =~= ps);
    out
}

/// Clean raw page texts into flowing paragraphs for narration. Each paragraph is
/// one line.
pub fn clean_pages_to_transcript(raw_pages: &[String]) -> (r: String)
    ensures
        r@ == transcript(text::texts(raw_pages@)),
        all_lines(paragraphs(text::texts(raw_pages@))),
{
    let heads = detect_running_heads(raw_pages);
    let pages = rows_of(raw_pages);
    let blocks = blocks_of(&pages);
    let kept = bodies_of(&blocks, &heads);
    let merged = stitch_across_breaks(&kept);
    proof {
        stitching_keeps_lines(text::rows(kept@));
    }
    let paras = finish(&merged);
    let out = joined_rows(&paras, chars_of("\n\n").as_slice());
    string_of(out.as_slice())
}

/// No block of apparatus is narrated: what is stitched into paragraphs is
/// never empty, a page number, a footnote or a bibliography entry.
pub proof fn no_apparatus_is_narrated(
    blocks: Seq<Seq<char>>,
    heads: Seq<Seq<char>>,
    t: Seq<char>,
)
    requires
        bodies(blocks, heads).contains(t),
    ensures
        narrated(t, marks(t)),
    decreases blocks.len(),
{
    if blocks.len() > 0 {
        let front = bodies(blocks.drop_last(), heads);
        let last = body(blocks.last(), heads);
        if t != last || !narrated(last, marks(last)) {
            let i = bodies(blocks, heads).index_of(t);
            assert(front[i] == t);
            no_apparatus_is_narrated(blocks.drop_last(), heads, t);
        }
    }
}

/// Every paragraph of a transcript holds something, and its spacing is right.
pub proof fn paragraphs_are_clean(pages: Seq<Seq<char>>, p: Seq<char>)
    requires
        paragraphs(pages).contains(p),
    ensures
        p.len() > 0,
        !chars::white(p[0]) && !chars::white(p.last()),
        never_before(p, CharClass::Blank, CharClass::Blank),
        never_before(p, CharClass::White, CharClass::TightPunctuation),
{
    lemma_finished(stitch(bodies(blocks_in(pages), running_heads::heads_in(pages))), p);
}

proof fn lemma_finished(paras: Seq<Seq<char>>, p: Seq<char>)
    requires
        finished(paras).contains(p),
    ensures
        p.len() > 0,
        !chars::white(p[0]) && !chars::white(p.last()),
        never_before(p, CharClass::Blank, CharClass::Blank),
        never_before(p, CharClass::White, CharClass::TightPunctuation),
    decreases paras.len(),
{
    if paras.len() > 0 {
        let front = finished(paras.drop_last());
        let last = normal(paras.last());
        if p == last && last.len() > 0 {
            spacing_is_right(patterns::note_free(compatible(paras.last())));
        } else {
            let i = finished(paras).index_of(p);
            assert(front[i] == p);
            lemma_finished(paras.drop_last(), p);
        }
    }
}

// ---------- What cleaning keeps ----------

/// The blocks of two lists are narrated as those of the first and then those of
/// the second.
pub proof fn bodies_of_joined_lists(
    a: Seq<Seq<char>>,
    b: Seq<Seq<char>>,
    heads: Seq<Seq<char>>,
)
    ensures
        bodies(a + b, heads) == bodies(a, heads) + bodies(b, heads),
    decreases b.len(),
{
    if b.len() == 0 {
        assert(a + b =~= a);
        assert(bodies(b, heads) =~= seq![]);
        assert(bodies(a + b, heads) =~= bodies(a, heads) + bodies(b, heads));
    } else {
        bodies_of_joined_lists(a, b.drop_last(), heads);
        assert((a + b).drop_last() =~= a + b.drop_last());
        assert((a + b).last() == b.last());
        assert(bodies(a + b, heads) =~= bodies(a, heads) + bodies(b, heads));
    }
}

/// No block of the text is lost: one that is left with anything, that is no page
/// number and no numbered note, and that does not both open like an entry of a
/// bibliography and hold publication data, is narrated, however long it is. It
/// comes behind what is narrated of the blocks before it and before what is
/// narrated of those behind it.
pub proof fn every_block_of_text_is_narrated(
    blocks: Seq<Seq<char>>,
    heads: Seq<Seq<char>>,
    i: int,
)
    requires
        0 <= i < blocks.len(),
        body(blocks[i], heads).len() > 0,
        !patterns::folio(body(blocks[i], heads)),
        !patterns::footnote(body(blocks[i], heads)),
        !(patterns::biblio_start(body(blocks[i], heads)) && patterns::biblio_signed(
            body(blocks[i], heads),
        )),
    ensures
        bodies(blocks, heads) == bodies(blocks.take(i), heads) + seq![body(blocks[i], heads)]
            + bodies(blocks.skip(i + 1), heads),
        bodies(blocks, heads).contains(body(blocks[i], heads)),
{
    let t = body(blocks[i], heads);
    let one = seq![blocks[i]];
    reveal_with_fuel(bodies, 2);
    assert(one.drop_last() =~= seq![]);
    assert(bodies(one, heads) =~= seq![t]);
    assert(blocks =~= blocks.take(i) + one + blocks.skip(i + 1));
    bodies_of_joined_lists(blocks.take(i), one, heads);
    bodies_of_joined_lists(blocks.take(i) + one, blocks.skip(i + 1), heads);
    let all = bodies(blocks, heads);
    assert(all[bodies(blocks.take(i), heads).len() as int] == t);
}

/// A page number, a numbered note and an entry of a bibliography are not
/// narrated: without their blocks the bodies are the same.
pub proof fn apparatus_is_left_out(blocks: Seq<Seq<char>>, heads: Seq<Seq<char>>, i: int)
    requires
        0 <= i < blocks.len(),
        ({
            let t = body(blocks[i], heads);
            ||| t.len() == 0
            ||| patterns::folio(t)
            ||| patterns::footnote(t)
            ||| patterns::biblio_start(t) && patterns::biblio_signed(t)
        }),
    ensures
        bodies(blocks, heads) == bodies(blocks.remove(i), heads),
{
    let one = seq![blocks[i]];
    reveal_with_fuel(bodies, 2);
    assert(one.drop_last() =~= seq![]);
    assert(bodies(one, heads) =~= seq![]);
    assert(blocks =~= blocks.take(i) + one + blocks.skip(i + 1));
    assert(blocks.remove(i) =~= blocks.take(i) + blocks.skip(i + 1));
    bodies_of_joined_lists(blocks.take(i), one, heads);
    bodies_of_joined_lists(blocks.take(i) + one, blocks.skip(i + 1), heads);
    bodies_of_joined_lists(blocks.take(i), blocks.skip(i + 1), heads);
    assert(bodies(blocks, heads) =~= bodies(blocks.remove(i), heads));
}

/// A block in which no running head occurs loses nothing to one: its body is its
/// lines as one text.
pub proof fn body_is_the_joined_block(block: Seq<char>, heads: Seq<Seq<char>>)
    requires
        patterns::plain(join_block(block)),
        forall|i: int|
            0 <= i < heads.len() ==> !text::contains(join_block(block), #[trigger] heads[i]),
    ensures
        body(block, heads) == text::trim(join_block(block)),
{
    running_heads::blocks_without_heads_stay(join_block(block), heads);
}

/// Splitting pages into blocks loses nothing but whitespace.
pub proof fn blocks_keep_text(pages: Seq<Seq<char>>, cl: CharClass)
    requires
        forall|c: char| chars::white(c) ==> cl.has(c),
    ensures
        text::residue(blocks_in(pages), cl) == text::residue(pages, cl),
    decreases pages.len(),
{
    let f = |p: Seq<char>| text::split(p, "\n\n"@);
    if pages.len() == 0 {
        assert(pages.map_values(f) =~= seq![]);
        assert(blocks_in(pages) =~= seq![]);
    } else {
        let front = pages.drop_last();
        let last = pages.last();
        blocks_keep_text(front, cl);
        assert(pages.map_values(f).drop_last() =~= front.map_values(f));
        assert(pages.map_values(f).last() == text::split(last, "\n\n"@));
        text::lemma_residue_concat(blocks_in(front), text::split(last, "\n\n"@), cl);
        lemma_gap(cl);
        text::lemma_join_split(last, "\n\n"@);
        text::lemma_residue_join(text::split(last, "\n\n"@), "\n\n"@, cl);
    }
}

pub proof fn lemma_gap(cl: CharClass)
    requires
        forall|c: char| chars::white(c) ==> cl.has(c),
    ensures
        text::without("\n\n"@, cl).len() == 0,
{
    reveal_strlit("\n\n");
    assert(chars::white('\n'));
    assert(forall|i: int| 0 <= i < "\n\n"@.len() ==> "\n\n"@[i] == '\n');
    lemma_all_out("\n\n"@, cl);
}

pub proof fn lemma_blocks_free(pages: Seq<Seq<char>>, cl: CharClass)
    requires
        all_free(pages, cl),
    ensures
        all_free(blocks_in(pages), cl),
    decreases pages.len(),
{
    let f = |p: Seq<char>| text::split(p, "\n\n"@);
    if pages.len() == 0 {
        assert(pages.map_values(f) =~= seq![]);
    } else {
        let front = pages.drop_last();
        let last = pages[pages.len() - 1];
        assert forall|i: int| 0 <= i < front.len() implies text::free(#[trigger] front[i], cl) by {
            assert(front[i] == pages[i]);
        }
        lemma_blocks_free(front, cl);
        assert(pages.map_values(f).drop_last() =~= front.map_values(f));
        assert(text::free(last, cl));
        text::lemma_split_free(last, "\n\n"@, cl);
        let a = blocks_in(front);
        let b = text::split(last, "\n\n"@);
        assert(blocks_in(pages) == a + b);
        assert forall|i: int| 0 <= i < (a + b).len() implies text::free(
            #[trigger] (a + b)[i],
            cl,
        ) by {
            if i < a.len() {
                assert((a + b)[i] == a[i]);
            } else {
                assert((a + b)[i] == b[i - a.len()]);
            }
        }
    }
}

/// The block is blank, or it is text: no running head occurs in it, and its
/// lines as one text are no page number, no numbered note, and do not both open
/// like an entry of a bibliography and hold publication data.
pub open spec fn text_or_blank(block: Seq<char>, heads: Seq<Seq<char>>) -> bool {
    let t = text::trim(join_block(block));
    &&& forall|i: int|
        0 <= i < heads.len() ==> !text::contains(join_block(block), #[trigger] heads[i])
    &&& t.len() > 0 ==> !patterns::folio(t) && !patterns::footnote(t) && !(patterns::biblio_start(
        t,
    ) && patterns::biblio_signed(t))
}

pub proof fn lemma_foreign(s: Seq<char>)
    ensures
        text::free(s, CharClass::Foreign) <==> text::all_typeset(s),
{
    if text::free(s, CharClass::Foreign) {
        assert forall|i: int| 0 <= i < s.len() implies chars::typeset(#[trigger] s[i]) by {
            assert(!CharClass::Foreign.has(s[i]));
        }
    }
}

pub proof fn lemma_joined_typeset(block: Seq<char>)
    requires
        text::free(block, CharClass::Foreign),
    ensures
        text::free(join_block(block), CharClass::Foreign),
        text::free(text::trim(join_block(block)), CharClass::Foreign),
        patterns::plain(join_block(block)),
{
    lemma_lines_keep_free(block, CharClass::Foreign);
    lemma_join_all_free(text::lines(block), CharClass::Foreign);
    lemma_foreign(join_block(block));
    patterns::lemma_typeset_is_plain(join_block(block));
    text::lemma_free_trims(join_block(block), CharClass::White, CharClass::Foreign);
}

proof fn lemma_bodies_keep(blocks: Seq<Seq<char>>, heads: Seq<Seq<char>>, cl: CharClass)
    requires
        holds_seams(cl),
        all_free(blocks, CharClass::Foreign),
        forall|i: int| 0 <= i < blocks.len() ==> text_or_blank(#[trigger] blocks[i], heads),
    ensures
        text::residue(bodies(blocks, heads), cl) == text::residue(blocks, cl),
        all_free(bodies(blocks, heads), CharClass::Foreign),
    decreases blocks.len(),
{
    if blocks.len() > 0 {
        let front = blocks.drop_last();
        let last = blocks[blocks.len() - 1];
        assert forall|i: int| 0 <= i < front.len() implies text::free(
            #[trigger] front[i],
            CharClass::Foreign,
        ) && text_or_blank(front[i], heads) by {
            assert(front[i] == blocks[i]);
        }
        lemma_bodies_keep(front, heads, cl);
        assert(text::free(last, CharClass::Foreign) && text_or_blank(last, heads));
        lemma_joined_typeset(last);
        body_is_the_joined_block(last, heads);
        let t = body(last, heads);
        lemma_join_block(last, cl);
        text::lemma_without_trim(join_block(last), cl);
        if t.len() == 0 {
            assert(text::without(t, cl) =~= seq![]);
            assert(text::residue(blocks, cl) =~= text::residue(front, cl));
        } else {
            assert(bodies(blocks, heads).drop_last() =~= bodies(front, heads));
            assert(bodies(blocks, heads).last() == t);
        }
    }
}

proof fn lemma_finished_keeps(paras: Seq<Seq<char>>)
    requires
        all_free(paras, CharClass::Foreign),
    ensures
        text::residue(finished(paras), CharClass::Loose) == text::residue(paras, CharClass::Loose),
    decreases paras.len(),
{
    let cl = CharClass::Loose;
    if paras.len() > 0 {
        let front = paras.drop_last();
        let last = paras[paras.len() - 1];
        assert forall|i: int| 0 <= i < front.len() implies text::free(
            #[trigger] front[i],
            CharClass::Foreign,
        ) by {
            assert(front[i] == paras[i]);
        }
        lemma_finished_keeps(front);
        assert(text::free(last, CharClass::Foreign));
        lemma_foreign(last);
        patterns::lemma_typeset_is_plain(last);
        let p = normal(last);
        normalizing_keeps_words(last);
        text::lemma_without_twice(p, CharClass::Numeral, cl);
        text::lemma_without_twice(last, CharClass::Numeral, cl);
        if p.len() == 0 {
            assert(text::without(p, cl) =~= seq![]);
            assert(text::residue(paras, cl) =~= text::residue(front, cl));
        } else {
            assert(finished(paras).drop_last() =~= finished(front));
            assert(finished(paras).last() == p);
        }
    }
}

/// Cleaning loses no text: where every block of the pages is text or blank, the
/// transcript holds all the characters of the pages in order, but for
/// whitespace, hyphens and digits, and holds no others.
pub proof fn cleaning_keeps_text(pages: Seq<Seq<char>>)
    requires
        forall|i: int| 0 <= i < pages.len() ==> text::all_typeset(#[trigger] pages[i]),
        forall|i: int|
            0 <= i < blocks_in(pages).len() ==> text_or_blank(
                #[trigger] blocks_in(pages)[i],
                running_heads::heads_in(pages),
            ),
    ensures
        text::without(transcript(pages), CharClass::Loose) == text::residue(
            pages,
            CharClass::Loose,
        ),
{
    let cl = CharClass::Loose;
    let heads = running_heads::heads_in(pages);
    assert forall|i: int| 0 <= i < pages.len() implies text::free(
        #[trigger] pages[i],
        CharClass::Foreign,
    ) by {
        lemma_foreign(pages[i]);
    }
    let blocks = blocks_in(pages);
    let kept = bodies(blocks, heads);
    lemma_blocks_free(pages, CharClass::Foreign);
    blocks_keep_text(pages, cl);
    lemma_bodies_keep(blocks, heads, cl);
    lemma_stitch(kept, cl);
    lemma_stitch_free(kept, CharClass::Foreign);
    lemma_finished_keeps(stitch(kept));
    lemma_gap(cl);
    text::lemma_residue_join(paragraphs(pages), "\n\n"@, cl);
}

/// One line more goes behind the others with a space; after a hyphen without;
/// and a hyphen between two small letters goes.
pub proof fn lines_are_joined_by_spaces(lines: Seq<Seq<char>>, line: Seq<char>)
    requires
        line.len() > 0,
        text::trim(line) == line,
    ensures
        join_all(seq![line]) == line,
        join_all(lines).len() > 0 && join_all(lines).last() != '-' ==> join_all(lines.push(line))
            == join_all(lines) + " "@ + line,
        forall|before: Seq<char>|
            #![trigger before.push('-')]
            join_all(lines) == before.push('-') ==> {
                &&& before.len() > 0 && 'a' <= before.last() <= 'z' && 'a' <= line[0] <= 'z'
                    ==> join_all(lines.push(line)) == before + line
                &&& 'A' <= line[0] <= 'Z' || '0' <= line[0] <= '9' ==> join_all(lines.push(line))
                    == before.push('-') + line
            },
        join_all(lines.push(seq![])) == join_all(lines),
{
    reveal_strlit(" ");
    assert(" "@ =~= seq![' ']);
    assert(lines.push(line).drop_last() =~= lines);
    assert(lines.push(seq![]).drop_last() =~= lines);
    assert(seq![line].drop_last() =~= seq![]);
    reveal_with_fuel(join_all, 2);
    text::lemma_trim_blank(seq![]);
    assert forall|before: Seq<char>|
        #![trigger before.push('-')]
        join_all(lines) == before.push('-') implies {
        &&& before.len() > 0 && 'a' <= before.last() <= 'z' && 'a' <= line[0] <= 'z' ==> join_all(
            lines.push(line),
        ) == before + line
        &&& 'A' <= line[0] <= 'Z' || '0' <= line[0] <= '9' ==> join_all(lines.push(line))
            == before.push('-') + line
    } by {
        assert(before.push('-').drop_last() =~= before);
        assert(join_all(lines).last() == '-');
    }
}

/// Paragraphs that are complete, each from a capital letter to a period, stay as
/// they are.
pub proof fn complete_paragraphs_stay(paras: Seq<Seq<char>>)
    requires
        forall|i: int|
            0 <= i < paras.len() ==> (#[trigger] paras[i]).len() > 0 && 'A' <= paras[i][0] <= 'Z'
                && (paras[i].last() == '.' || paras[i].last() == '?' || paras[i].last() == '!'
                || paras[i].last() == '"' || paras[i].last() == '”'),
    ensures
        stitch(paras) == paras,
    decreases paras.len(),
{
    if paras.len() > 0 {
        let front = paras.drop_last();
        assert forall|i: int| 0 <= i < front.len() implies (#[trigger] front[i]) == paras[i] by {}
        complete_paragraphs_stay(front);
        let p = paras[paras.len() - 1];
        assert(p == paras.last());
        if front.len() > 0 {
            let prev = front[front.len() - 1];
            assert(prev == paras[front.len() - 1]);
            assert(front.last() == prev);
        }
        assert(stitch(paras) =~= front.push(p));
        assert(paras =~= front.push(p));
    }
}

/// A paragraph that breaks off behind a letter or a comma goes on with the next
/// one, if that starts with a small letter; where it breaks off behind a hyphen
/// in a word, the word is put together.
pub proof fn broken_paragraphs_are_put_together(paras: Seq<Seq<char>>, p: Seq<char>)
    requires
        stitch(paras).len() > 0,
        p.len() > 0,
        'a' <= p[0] <= 'z',
    ensures
        ({
            let before = stitch(paras);
            let prev = before.last();
            let after = stitch(paras.push(p));
            &&& prev.len() > 0 && ('a' <= prev.last() <= 'z' || prev.last() == ',') ==> after
                == before.drop_last().push(prev + " "@ + p)
            &&& prev.len() > 1 && prev.last() == '-' && 'a' <= prev[prev.len() - 2] <= 'z' ==> after
                == before.drop_last().push(prev.drop_last() + p)
        }),
{
    reveal_strlit(" ");
    assert(" "@ =~= seq![' ']);
    assert(paras.push(p).drop_last() =~= paras);
    let prev = stitch(paras).last();
    if prev.len() > 1 {
        assert(prev.drop_last().last() == prev[prev.len() - 2]);
    }
}

proof fn lemma_tight_stays(s: Seq<char>)
    requires
        never_before(s, CharClass::White, CharClass::TightPunctuation),
    ensures
        patterns::tighten(s) == s,
    decreases s.len(),
{
    if s.len() > 0 {
        let rest = s.skip(1);
        assert forall|i: int, j: int| 0 <= i && j == i + 1 && j < rest.len() implies !(
        CharClass::White.has(#[trigger] rest[i]) && CharClass::TightPunctuation.has(
            #[trigger] rest[j],
        )) by {
            assert(rest[i] == s[i + 1] && rest[j] == s[j + 1]);
        }
        lemma_tight_stays(rest);
        let k = text::lemma_trim_front_suffix(s, CharClass::White);
        let next = text::trim_front(s, CharClass::White);
        if CharClass::White.has(s[0]) && next.len() > 0 {
            assert(CharClass::White.has(s[k - 1]));
            assert(next[0] == s[k]);
        }
        assert(seq![s[0]] + rest =~= s);
    }
}

proof fn lemma_single_stays(s: Seq<char>)
    requires
        never_before(s, CharClass::Blank, CharClass::Blank),
    ensures
        patterns::collapse(s) == s,
    decreases s.len(),
{
    if s.len() > 0 {
        let rest = s.skip(1);
        assert forall|i: int, j: int| 0 <= i && j == i + 1 && j < rest.len() implies !(
        CharClass::Blank.has(#[trigger] rest[i]) && CharClass::Blank.has(#[trigger] rest[j])) by {
            assert(rest[i] == s[i + 1] && rest[j] == s[j + 1]);
        }
        lemma_single_stays(rest);
        if s.len() >= 2 {
            assert(!(CharClass::Blank.has(s[0]) && CharClass::Blank.has(s[1])));
        }
        assert(seq![s[0]] + rest =~= s);
    }
}

/// A text whose spacing is right stays as it is.
pub proof fn right_spacing_stays(s: Seq<char>)
    requires
        never_before(s, CharClass::Blank, CharClass::Blank),
        never_before(s, CharClass::White, CharClass::TightPunctuation),
        s.len() > 0 ==> !chars::white(s[0]) && !chars::white(s.last()),
    ensures
        spaced(s) == s,
{
    lemma_tight_stays(s);
    lemma_single_stays(s);
    assert(text::trim(s) == s);
}

/// A typeset paragraph whose spacing is right and that holds no reference to a
/// footnote is final.
pub proof fn finished_paragraph_stays(t: Seq<char>)
    requires
        text::all_typeset(t),
        never_before(t, CharClass::Blank, CharClass::Blank),
        never_before(t, CharClass::White, CharClass::TightPunctuation),
        t.len() > 0 ==> !chars::white(t[0]) && !chars::white(t.last()),
        forall|i: int| 0 <= i < t.len() ==> patterns::note_ref(#[trigger] t.skip(i)) is None,
    ensures
        normal(t) == t,
{
    patterns::lemma_typeset_is_plain(t);
    other_numbers_stay(t);
    right_spacing_stays(t);
}

/// A paragraph that cleaning has nothing to do with: one line of typeset text,
/// from a capital letter to a period, spaced right, without a reference to a
/// footnote and without publication data.
pub open spec fn clean_paragraph(p: Seq<char>) -> bool {
    &&& p.len() > 0
    &&& 'A' <= p[0] <= 'Z'
    &&& p.last() == '.' || p.last() == '?' || p.last() == '!'
    &&& text::all_typeset(p)
    &&& text::free(p, CharClass::Newline)
    &&& never_before(p, CharClass::Blank, CharClass::Blank)
    &&& never_before(p, CharClass::White, CharClass::TightPunctuation)
    &&& forall|i: int| 0 <= i < p.len() ==> patterns::note_ref(#[trigger] p.skip(i)) is None
    &&& !patterns::biblio_signed(p)
}

proof fn lemma_clean_bodies(paras: Seq<Seq<char>>)
    requires
        forall|i: int| 0 <= i < paras.len() ==> clean_paragraph(#[trigger] paras[i]),
    ensures
        bodies(paras, seq![]) == paras,
        finished(paras) == paras,
    decreases paras.len(),
{
    if paras.len() > 0 {
        let front = paras.drop_last();
        let p = paras[paras.len() - 1];
        assert forall|i: int| 0 <= i < front.len() implies clean_paragraph(#[trigger] front[i]) by {
            assert(front[i] == paras[i]);
        }
        lemma_clean_bodies(front);
        assert(clean_paragraph(p) && p == paras.last());
        text::text_without_newline_is_one_line(p);
        assert(text::trim(p) == p);
        assert(seq![p].drop_last() =~= seq![]);
        reveal_with_fuel(join_all, 2);
        assert(join_block(p) == p);
        assert(body(p, seq![]) == p);
        patterns::words_are_no_numbers(p);
        finished_paragraph_stays(p);
        assert(paras =~= front.push(p));
    }
}

proof fn lemma_split_joined(paras: Seq<Seq<char>>)
    requires
        paras.len() > 0,
        forall|i: int|
            0 <= i < paras.len() ==> (#[trigger] paras[i]).len() > 0 && text::free(
                paras[i],
                CharClass::Newline,
            ),
    ensures
        text::split(text::join(paras, "\n\n"@), "\n\n"@) == paras,
    decreases paras.len(),
{
    let gap = "\n\n"@;
    reveal_strlit("\n\n");
    let first = paras[0];
    let rest = paras.skip(1);
    let s = text::join(paras, gap);
    let n = first.len() as int;
    assert(paras =~= seq![first] + rest);
    text::lemma_join_front(first, rest, gap);
    text::lemma_find(s, gap);
    assert(text::free(first, CharClass::Newline));
    if let Some(k) = text::find(s, gap) {
        assert(text::has_at(s, gap, k));
        assert(s.subrange(k, k + 2)[0] == s[k]);
        if k < n {
            assert(s[k] == first[k]);
            assert(!CharClass::Newline.has(first[k]));
        }
    }
    if rest.len() == 0 {
        assert(s =~= first);
        assert(paras =~= seq![first]);
    } else {
        assert forall|i: int| 0 <= i < rest.len() implies (#[trigger] rest[i]).len() > 0
            && text::free(rest[i], CharClass::Newline) by {
            assert(rest[i] == paras[i + 1]);
        }
        lemma_split_joined(rest);
        let more = text::join(rest, gap);
        assert(s =~= first + gap + more);
        assert(s.subrange(n, n + 2) =~= gap);
        assert(text::has_at(s, gap, n));
        let k = text::find(s, gap)->0;
        assert(k == n);
        assert(s.take(n) =~= first);
        assert(s.skip(n + 2) =~= more);
    }
}

/// Cleaning changes nothing where there is nothing to clean: a page of clean
/// paragraphs, with blank lines between them, is its own transcript.
pub proof fn clean_page_stays(paras: Seq<Seq<char>>)
    requires
        paras.len() > 0,
        forall|i: int| 0 <= i < paras.len() ==> clean_paragraph(#[trigger] paras[i]),
    ensures
        transcript(seq![text::join(paras, "\n\n"@)]) == text::join(paras, "\n\n"@),
{
    let page = text::join(paras, "\n\n"@);
    let pages = seq![page];
    let f = |p: Seq<char>| text::split(p, "\n\n"@);
    lemma_split_joined(paras);
    let lists = pages.map_values(f);
    assert(lists =~= seq![paras]);
    assert(lists.drop_last() =~= seq![]);
    reveal_with_fuel(text::pooled, 2);
    assert(blocks_in(pages) =~= paras);
    running_heads::few_pages_have_no_heads(pages);
    assert(running_heads::heads_in(pages) =~= seq![]);
    lemma_clean_bodies(paras);
    complete_paragraphs_stay(paras);
}

/// A paragraph that ends a sentence stays apart from the next one, whatever that
/// starts with; and so does any that starts with a capital letter or a digit,
/// but behind a hyphen.
pub proof fn ended_paragraphs_stay_apart(paras: Seq<Seq<char>>, p: Seq<char>)
    requires
        stitch(paras).len() > 0,
        ({
            let prev = stitch(paras).last();
            ||| prev.len() > 0 && ".!?:”\"’')]"@.contains(prev.last())
            ||| p.len() > 0 && ('A' <= p[0] <= 'Z' || '0' <= p[0] <= '9') && !(prev.len() > 0
                && prev.last() == '-')
        }),
    ensures
        stitch(paras.push(p)) == stitch(paras).push(p),
{
    assert(paras.push(p).drop_last() =~= paras);
    let prev = stitch(paras).last();
    if prev.len() > 0 && ".!?:”\"’')]"@.contains(prev.last()) {
        chars::classes_are_spelled_out(prev.last());
    }
}

} // verus!
