//! Phonemes: what the phoneme server is sent, and how its answers are shaped
//! for the speech model.
use crate::chars;
use crate::chars::{is_letter_or_digit, CharClass};
use crate::error::{AppError, AppResult};
use crate::sentences;
use crate::sentences::split_sentences;
use crate::text;
use crate::text::{
    append, chars_of, copied, is_at, lowered, removed, replaced, split_at_each, squeezed,
    string_of, strings_of, swapped, trimmed, trimmed_back, trimmed_front,
};
use vstd::prelude::*;
use vstd::slice::slice_subrange;

verus! {

/// How many phoneme characters one chunk may hold, safely under the limit of
/// the speech model.
pub const MAX_PHONEME_CHARS: usize = 480;

// ---------- Cleaning phonemes ----------

/// The text without its periods, but for those behind which only whitespace
/// comes.
pub open spec fn drop_inner_periods(s: Seq<char>) -> Seq<char>
    decreases s.len(),
{
    if s.len() == 0 {
        s
    } else if s[0] == '.' && text::trim_front(s.skip(1), CharClass::White).len() > 0 {
        drop_inner_periods(s.skip(1))
    } else {
        seq![s[0]] + drop_inner_periods(s.skip(1))
    }
}

/// One line of phonemes without joiners, doubled spaces and inner periods.
pub open spec fn clean(ipa: Seq<char>) -> Seq<char> {
    text::squeeze(drop_inner_periods(text::squeeze(text::without(ipa, CharClass::Joiner))))
}

fn without_inner_periods(s: &[char]) -> (r: Vec<char>)
    ensures
        r@ == drop_inner_periods(s@),
{
    let n: usize = s.len();
    let mut out: Vec<char> = Vec::new();
    proof {
        assert(s@.skip(0) =~= s@);
        assert(out@ + drop_inner_periods(s@) =~= drop_inner_periods(s@));
    }
    for i in 0..n
        invariant
            n == s@.len(),
            drop_inner_periods(s@) == out@ + drop_inner_periods(s@.skip(i as int)),
    {
        let c = s[i];
        proof {
            assert(s@.skip(i as int)[0] == c);
            assert(s@.skip(i as int).skip(1) =~= s@.skip(i + 1));
            assert(s@.subrange(i + 1, n as int) =~= s@.skip(i + 1));
            let rest = drop_inner_periods(s@.skip(i + 1));
            assert(out@ + (seq![c] + rest) =~= out@.push(c) + rest);
        }
        if !(c == '.' && trimmed_front(slice_subrange(s, i + 1, n), CharClass::White).len() > 0) {
            out.push(c);
        }
    }
    proof {
        assert(s@.skip(n as int) =~= seq![]);
        assert(out@ + Seq::<char>::empty() =~= out@);
    }
    out
}

/// Clean one line of phonemes: joiners stripped, whitespace collapsed, and the
/// periods inside it removed.
pub fn clean_phonemes(ipa: &str) -> (r: String)
    ensures
        r@ == clean(ipa@),
{
    let bare = removed(chars_of(ipa).as_slice(), CharClass::Joiner);
    let tight = squeezed(bare.as_slice());
    let kept = without_inner_periods(tight.as_slice());
    string_of(squeezed(kept.as_slice()).as_slice())
}

// ---------- Overrides ----------

/// A word stands in the text, with no letter or digit next to it.
pub open spec fn has_word(s: Seq<char>, w: Seq<char>) -> bool {
    exists|i: int| #[trigger] word_at(s, w, i)
}

/// A word stands at `i`, with no letter or digit next to it.
pub open spec fn word_at(s: Seq<char>, w: Seq<char>, i: int) -> bool {
    &&& text::has_at(s, w, i)
    &&& i == 0 || !chars::alphanumeric(s[i - 1])
    &&& i + w.len() == s.len() || !chars::alphanumeric(s[i + w.len()])
}

/// The phonemes with the spelled-out form of "est" replaced, where the source
/// holds that word.
pub open spec fn overridden(source: Seq<char>, phonemes: Seq<char>) -> Seq<char> {
    if has_word(text::lower(source), "est"@) {
        text::replace(phonemes, "ˌiːˌɛstˈiː"@, "ˈɛst"@)
    } else {
        phonemes
    }
}

fn holds_word(s: &[char], w: &[char]) -> (r: bool)
    ensures
        r == has_word(s@, w@),
{
    let n: usize = s.len();
    let m: usize = w.len();
    if m > n {
        proof {
            assert forall|i: int| !#[trigger] word_at(s@, w@, i) by {}
        }
        return false;
    }
    let most: usize = n - m;
    let mut i: usize = 0;
    loop
        invariant
            n == s@.len(),
            m == w@.len(),
            m <= n,
            most == n - m,
            i <= most,
            forall|j: int| 0 <= j < i ==> !#[trigger] word_at(s@, w@, j),
        decreases most - i,
    {
        if is_at(s, w, i) && (i == 0 || !is_letter_or_digit(s[i - 1])) && (i + m == n
            || !is_letter_or_digit(s[i + m])) {
            assert(word_at(s@, w@, i as int));
            return true;
        }
        if i == most {
            proof {
                assert forall|j: int| !#[trigger] word_at(s@, w@, j) by {}
            }
            return false;
        }
        i = i + 1;
    }
}

/// Apply the pronunciation overrides: the server spells "est" out letter by
/// letter, and where the source holds that word it is put right.
pub fn apply_overrides(source: &str, phonemes: &str) -> (r: String)
    ensures
        r@ == overridden(source@, phonemes@),
{
    let lower = lowered(chars_of(source).as_slice());
    if holds_word(lower.as_slice(), chars_of("est").as_slice()) {
        let from = chars_of("ˌiːˌɛstˈiː");
        proof {
            reveal_strlit("ˌiːˌɛstˈiː");
        }
        let all = chars_of(phonemes);
        string_of(
            replaced(all.as_slice(), from.as_slice(), chars_of("ˈɛst").as_slice()).as_slice(),
        )
    } else {
        phonemes.to_owned()
    }
}

// ---------- Capping the length ----------

/// The pieces that are closed, and the one that is still open.
pub struct Filling {
    pub closed: Seq<Seq<char>>,
    pub open: Seq<char>,
}

/// A text cut into pieces of `max` characters, the last of which may be
/// shorter.
pub open spec fn cut(w: Seq<char>, max: int) -> Seq<Seq<char>>
    decreases w.len(),
{
    if w.len() == 0 || max <= 0 {
        seq![]
    } else if w.len() <= max {
        seq![w]
    } else {
        seq![w.take(max)] + cut(w.skip(max), max)
    }
}

/// The open piece closed, if it holds anything.
pub open spec fn close(f: Filling) -> Filling {
    if f.open.len() == 0 {
        f
    } else {
        Filling { closed: f.closed.push(f.open), open: seq![] }
    }
}

/// One more word. It goes into the open piece if that stays within the limit,
/// and else opens the next one; a word over the limit is cut.
pub open spec fn fill(before: Filling, word: Seq<char>, max: int) -> Filling {
    if word.len() > max {
        Filling { closed: close(before).closed + cut(word, max), open: seq![] }
    } else if before.open.len() == 0 {
        Filling { closed: before.closed, open: word }
    } else if before.open.len() + 1 + word.len() > max {
        Filling { closed: before.closed.push(before.open), open: word }
    } else {
        Filling { closed: before.closed, open: before.open + seq![' '] + word }
    }
}

pub open spec fn filling(words: Seq<Seq<char>>, max: int) -> Filling
    decreases words.len(),
{
    if words.len() == 0 {
        Filling { closed: seq![], open: seq![] }
    } else {
        fill(filling(words.drop_last(), max), words.last(), max)
    }
}

/// The phonemes in pieces of at most `max` characters.
pub open spec fn capped(s: Seq<char>, max: int) -> Seq<Seq<char>> {
    if s.len() <= max {
        seq![s]
    } else {
        close(filling(text::split(s, seq![' ']), max)).closed
    }
}

fn push_cut(out: &mut Vec<Vec<char>>, word: &[char], max: usize)
    requires
        max > 0,
    ensures
        text::rows(final(out)@) == text::rows(old(out)@) + cut(word@, max as int),
{
    let n: usize = word.len();
    let ghost start = text::rows(out@);
    let mut i: usize = 0;
    proof {
        assert(word@.skip(0) =~= word@);
    }
    while i < n
        invariant
            n == word@.len(),
            max > 0,
            i <= n,
            start + cut(word@, max as int) == text::rows(out@) + cut(
                word@.skip(i as int),
                max as int,
            ),
        decreases n - i,
    {
        let end: usize = if n - i <= max {
            n
        } else {
            i + max
        };
        let part = copied(slice_subrange(word, i, end));
        proof {
            let t = word@.skip(i as int);
            let rest = cut(word@.skip(end as int), max as int);
            if n - i <= max {
                assert(part@ =~= t);
                assert(word@.skip(end as int) =~= seq![]);
                assert(cut(t, max as int) =~= seq![part@] + rest);
            } else {
                assert(part@ =~= t.take(max as int));
                assert(t.skip(max as int) =~= word@.skip(end as int));
            }
            assert(text::rows(out@.push(part)) =~= text::rows(out@).push(part@));
            assert(text::rows(out@) + (seq![part@] + rest) =~= text::rows(out@).push(part@) + rest);
        }
        out.push(part);
        i = end;
    }
    proof {
        assert(word@.skip(n as int) =~= seq![]);
        assert(text::rows(out@) + Seq::<Seq<char>>::empty() =~= text::rows(out@));
    }
}

/// The text holds nothing but spaces.
pub open spec fn only_spaces(s: Seq<char>) -> bool {
    forall|i: int| 0 <= i < s.len() ==> #[trigger] s[i] == ' '
}

proof fn lemma_only_spaces(s: Seq<char>)
    requires
        only_spaces(s),
    ensures
        forall|i: int|
            0 <= i < text::split(s, seq![' ']).len() ==> (#[trigger] text::split(
                s,
                seq![' '],
            )[i]).len() == 0,
    decreases s.len(),
{
    let space = seq![' '];
    if s.len() > 0 {
        assert(s.subrange(0, 1) =~= space);
        assert(text::has_at(s, space, 0));
        lemma_only_spaces(s.skip(1));
        let rest = text::split(s.skip(1), space);
        assert(text::split(s, space) == seq![s.take(0)] + rest);
        assert forall|i: int| 0 <= i < (seq![s.take(0)] + rest).len() implies (#[trigger] (seq![
            s.take(0),
        ] + rest)[i]).len() == 0 by {
            if i > 0 {
                assert((seq![s.take(0)] + rest)[i] == rest[i - 1]);
            }
        }
    } else {
        text::lemma_find(s, space);
    }
}

proof fn lemma_fill_nothing(words: Seq<Seq<char>>, max: int)
    requires
        max >= 0,
        forall|i: int| 0 <= i < words.len() ==> (#[trigger] words[i]).len() == 0,
    ensures
        filling(words, max).closed == Seq::<Seq<char>>::empty(),
        filling(words, max).open.len() == 0,
    decreases words.len(),
{
    if words.len() > 0 {
        assert forall|i: int| 0 <= i < words.drop_last().len() implies (
        #[trigger] words.drop_last()[i]).len() == 0 by {
            assert(words.drop_last()[i] == words[i]);
        }
        lemma_fill_nothing(words.drop_last(), max);
    }
}

fn capped_rows(s: &[char], max: usize) -> (r: Vec<Vec<char>>)
    requires
        max > 0 || only_spaces(s@),
    ensures
        text::rows(r@) == capped(s@, max as int),
{
    let mut closed: Vec<Vec<char>> = Vec::new();
    if s.len() <= max {
        closed.push(copied(s));
        assert(text::rows(closed@) =~= seq![s@]);
        return closed;
    }
    if max == 0 {
        proof {
            lemma_only_spaces(s@);
            lemma_fill_nothing(text::split(s@, seq![' ']), 0);
            assert(text::rows(closed@) =~= seq![]);
        }
        return closed;
    }
    let mut space: Vec<char> = Vec::new();
    space.push(' ');
    assert(space@ =~= seq![' ']);
    let words = split_at_each(s, space.as_slice());
    let ghost ws = text::spans(words@);
    let mut open: Vec<char> = Vec::new();
    proof {
        assert(text::rows(closed@) =~= seq![]);
    }
    for i in 0..words.len()
        invariant
            max > 0,
            ws == text::spans(words@),
            open@.len() <= max,
            filling(ws.take(i as int), max as int) == (Filling {
                closed: text::rows(closed@),
                open: open@,
            }),
    {
        let word: &[char] = words[i];
        proof {
            assert(ws.take(i + 1).drop_last() =~= ws.take(i as int));
            assert(ws.take(i + 1).last() == word@);
            assert(text::rows(closed@.push(open)) =~= text::rows(closed@).push(open@));
        }
        if word.len() > max {
            if open.len() > 0 {
                closed.push(open);
            }
            push_cut(&mut closed, word, max);
            open = Vec::new();
        } else if open.len() == 0 {
            open = copied(word);
        } else if open.len() >= max || word.len() > max - open.len() - 1 {
            closed.push(open);
            open = copied(word);
        } else {
            let ghost before = open@;
            open.push(' ');
            append(&mut open, word);
            assert(open@ =~= before + seq![' '] + word@);
        }
    }
    assert(ws.take(ws.len() as int) =~= ws);
    if open.len() > 0 {
        proof {
            assert(text::rows(closed@.push(open)) =~= text::rows(closed@).push(open@));
        }
        closed.push(open);
    }
    closed
}

/// Split a phoneme line into pieces of at most `max` characters, at spaces. A
/// word that is longer is cut, which takes a limit over zero.
pub fn cap_token_len(phonemes: &str, max: usize) -> (r: Vec<String>)
    requires
        max > 0 || only_spaces(phonemes@),
    ensures
        text::texts(r@) == capped(phonemes@, max as int),
{
    let s = chars_of(phonemes);
    let pieces = capped_rows(s.as_slice(), max);
    strings_of(&pieces)
}

// ---------- Talking to the server ----------

/// What the server is sent for a sentence: one line, with its newlines as
/// spaces.
pub fn request_line(sentence: &str) -> (r: String)
    ensures
        r@ == text::swap(sentence@, CharClass::Newline, ' ').push('\n'),
{
    let mut line = swapped(chars_of(sentence).as_slice(), CharClass::Newline, ' ');
    line.push('\n');
    string_of(line.as_slice())
}

/// A line that the server prints about its model, and that answers nothing.
pub open spec fn banner(line: Seq<char>) -> bool {
    text::starts_with(line, "✔"@) || text::starts_with(line, "You can now load"@)
}

/// The line without the newlines at its end.
pub open spec fn bare(line: Seq<char>) -> Seq<char> {
    text::trim_back(line, CharClass::Newline)
}

/// The answer in a line of the server, or nothing if it is a banner and the
/// next line is to be read.
pub fn reply_text(line: &str) -> (r: Option<String>)
    ensures
        match r {
            Some(t) => !banner(bare(line@)) && t@ == bare(line@),
            None => banner(bare(line@)),
        },
{
    let all = chars_of(line);
    let kept = trimmed_back(all.as_slice(), CharClass::Newline);
    if is_at(kept, chars_of("✔").as_slice(), 0) || is_at(
        kept,
        chars_of("You can now load").as_slice(),
        0,
    ) {
        None
    } else {
        Some(string_of(kept))
    }
}

/// The texts that are not blank.
pub open spec fn not_blank(parts: Seq<Seq<char>>) -> Seq<Seq<char>>
    decreases parts.len(),
{
    if parts.len() == 0 {
        seq![]
    } else if text::trim(parts.last()).len() > 0 {
        not_blank(parts.drop_last()).push(parts.last())
    } else {
        not_blank(parts.drop_last())
    }
}

/// The chunks for one sentence and the phonemes that answer it.
pub open spec fn chunks_for(sentence: Seq<char>, raw: Seq<char>) -> Seq<Seq<char>> {
    not_blank(capped(overridden(sentence, clean(raw)), MAX_PHONEME_CHARS as int))
}

/// Shape the server's answer to one sentence: cleaned, with the overrides
/// applied, and in pieces that the speech model takes.
pub fn phoneme_chunks(sentence: &str, raw: &str) -> (r: Vec<String>)
    ensures
        text::texts(r@) == chunks_for(sentence@, raw@),
{
    let cleaned = clean_phonemes(raw);
    let right = apply_overrides(sentence, cleaned.as_str());
    let pieces = cap_token_len(right.as_str(), MAX_PHONEME_CHARS);
    let ghost ps = text::texts(pieces@);
    let mut out: Vec<String> = Vec::new();
    proof {
        assert(text::texts(out@) =~= seq![]);
    }
    for i in 0..pieces.len()
        invariant
            ps == text::texts(pieces@),
            text::texts(out@) == not_blank(ps.take(i as int)),
    {
        proof {
            assert(ps.take(i + 1).drop_last() =~= ps.take(i as int));
            assert(ps.take(i + 1).last() == pieces@[i as int]@);
        }
        let all = chars_of(pieces[i].as_str());
        if trimmed(all.as_slice()).len() > 0 {
            let kept = pieces[i].clone();
            proof {
                assert(text::texts(out@.push(kept)) =~= text::texts(out@).push(kept@));
            }
            out.push(kept);
        }
    }
    assert(ps.take(ps.len() as int) =~= ps);
    out
}

/// The lines behind the next answer, and the answer itself, if there is one.
pub open spec fn next_reply(lines: Seq<Seq<char>>) -> Option<(Seq<char>, Seq<Seq<char>>)>
    decreases lines.len(),
{
    if lines.len() == 0 {
        None
    } else if banner(bare(lines[0])) {
        next_reply(lines.skip(1))
    } else {
        Some((bare(lines[0]), lines.skip(1)))
    }
}

/// The chunks of all sentences, each answered by the next line that is no
/// banner, or nothing if the lines run out.
pub open spec fn answered(
    sentences: Seq<Seq<char>>,
    lines: Seq<Seq<char>>,
) -> Option<Seq<Seq<char>>>
    decreases sentences.len(),
{
    if sentences.len() == 0 {
        Some(seq![])
    } else {
        match next_reply(lines) {
            Some((reply, rest)) => match answered(sentences.skip(1), rest) {
                Some(more) => Some(chunks_for(sentences[0], reply) + more),
                None => None,
            },
            None => None,
        }
    }
}

/// Convert a text into phoneme chunks, given the lines that the server printed
/// for its sentences. If it printed too few it has closed.
pub fn phonemize(t: &str, lines: &[String]) -> (r: AppResult<Vec<String>>)
    ensures
        match r {
            Ok(chunks) => answered(sentences::sentences(t@), text::texts(lines@)) == Some(
                text::texts(chunks@),
            ),
            Err(e) => answered(sentences::sentences(t@), text::texts(lines@)) is None && (
            e matches AppError::Sidecar(m) && m@ == "g2p_server closed unexpectedly"@),
        },
{
    let all = split_sentences(t);
    let ghost ss = text::texts(all@);
    let ghost ls = text::texts(lines@);
    let ghost whole = answered(ss, ls);
    let n: usize = lines.len();
    let mut out: Vec<String> = Vec::new();
    let mut at: usize = 0;
    proof {
        assert(ss.skip(0) =~= ss);
        assert(ls.skip(0) =~= ls);
        if whole is Some {
            assert(text::texts(out@) + whole->0 =~= whole->0);
        }
    }
    for i in 0..all.len()
        invariant
            n == lines@.len(),
            ss == text::texts(all@),
            ss == sentences::sentences(t@),
            ls == text::texts(lines@),
            whole == answered(ss, ls),
            at <= n,
            match answered(ss.skip(i as int), ls.skip(at as int)) {
                Some(more) => whole matches Some(w) && w == text::texts(out@) + more,
                None => whole is None,
            },
    {
        let ghost from = at;
        let mut reply: Option<String> = None;
        proof {
            assert(ss.skip(i as int)[0] == all@[i as int]@);
            assert(ss.skip(i as int).skip(1) =~= ss.skip(i + 1));
        }
        while at < n && reply.is_none()
            invariant
                n == lines@.len(),
                ls == text::texts(lines@),
                at <= n,
                match reply {
                    Some(x) => next_reply(ls.skip(from as int)) == Some((x@, ls.skip(at as int))),
                    None => next_reply(ls.skip(from as int)) == next_reply(ls.skip(at as int)),
                },
            decreases n - at,
        {
            proof {
                assert(ls.skip(at as int)[0] == lines@[at as int]@);
                assert(ls.skip(at as int).skip(1) =~= ls.skip(at + 1));
            }
            reply = reply_text(lines[at].as_str());
            at = at + 1;
        }
        match reply {
            None => {
                return Err(AppError::Sidecar("g2p_server closed unexpectedly".to_owned()));
            },
            Some(x) => {
                let mut more = phoneme_chunks(all[i].as_str(), x.as_str());
                let ghost before = text::texts(out@);
                let ghost own = text::texts(more@);
                out.append(&mut more);
                proof {
                    assert(text::texts(out@) =~= before + own);
                    let rest = answered(ss.skip(i + 1), ls.skip(at as int));
                    if rest is Some {
                        assert(before + (own + rest->0) =~= before + own + rest->0);
                    }
                }
            },
        }
    }
    proof {
        assert(text::texts(out@) + Seq::<Seq<char>>::empty() =~= text::texts(out@));
    }
    Ok(out)
}

// ---------- What shaping promises ----------

proof fn lemma_drop_inner_periods(s: Seq<char>)
    ensures
        forall|i: int, j: int|
            0 <= i < j < drop_inner_periods(s).len() && drop_inner_periods(s)[i] == '.'
                ==> chars::white(#[trigger] drop_inner_periods(s)[j])
                || #[trigger] drop_inner_periods(s)[i] != '.',
        text::free(s, CharClass::Joiner) ==> text::free(drop_inner_periods(s), CharClass::Joiner),
        text::free(s, CharClass::NotWhite) ==> text::free(
            drop_inner_periods(s),
            CharClass::NotWhite,
        ),
    decreases s.len(),
{
    if s.len() > 0 {
        let rest = s.skip(1);
        let r = drop_inner_periods(s);
        let q = drop_inner_periods(rest);
        lemma_drop_inner_periods(rest);
        assert forall|cl: CharClass| text::free(s, cl) implies #[trigger] text::free(rest, cl) by {
            assert forall|k: int| 0 <= k < rest.len() implies !cl.has(#[trigger] rest[k]) by {
                assert(rest[k] == s[k + 1]);
            }
        }
        let after = text::trim_front(rest, CharClass::White);
        if s[0] == '.' && after.len() > 0 {
        } else {
            assert(r == seq![s[0]] + q);
            if s[0] == '.' {
                let k = text::lemma_trim_front_suffix(rest, CharClass::White);
                assert forall|m: int| 0 <= m < rest.len() implies !CharClass::NotWhite.has(
                    #[trigger] rest[m],
                ) by {
                    assert(CharClass::White.has(rest[m]));
                }
                assert(text::free(q, CharClass::NotWhite));
            }
            assert forall|i: int, j: int| 0 <= i < j < r.len() && r[i] == '.' implies chars::white(
                #[trigger] r[j],
            ) || #[trigger] r[i] != '.' by {
                assert(r[j] == q[j - 1]);
                if i > 0 {
                    assert(r[i] == q[i - 1]);
                } else {
                    assert(!CharClass::NotWhite.has(q[j - 1]));
                }
            }
            assert forall|cl: CharClass| text::free(q, cl) && !cl.has(s[0]) implies #[trigger] text::free(
                r,
                cl,
            ) by {
                assert forall|m: int| 0 <= m < r.len() implies !cl.has(#[trigger] r[m]) by {
                    if m > 0 {
                        assert(r[m] == q[m - 1]);
                    }
                }
            }
        }
    }
}

/// A clean phoneme line holds no joiner, no whitespace at its ends and no two
/// whitespace characters in a row, and no period but as its last character.
pub proof fn clean_phonemes_are_clean(ipa: Seq<char>)
    ensures
        text::free(clean(ipa), CharClass::Joiner),
        text::single_spaced(clean(ipa)),
        forall|i: int| 0 <= i < clean(ipa).len() - 1 ==> #[trigger] clean(ipa)[i] != '.',
{
    let a = text::without(ipa, CharClass::Joiner);
    text::lemma_without_free(ipa, CharClass::Joiner);
    let b = text::squeeze(a);
    text::lemma_squeeze(a, CharClass::Joiner);
    let c = drop_inner_periods(b);
    lemma_drop_inner_periods(b);
    text::lemma_squeeze(c, CharClass::Joiner);
    assert forall|i: int, j: int| 0 <= i < j < c.len() && c[i] == '.' implies chars::white(
        #[trigger] c[j],
    ) || #[trigger] c[i] != '.' by {}
    lemma_last_period(c);
}

proof fn lemma_no_inner_period(s: Seq<char>)
    requires
        forall|i: int| 0 <= i < s.len() - 1 ==> #[trigger] s[i] != '.',
    ensures
        drop_inner_periods(s) == s,
    decreases s.len(),
{
    if s.len() > 0 {
        let rest = s.skip(1);
        assert forall|i: int| 0 <= i < rest.len() - 1 implies #[trigger] rest[i] != '.' by {
            assert(rest[i] == s[i + 1]);
        }
        lemma_no_inner_period(rest);
        text::lemma_trim_front_len(rest, CharClass::White);
        assert(s =~= seq![s[0]] + rest);
    }
}

/// Cleaning a clean phoneme line changes nothing more.
pub proof fn cleaning_again(ipa: Seq<char>)
    ensures
        clean(clean(ipa)) == clean(ipa),
{
    let r = clean(ipa);
    clean_phonemes_are_clean(ipa);
    text::lemma_without_nothing(r, CharClass::Joiner);
    text::lemma_squeeze_again(
        drop_inner_periods(text::squeeze(text::without(ipa, CharClass::Joiner))),
    );
    lemma_no_inner_period(r);
}

/// Where only whitespace follows a period, squeezing leaves it at the very end.
#[verifier::rlimit(50)]
#[verifier::spinoff_prover]
proof fn lemma_last_period(s: Seq<char>)
    requires
        forall|i: int, j: int|
            0 <= i < j < s.len() && s[i] == '.' ==> chars::white(#[trigger] s[j])
                || #[trigger] s[i] != '.',
    ensures
        forall|i: int|
            0 <= i < text::squeeze(s).len() - 1 ==> #[trigger] text::squeeze(s)[i] != '.',
    decreases s.len(),
{
    let k = text::lemma_trim_front_suffix(s, CharClass::White);
    text::lemma_trim_front_len(s, CharClass::White);
    let t = text::trim_front(s, CharClass::White);
    text::lemma_squeeze_front(s);
    if t.len() > 0 {
        text::lemma_word_len(t);
        let n = text::word_len(t) as int;
        let w = t.take(n);
        let u = t.skip(n);
        text::lemma_word_chars(t);
        assert forall|i: int, j: int| 0 <= i < j < u.len() && u[i] == '.' implies chars::white(
            #[trigger] u[j],
        ) || #[trigger] u[i] != '.' by {
            assert(u[i] == s[i + n + k] && u[j] == s[j + n + k]);
        }
        lemma_last_period(u);
        let r = text::squeeze(s);
        assert forall|i: int| 0 <= i < r.len() - 1 implies #[trigger] r[i] != '.' by {
            if i < n {
                assert(r[i] == w[i] && w[i] == s[i + k]);
                if w[i] == '.' {
                    if i < n - 1 {
                        assert(w[i + 1] == s[i + 1 + k]);
                        assert(!chars::white(w[i + 1]));
                    } else {
                        // Something follows the word, so there is another word.
                        assert(text::words(u).len() > 0);
                        let m = text::lemma_trim_front_suffix(u, CharClass::White);
                        text::lemma_trim_front_len(u, CharClass::White);
                        assert(text::trim_front(u, CharClass::White).len() > 0);
                        assert(u[m] == s[m + n + k]);
                        assert(!chars::white(u.skip(m)[0]));
                    }
                }
            } else if i > n {
                assert(r[i] == text::squeeze(u)[i - n - 1]);
            }
        }
    }
}

proof fn lemma_cut(w: Seq<char>, max: int)
    requires
        max > 0,
    ensures
        forall|i: int| 0 <= i < cut(w, max).len() ==> 0 < (#[trigger] cut(w, max)[i]).len() <= max,
        text::residue(cut(w, max), CharClass::White) == text::without(w, CharClass::White),
    decreases w.len(),
{
    if w.len() == 0 {
        assert(w =~= seq![]);
    } else if w.len() <= max {
        text::lemma_residue_front(w, seq![], CharClass::White);
        assert(seq![w] + Seq::<Seq<char>>::empty() =~= seq![w]);
    } else {
        let rest = cut(w.skip(max), max);
        lemma_cut(w.skip(max), max);
        text::lemma_residue_front(w.take(max), rest, CharClass::White);
        assert(w =~= w.take(max) + w.skip(max));
        text::lemma_without_concat(w.take(max), w.skip(max), CharClass::White);
        assert forall|i: int| 0 <= i < cut(w, max).len() implies 0 < (#[trigger] cut(
            w,
            max,
        )[i]).len() <= max by {
            if i > 0 {
                assert(cut(w, max)[i] == rest[i - 1]);
            }
        }
    }
}

proof fn lemma_residue_concat(a: Seq<Seq<char>>, b: Seq<Seq<char>>)
    ensures
        text::residue(a + b, CharClass::White) == text::residue(a, CharClass::White)
            + text::residue(b, CharClass::White),
    decreases b.len(),
{
    if b.len() == 0 {
        assert(a + b =~= a);
    } else {
        lemma_residue_concat(a, b.drop_last());
        assert((a + b).drop_last() =~= a + b.drop_last());
    }
}

proof fn lemma_filling(words: Seq<Seq<char>>, max: int)
    requires
        max > 0,
    ensures
        filling(words, max).open.len() <= max,
        forall|i: int|
            0 <= i < filling(words, max).closed.len() ==> 0 < (#[trigger] filling(
                words,
                max,
            ).closed[i]).len() <= max,
        text::residue(close(filling(words, max)).closed, CharClass::White) == text::residue(
            words,
            CharClass::White,
        ),
    decreases words.len(),
{
    if words.len() > 0 {
        let q = filling(words.drop_last(), max);
        let f = filling(words, max);
        let word = words.last();
        lemma_filling(words.drop_last(), max);
        assert(q.closed.push(q.open).drop_last() =~= q.closed);
        if word.len() > max {
            lemma_cut(word, max);
            lemma_residue_concat(close(q).closed, cut(word, max));
            let c = close(q).closed;
            assert forall|i: int| 0 <= i < f.closed.len() implies 0 < (
            #[trigger] f.closed[i]).len() <= max by {
                if i < c.len() {
                    assert(f.closed[i] == c[i]);
                    if i < q.closed.len() {
                        assert(c[i] == q.closed[i]);
                    }
                } else {
                    assert(f.closed[i] == cut(word, max)[i - c.len()]);
                }
            }
        } else if q.open.len() == 0 {
            assert(q.closed.push(word).drop_last() =~= q.closed);
            if word.len() == 0 {
                assert(word =~= seq![]);
            }
        } else if q.open.len() + 1 + word.len() > max {
            let c = q.closed.push(q.open);
            assert(c.push(word).drop_last() =~= c);
            if word.len() == 0 {
                assert(word =~= seq![]);
            }
        } else {
            let more = q.open + seq![' '] + word;
            assert(q.closed.push(more).drop_last() =~= q.closed);
            text::lemma_without_concat(q.open, seq![' '], CharClass::White);
            text::lemma_without_concat(q.open + seq![' '], word, CharClass::White);
            text::lemma_without_one(' ', CharClass::White);
        }
    } else {
        assert(close(filling(words, max)).closed =~= seq![]);
    }
}

proof fn lemma_residue_split(s: Seq<char>)
    ensures
        text::residue(text::split(s, seq![' ']), CharClass::White) == text::without(
            s,
            CharClass::White,
        ),
    decreases s.len(),
{
    let space = seq![' '];
    text::lemma_find(s, space);
    match text::find(s, space) {
        Some(i) => {
            let rest = s.skip(i + 1);
            lemma_residue_split(rest);
            text::lemma_residue_front(s.take(i), text::split(rest, space), CharClass::White);
            assert(s.subrange(i, i + 1)[0] == s[i]);
            assert(s =~= s.take(i) + space + rest);
            text::lemma_without_concat(s.take(i), space, CharClass::White);
            text::lemma_without_concat(s.take(i) + space, rest, CharClass::White);
            text::lemma_without_one(' ', CharClass::White);
        },
        None => {
            text::lemma_residue_front(s, seq![], CharClass::White);
            assert(seq![s] + Seq::<Seq<char>>::empty() =~= seq![s]);
        },
    }
}

/// No piece is longer than the limit.
pub proof fn capped_pieces_fit(s: Seq<char>, max: int, i: int)
    requires
        max > 0,
        0 <= i < capped(s, max).len(),
    ensures
        capped(s, max)[i].len() <= max,
{
    lemma_filling(text::split(s, seq![' ']), max);
    if s.len() > max {
        let f = filling(text::split(s, seq![' ']), max);
        if i < f.closed.len() {
            assert(capped(s, max)[i] == f.closed[i]);
        }
    }
}

/// Capping loses nothing but whitespace, and adds and reorders nothing.
pub proof fn capping_keeps_text(s: Seq<char>, max: int)
    requires
        max > 0,
    ensures
        text::residue(capped(s, max), CharClass::White) == text::without(s, CharClass::White),
{
    lemma_filling(text::split(s, seq![' ']), max);
    lemma_residue_split(s);
    if s.len() <= max {
        text::lemma_residue_front(s, seq![], CharClass::White);
        assert(seq![s] + Seq::<Seq<char>>::empty() =~= seq![s]);
    }
}

proof fn lemma_filling_joins(words: Seq<Seq<char>>, max: int)
    requires
        forall|i: int| 0 <= i < words.len() ==> 0 < (#[trigger] words[i]).len() <= max,
    ensures
        text::join(close(filling(words, max)).closed, seq![' ']) == text::join(words, seq![' ']),
        words.len() > 0 ==> filling(words, max).open.len() > 0,
        words.len() == 0 ==> filling(words, max).closed.len() == 0,
    decreases words.len(),
{
    let sep = seq![' '];
    if words.len() == 0 {
        assert(close(filling(words, max)).closed =~= words);
    } else {
        let front = words.drop_last();
        let word = words.last();
        let q = filling(front, max);
        assert forall|i: int| 0 <= i < front.len() implies 0 < (#[trigger] front[i]).len()
            <= max by {
            assert(front[i] == words[i]);
        }
        assert(words[words.len() - 1].len() <= max);
        lemma_filling_joins(front, max);
        let c = q.closed.push(q.open);
        assert(words =~= front.push(word));
        text::lemma_join_push(front, word, sep);
        text::lemma_join_push(q.closed, q.open, sep);
        text::lemma_join_push(q.closed, word, sep);
        text::lemma_join_push(c, word, sep);
        let more = q.open + sep + word;
        text::lemma_join_push(q.closed, more, sep);
        if front.len() > 0 {
            if q.closed.len() > 0 {
                let done = text::join(q.closed, sep) + sep;
                assert(done + more =~= done + q.open + sep + word);
            }
        } else {
            assert(q.closed =~= seq![]);
        }
    }
}

/// Where no word is empty or over the limit, the pieces joined by spaces are
/// the phonemes again.
pub proof fn capping_cuts_no_word(s: Seq<char>, max: int)
    requires
        forall|i: int|
            0 <= i < text::split(s, seq![' ']).len() ==> 0 < (#[trigger] text::split(
                s,
                seq![' '],
            )[i]).len() <= max,
    ensures
        text::join(capped(s, max), seq![' ']) == s,
{
    if s.len() > max {
        lemma_filling_joins(text::split(s, seq![' ']), max);
        text::lemma_join_split(s, seq![' ']);
    }
}

proof fn lemma_filling_full(words: Seq<Seq<char>>, max: int)
    requires
        forall|i: int| 0 <= i < words.len() ==> 0 < (#[trigger] words[i]).len() <= max,
        forall|i: int| 0 <= i < words.len() ==> !text::contains(#[trigger] words[i], seq![' ']),
    ensures
        ({
            let c = close(filling(words, max)).closed;
            forall|i: int, j: int|
                0 <= i && j == i + 1 && j < c.len() ==> (#[trigger] c[i]).len() + 1 + first_word(
                    #[trigger] c[j],
                ).len() > max
        }),
    decreases words.len(),
{
    let sep = seq![' '];
    if words.len() > 0 {
        let front = words.drop_last();
        let word = words[words.len() - 1];
        let q = filling(front, max);
        assert forall|i: int| 0 <= i < front.len() implies 0 < (#[trigger] front[i]).len() <= max
            && !text::contains(front[i], sep) by {
            assert(front[i] == words[i]);
        }
        lemma_filling_full(front, max);
        lemma_filling_joins(front, max);
        assert(word.len() <= max && !text::contains(word, sep));
        text::lemma_find(word, sep);
        assert(first_word(word) == word);
        let b = close(q).closed;
        let c = close(filling(words, max)).closed;
        if front.len() > 0 && q.open.len() + 1 + word.len() <= max {
            text::lemma_split_first(q.open, sep, word);
        }
        assert forall|i: int, j: int| 0 <= i && j == i + 1 && j < c.len() implies (
        #[trigger] c[i]).len() + 1 + first_word(#[trigger] c[j]).len() > max by {
            assert(c[i] == b[i]);
            if j < b.len() {
                assert(b[i].len() + 1 + first_word(b[j]).len() > max);
            }
        }
    }
}

/// The first word of a phoneme line.
pub open spec fn first_word(s: Seq<char>) -> Seq<char> {
    text::split(s, seq![' '])[0]
}

/// Where no word is empty or over the limit, no piece has room for a space and
/// the first word of the next.
pub proof fn capped_pieces_are_full(s: Seq<char>, max: int, i: int)
    requires
        forall|k: int|
            0 <= k < text::split(s, seq![' ']).len() ==> 0 < (#[trigger] text::split(
                s,
                seq![' '],
            )[k]).len() <= max,
        0 <= i < capped(s, max).len() - 1,
    ensures
        capped(s, max)[i].len() + 1 + first_word(capped(s, max)[i + 1]).len() > max,
{
    text::lemma_split_parts(s, seq![' ']);
    lemma_filling_full(text::split(s, seq![' ']), max);
}

proof fn lemma_fewest(words: Seq<Seq<char>>, groups: Seq<Seq<Seq<char>>>, max: int)
    requires
        forall|i: int| 0 <= i < words.len() ==> 0 < (#[trigger] words[i]).len() <= max,
        text::grouped(words, groups),
        forall|i: int|
            0 <= i < groups.len() ==> text::join(#[trigger] groups[i], seq![' ']).len() <= max,
    ensures
        ({
            let f = filling(words, max);
            let n = close(f).closed.len();
            &&& n <= groups.len()
            &&& n > 0 && n == groups.len() ==> f.open.len() <= text::join(
                groups.last(),
                seq![' '],
            ).len()
        }),
    decreases words.len(),
{
    let sep = seq![' '];
    if words.len() > 0 {
        let front = words.drop_last();
        let word = words[words.len() - 1];
        text::lemma_ungrouped(words, groups);
        let last = groups[groups.len() - 1];
        let less = text::ungrouped(groups);
        let some = last.drop_last();
        assert(last =~= some.push(word));
        text::lemma_join_push(some, word, sep);
        assert(text::join(last, sep).len() <= max);
        assert forall|i: int| 0 <= i < front.len() implies 0 < (#[trigger] front[i]).len()
            <= max by {
            assert(front[i] == words[i]);
        }
        assert forall|i: int| 0 <= i < less.len() implies text::join(
            #[trigger] less[i],
            sep,
        ).len() <= max by {
            if i < groups.len() - 1 {
                assert(less[i] == groups[i]);
            }
        }
        lemma_fewest(front, less, max);
        lemma_filling_joins(front, max);
        assert(0 < word.len() <= max);
    }
}

/// Where no word is empty or over the limit, no way to put the words into
/// pieces within the limit makes fewer pieces.
pub proof fn capped_pieces_are_fewest(s: Seq<char>, max: int, groups: Seq<Seq<Seq<char>>>)
    requires
        forall|k: int|
            0 <= k < text::split(s, seq![' ']).len() ==> 0 < (#[trigger] text::split(
                s,
                seq![' '],
            )[k]).len() <= max,
        text::grouped(text::split(s, seq![' ']), groups),
        forall|i: int|
            0 <= i < groups.len() ==> text::join(#[trigger] groups[i], seq![' ']).len() <= max,
    ensures
        capped(s, max).len() <= groups.len(),
{
    let words = text::split(s, seq![' ']);
    text::lemma_split_parts(s, seq![' ']);
    text::lemma_ungrouped(words, groups);
    lemma_fewest(words, groups, max);
}

proof fn lemma_not_blank(parts: Seq<Seq<char>>, max: int)
    requires
        forall|i: int| 0 <= i < parts.len() ==> (#[trigger] parts[i]).len() <= max,
    ensures
        forall|i: int|
            0 <= i < not_blank(parts).len() ==> (#[trigger] not_blank(parts)[i]).len() <= max
                && text::trim(not_blank(parts)[i]).len() > 0,
    decreases parts.len(),
{
    if parts.len() > 0 {
        assert forall|i: int| 0 <= i < parts.drop_last().len() implies (
        #[trigger] parts.drop_last()[i]).len() <= max by {
            assert(parts.drop_last()[i] == parts[i]);
        }
        lemma_not_blank(parts.drop_last(), max);
        assert(parts[parts.len() - 1].len() <= max);
        let front = not_blank(parts.drop_last());
        assert forall|i: int| 0 <= i < not_blank(parts).len() implies (#[trigger] not_blank(
            parts,
        )[i]).len() <= max && text::trim(not_blank(parts)[i]).len() > 0 by {
            if i < front.len() {
                assert(not_blank(parts)[i] == front[i]);
            }
        }
    }
}

/// Every phoneme chunk is within the limit of the speech model, and none is
/// blank.
pub proof fn phoneme_chunks_fit(sentences: Seq<Seq<char>>, lines: Seq<Seq<char>>, i: int)
    requires
        answered(sentences, lines) matches Some(chunks) && 0 <= i < chunks.len(),
    ensures
        answered(sentences, lines)->0[i].len() <= MAX_PHONEME_CHARS,
        text::trim(answered(sentences, lines)->0[i]).len() > 0,
    decreases sentences.len(),
{
    let (reply, rest) = next_reply(lines)->0;
    let own = chunks_for(sentences[0], reply);
    if i < own.len() {
        let s = overridden(sentences[0], clean(reply));
        assert forall|k: int| 0 <= k < capped(s, 480).len() implies (#[trigger] capped(
            s,
            480,
        )[k]).len() <= 480 by {
            capped_pieces_fit(s, 480, k);
        }
        lemma_not_blank(capped(s, 480), 480);
    } else {
        phoneme_chunks_fit(sentences.skip(1), rest, i - own.len());
    }
}

// ---------- What becomes of phonemes ----------

proof fn lemma_inner_periods_keep(s: Seq<char>)
    ensures
        text::without(drop_inner_periods(s), CharClass::Filler) == text::without(
            s,
            CharClass::Filler,
        ),
        s.len() > 0 && !chars::white(s.last()) ==> drop_inner_periods(s).len() > 0
            && drop_inner_periods(s).last() == s.last(),
    decreases s.len(),
{
    let cl = CharClass::Filler;
    if s.len() > 0 {
        let rest = s.skip(1);
        lemma_inner_periods_keep(rest);
        let kept = drop_inner_periods(rest);
        assert(s =~= seq![s[0]] + rest);
        text::lemma_without_concat(seq![s[0]], rest, cl);
        text::lemma_without_concat(seq![s[0]], kept, cl);
        text::lemma_without_one(s[0], cl);
        assert(Seq::<char>::empty() + text::without(rest, cl) =~= text::without(rest, cl));
        if rest.len() > 0 {
            assert(rest.last() == s.last());
        } else {
            let k = text::lemma_trim_front_suffix(rest, CharClass::White);
        }
    }
}

/// Cleaning phonemes loses nothing but whitespace, periods and joiners, and adds
/// and reorders nothing; a period at the very end stays.
pub proof fn cleaning_keeps_phonemes(ipa: Seq<char>)
    ensures
        text::without(clean(ipa), CharClass::Filler) == text::without(ipa, CharClass::Filler),
        ipa.len() > 0 && !chars::white(ipa.last()) && ipa.last() != '\u{200d}' ==> clean(
            ipa,
        ).len() > 0 && clean(ipa).last() == ipa.last(),
{
    let cl = CharClass::Filler;
    let white = CharClass::White;
    let a = text::without(ipa, CharClass::Joiner);
    let b = text::squeeze(a);
    let c = drop_inner_periods(b);
    text::lemma_without_twice(ipa, CharClass::Joiner, cl);
    text::squeezing_keeps_text(a);
    text::lemma_without_twice(a, white, cl);
    text::lemma_without_twice(b, white, cl);
    lemma_inner_periods_keep(b);
    text::squeezing_keeps_text(c);
    text::lemma_without_twice(c, white, cl);
    text::lemma_without_twice(text::squeeze(c), white, cl);
    if ipa.len() > 0 && !chars::white(ipa.last()) && ipa.last() != '\u{200d}' {
        assert(a.last() == ipa.last());
        text::lemma_squeeze_last(a);
        text::lemma_squeeze_last(c);
    }
}

/// Phonemes that are clean stay as they are: single spaces between words, no
/// joiner, and a period at the end at most.
pub proof fn clean_phonemes_stay(s: Seq<char>)
    requires
        text::single_spaced(s),
        forall|i: int| 0 <= i < s.len() && chars::white(#[trigger] s[i]) ==> s[i] == ' ',
        text::free(s, CharClass::Joiner),
        forall|i: int| 0 <= i < s.len() - 1 ==> #[trigger] s[i] != '.',
    ensures
        clean(s) == s,
{
    text::lemma_without_nothing(s, CharClass::Joiner);
    text::single_spaced_text_stays(s);
    lemma_no_inner_period(s);
}

/// The sounds of a sentence are as they were, unless the word "est" stands in it.
pub proof fn other_sentences_sound_the_same(source: Seq<char>, phonemes: Seq<char>)
    requires
        !text::contains(text::lower(source), "est"@),
    ensures
        overridden(source, phonemes) == phonemes,
{
}

/// Where the word "est" stands by itself in a sentence, in capitals or not, its
/// letters are not spelled out.
pub proof fn est_is_a_word(source: Seq<char>, phonemes: Seq<char>, i: int)
    requires
        text::all_ascii(source),
        0 <= i,
        i + 3 <= source.len(),
        source[i] == 'e' || source[i] == 'E',
        source[i + 1] == 's' || source[i + 1] == 'S',
        source[i + 2] == 't' || source[i + 2] == 'T',
        i > 0 ==> source[i - 1] == ' ',
        i + 3 < source.len() ==> source[i + 3] == ' ' || source[i + 3] == '.' || source[i + 3]
            == ',',
    ensures
        overridden(source, phonemes) == text::join(
            text::split(phonemes, "ˌiːˌɛstˈiː"@),
            "ˈɛst"@,
        ),
{
    reveal_strlit("est");
    let s = text::lower(source);
    assert(s.len() == source.len());
    assert(s[i] == chars::ascii_lowered(source[i]));
    assert(s[i + 1] == chars::ascii_lowered(source[i + 1]));
    assert(s[i + 2] == chars::ascii_lowered(source[i + 2]));
    if i > 0 {
        assert(s[i - 1] == chars::ascii_lowered(source[i - 1]));
    }
    if i + 3 < source.len() {
        assert(s[i + 3] == chars::ascii_lowered(source[i + 3]));
    }
    assert(s.subrange(i, i + 3) =~= "est"@);
    assert(word_at(s, "est"@, i));
}

/// A word goes on across letters and digits: inside of one nothing is a word.
pub proof fn parts_of_words_are_no_words(s: Seq<char>, w: Seq<char>, i: int)
    requires
        0 <= i,
        i + w.len() <= s.len(),
        i > 0 && chars::alphanumeric(s[i - 1]) || i + w.len() < s.len() && chars::alphanumeric(
            s[i + w.len()],
        ),
    ensures
        !word_at(s, w, i),
{
}

/// Phonemes that fit are one piece.
pub proof fn short_phonemes_stay_whole(s: Seq<char>, max: int)
    requires
        s.len() <= max,
    ensures
        capped(s, max) == seq![s],
{
}

proof fn lemma_not_blank_keeps(parts: Seq<Seq<char>>)
    ensures
        text::residue(not_blank(parts), CharClass::White) == text::residue(
            parts,
            CharClass::White,
        ),
    decreases parts.len(),
{
    let cl = CharClass::White;
    if parts.len() > 0 {
        let front = parts.drop_last();
        let last = parts.last();
        lemma_not_blank_keeps(front);
        text::lemma_without_trim(last, cl);
        if text::trim(last).len() > 0 {
            assert(not_blank(front).push(last).drop_last() =~= not_blank(front));
        } else {
            assert(text::without(text::trim(last), cl) =~= seq![]);
            assert(text::residue(parts, cl) =~= text::residue(front, cl));
        }
    }
}

/// The chunks of a sentence hold all of its phonemes in order, each of them up to
/// four hundred and eighty characters and none of them blank; phonemes that fit
/// into one chunk are not broken up.
pub proof fn chunks_hold_all_phonemes(sentence: Seq<char>, raw: Seq<char>)
    ensures
        ({
            let s = overridden(sentence, clean(raw));
            let all = chunks_for(sentence, raw);
            &&& text::residue(all, CharClass::White) == text::without(s, CharClass::White)
            &&& forall|i: int|
                0 <= i < all.len() ==> (#[trigger] all[i]).len() <= 480 && exists|k: int|
                    0 <= k < all[i].len() && !chars::white(#[trigger] all[i][k])
            &&& s.len() <= 480 && text::trim(s).len() > 0 ==> all == seq![s]
        }),
{
    let s = overridden(sentence, clean(raw));
    let parts = capped(s, 480);
    capping_keeps_text(s, 480);
    lemma_not_blank_keeps(parts);
    assert forall|k: int| 0 <= k < parts.len() implies (#[trigger] parts[k]).len() <= 480 by {
        capped_pieces_fit(s, 480, k);
    }
    lemma_not_blank(parts, 480);
    let all = chunks_for(sentence, raw);
    assert forall|i: int| 0 <= i < all.len() implies (#[trigger] all[i]).len() <= 480 && exists|k:
        int| 0 <= k < all[i].len() && !chars::white(#[trigger] all[i][k]) by {
        assert(text::trim(all[i]).len() > 0);
        text::lemma_trim_blank(all[i]);
    }
    if s.len() <= 480 && text::trim(s).len() > 0 {
        assert(parts =~= seq![s]);
        reveal_with_fuel(not_blank, 2);
        assert(parts.drop_last() =~= seq![]);
        assert(all =~= seq![s]);
    }
}

/// Newlines at the end of a reply do not count.
pub proof fn replies_end_with_their_line(line: Seq<char>)
    ensures
        bare(line.push('\n')) == bare(line),
        line.len() == 0 || line.last() != '\n' ==> bare(line) == line,
{
    assert(line.push('\n').drop_last() =~= line);
}

/// The messages of the language model's loader are skipped, and any other line
/// is the next reply.
pub proof fn loader_messages_are_skipped(lines: Seq<Seq<char>>)
    requires
        lines.len() > 0,
    ensures
        text::starts_with(bare(lines[0]), "✔"@) || text::starts_with(
            bare(lines[0]),
            "You can now load"@,
        ) ==> next_reply(lines) == next_reply(lines.skip(1)),
        !text::starts_with(bare(lines[0]), "✔"@) && !text::starts_with(
            bare(lines[0]),
            "You can now load"@,
        ) ==> next_reply(lines) == Some((bare(lines[0]), lines.skip(1))),
{
}

/// Every sentence gets the reply to itself: the first line that is no message
/// answers the first sentence, the next one the second and so on. Without enough
/// of them there is no answer.
pub proof fn sentences_are_answered_in_turn(sentences: Seq<Seq<char>>, lines: Seq<Seq<char>>)
    requires
        forall|i: int|
            0 <= i < lines.len() ==> !text::starts_with(bare(#[trigger] lines[i]), "✔"@)
                && !text::starts_with(bare(lines[i]), "You can now load"@),
    ensures
        lines.len() < sentences.len() ==> answered(sentences, lines) is None,
        lines.len() >= sentences.len() ==> answered(sentences, lines) == Some(
            text::pooled(
                Seq::new(
                    sentences.len(),
                    |i: int| chunks_for(sentences[i], bare(lines[i])),
                ),
            ),
        ),
    decreases sentences.len(),
{
    let f = |i: int| chunks_for(sentences[i], bare(lines[i]));
    if sentences.len() == 0 {
        assert(Seq::new(sentences.len(), f) =~= seq![]);
    } else if lines.len() > 0 {
        let s = sentences.skip(1);
        let l = lines.skip(1);
        assert(!banner(bare(lines[0])));
        assert forall|i: int| 0 <= i < l.len() implies !text::starts_with(
            bare(#[trigger] l[i]),
            "✔"@,
        ) && !text::starts_with(bare(l[i]), "You can now load"@) by {
            assert(l[i] == lines[i + 1]);
        }
        sentences_are_answered_in_turn(s, l);
        if lines.len() >= sentences.len() {
            let g = |i: int| chunks_for(s[i], bare(l[i]));
            let first = chunks_for(sentences[0], bare(lines[0]));
            assert(Seq::new(sentences.len(), f) =~= seq![first] + Seq::new(s.len(), g));
            lemma_pooled_front(first, Seq::new(s.len(), g));
        }
    }
}

proof fn lemma_pooled_front(first: Seq<Seq<char>>, rest: Seq<Seq<Seq<char>>>)
    ensures
        text::pooled(seq![first] + rest) == first + text::pooled(rest),
    decreases rest.len(),
{
    let all = seq![first] + rest;
    if rest.len() == 0 {
        assert(all.drop_last() =~= seq![]);
        assert(all.last() == first);
        reveal_with_fuel(text::pooled, 2);
        assert(text::pooled(all) =~= first + text::pooled(rest));
    } else {
        lemma_pooled_front(first, rest.drop_last());
        assert(all.drop_last() =~= seq![first] + rest.drop_last());
        assert(all.last() == rest.last());
        assert(text::pooled(all) =~= first + text::pooled(rest));
    }
}

} // verus!
