//! The optional polish pass: a language model repairs character glitches of a
//! transcript, chunk by chunk, and what it returns is kept only where it
//! changed hardly anything.
use crate::chars;
use crate::chars::CharClass;
use crate::text;
use crate::text::{
    append, chars_of, copied, counted, joined_rows, paragraphs_of, string_of, strings_of, trimmed,
    utf8_length,
};
use vstd::prelude::*;

verus! {

/// How many bytes of a transcript go into one request.
pub const POLISH_CHUNK_CHARS: usize = 6000;

// ---------- Chunks ----------

/// The chunks that are closed, and the one that is still open.
pub struct Packing {
    pub closed: Seq<Seq<char>>,
    pub open: Seq<char>,
}

/// One more paragraph. It goes into the open chunk if that stays within the
/// budget, and else opens the next one.
pub open spec fn pack(before: Packing, para: Seq<char>, budget: int) -> Packing {
    if before.open.len() == 0 {
        Packing { closed: before.closed, open: para }
    } else if text::utf8_len(before.open) + text::utf8_len(para) + 2 > budget {
        Packing { closed: before.closed.push(before.open), open: para }
    } else {
        Packing { closed: before.closed, open: before.open + "\n\n"@ + para }
    }
}

pub open spec fn packing(paras: Seq<Seq<char>>, budget: int) -> Packing
    decreases paras.len(),
{
    if paras.len() == 0 {
        Packing { closed: seq![], open: seq![] }
    } else {
        pack(packing(paras.drop_last(), budget), paras.last(), budget)
    }
}

/// All chunks of a packing.
pub open spec fn all_chunks(p: Packing) -> Seq<Seq<char>> {
    if p.open.len() == 0 {
        p.closed
    } else {
        p.closed.push(p.open)
    }
}

/// The chunks of a text.
pub open spec fn chunks(t: Seq<char>, budget: int) -> Seq<Seq<char>> {
    all_chunks(packing(text::paragraphs(t), budget))
}

/// Split a text into chunks of at most `budget` bytes, at blank lines only. A
/// paragraph that is larger than the budget is a chunk of its own.
pub fn chunk_paragraphs(t: &str, budget: usize) -> (r: Vec<String>)
    ensures
        text::texts(r@) == chunks(t@, budget as int),
{
    let paras = paragraphs_of(chars_of(t).as_slice());
    let ghost ps = text::rows(paras@);
    let gap = chars_of("\n\n");
    let mut closed: Vec<Vec<char>> = Vec::new();
    let mut open: Vec<char> = Vec::new();
    proof {
        assert(text::rows(closed@) =~= seq![]);
    }
    for i in 0..paras.len()
        invariant
            ps == text::rows(paras@),
            gap@ == "\n\n"@,
            packing(ps.take(i as int), budget as int) == (Packing {
                closed: text::rows(closed@),
                open: open@,
            }),
    {
        proof {
            assert(ps.take(i + 1).drop_last() =~= ps.take(i as int));
            assert(ps.take(i + 1).last() == paras@[i as int]@);
        }
        let para: &[char] = paras[i].as_slice();
        if open.len() == 0 {
            open = copied(para);
        } else if utf8_length(open.as_slice()) + utf8_length(para) + 2 > budget as u128 {
            proof {
                assert(text::rows(closed@.push(open)) =~= text::rows(closed@).push(open@));
            }
            closed.push(open);
            open = copied(para);
        } else {
            append(&mut open, gap.as_slice());
            append(&mut open, para);
        }
    }
    assert(ps.take(ps.len() as int) =~= ps);
    if open.len() > 0 {
        proof {
            assert(text::rows(closed@.push(open)) =~= text::rows(closed@).push(open@));
        }
        closed.push(open);
    }
    strings_of(&closed)
}

// ---------- Replies ----------

/// The reply keeps the length of the chunk: it has nine tenths of it at least,
/// and is never longer.
pub open spec fn keeps_length(chunk: Seq<char>, reply: Seq<char>) -> bool {
    9 * chunk.len() <= 10 * reply.len() && reply.len() <= chunk.len()
}

/// The reply keeps nine tenths of the punctuation of the chunk.
pub open spec fn keeps_punctuation(chunk: Seq<char>, reply: Seq<char>) -> bool {
    9 * text::count(chunk, CharClass::SentencePunctuation) <= 10 * text::count(
        reply,
        CharClass::SentencePunctuation,
    )
}

/// The reply is a repair of the chunk and no rewriting of it.
pub open spec fn acceptable(chunk: Seq<char>, reply: Seq<char>) -> bool {
    let o = text::trim(chunk);
    let c = text::trim(reply);
    &&& o.len() > 0
    &&& c.len() > 0
    &&& keeps_length(o, c)
    &&& keeps_punctuation(chunk, c)
}

/// Accept the polished chunk only if it is no longer than the original and
/// hardly shorter, and its punctuation is still there.
pub fn accept_polish(original: &str, cleaned: &str) -> (r: bool)
    ensures
        r == acceptable(original@, cleaned@),
{
    let whole = chars_of(original);
    let reply = chars_of(cleaned);
    let o: &[char] = trimmed(whole.as_slice());
    let c: &[char] = trimmed(reply.as_slice());
    if c.len() == 0 || o.len() == 0 {
        return false;
    }
    let on: u128 = o.len() as u128;
    let cn: u128 = c.len() as u128;
    if 9 * on > 10 * cn || cn > on {
        return false;
    }
    let op: u128 = counted(whole.as_slice(), CharClass::SentencePunctuation) as u128;
    let cp: u128 = counted(c, CharClass::SentencePunctuation) as u128;
    9 * op <= 10 * cp
}

/// What becomes of a chunk: the reply if there is an acceptable one, and else
/// the chunk as it was.
pub open spec fn settled(chunk: Seq<char>, reply: Option<Seq<char>>) -> Seq<char> {
    match reply {
        Some(t) => if acceptable(chunk, t) {
            t
        } else {
            chunk
        },
        None => chunk,
    }
}

/// The replies to the chunks as plain values.
pub open spec fn replies(v: Seq<Option<String>>) -> Seq<Option<Seq<char>>> {
    v.map_values(
        |r: Option<String>|
            match r {
                Some(t) => Some(t@),
                None => None,
            },
    )
}

/// The chunks with their replies settled. A chunk that was never answered stays
/// as it was.
pub open spec fn settled_all(
    chunks: Seq<Seq<char>>,
    replies: Seq<Option<Seq<char>>>,
) -> Seq<Seq<char>> {
    Seq::new(
        chunks.len(),
        |i: int|
            settled(
                chunks[i],
                if i < replies.len() {
                    replies[i]
                } else {
                    None
                },
            ),
    )
}

/// Settle one chunk: keep the reply if it is acceptable, and the chunk if it is
/// not or there is none.
pub fn settle_chunk(chunk: &str, reply: &Option<String>) -> (r: String)
    ensures
        r@ == settled(
            chunk@,
            match *reply {
                Some(t) => Some(t@),
                None => None,
            },
        ),
{
    match reply {
        Some(t) => {
            if accept_polish(chunk, t.as_str()) {
                return t.clone();
            }
        },
        None => {},
    }
    chunk.to_owned()
}

/// Put the polished transcript together from its chunks and the replies to
/// them.
pub fn assemble_polish(chunks: &[String], answers: &[Option<String>]) -> (r: String)
    ensures
        r@ == text::join(
            settled_all(text::texts(chunks@), replies(answers@)),
            "\n\n"@,
        ),
{
    let ghost cs = text::texts(chunks@);
    let ghost rs = replies(answers@);
    let mut out: Vec<Vec<char>> = Vec::new();
    for i in 0..chunks.len()
        invariant
            cs == text::texts(chunks@),
            rs == replies(answers@),
            text::rows(out@) == settled_all(cs, rs).take(i as int),
    {
        let none: Option<String> = None;
        let reply: &Option<String> = if i < answers.len() {
            &answers[i]
        } else {
            &none
        };
        let t = chars_of(settle_chunk(chunks[i].as_str(), reply).as_str());
        proof {
            assert(text::rows(out@.push(t)) =~= text::rows(out@).push(t@));
            assert(settled_all(cs, rs).take(i + 1) =~= settled_all(cs, rs).take(i as int).push(
                settled_all(cs, rs)[i as int],
            ));
        }
        out.push(t);
    }
    proof {
        assert(settled_all(cs, rs).take(cs.len() as int) =~= settled_all(cs, rs));
    }
    string_of(joined_rows(&out, chars_of("\n\n").as_slice()).as_slice())
}

// ---------- What the pass keeps ----------

proof fn lemma_packing(paras: Seq<Seq<char>>, budget: int)
    requires
        forall|i: int| 0 <= i < paras.len() ==> (#[trigger] paras[i]).len() > 0,
    ensures
        ({
            let p = packing(paras, budget);
            &&& paras.len() > 0 ==> p.open.len() > 0
            &&& paras.len() == 0 ==> p.open.len() == 0 && p.closed.len() == 0
            &&& text::join(all_chunks(p), "\n\n"@) == text::join(paras, "\n\n"@)
            &&& forall|i: int| 0 <= i < p.closed.len() ==> fits(paras, #[trigger] p.closed[i], budget)
            &&& p.open.len() > 0 ==> fits(paras, p.open, budget)
        }),
    decreases paras.len(),
{
    let sep = "\n\n"@;
    let p = packing(paras, budget);
    if paras.len() == 0 {
        assert(all_chunks(p) =~= seq![]);
        assert(paras =~= seq![]);
    } else {
        let front = paras.drop_last();
        let para = paras.last();
        lemma_packing(front, budget);
        let q = packing(front, budget);
        assert(paras =~= front.push(para));
        text::lemma_join_push(front, para, sep);
        text::lemma_join_push(q.closed, q.open, sep);
        text::lemma_join_push(q.closed, p.open, sep);
        text::lemma_join_push(q.closed.push(q.open), para, sep);
        assert forall|c: Seq<char>| fits(front, c, budget) implies #[trigger] fits(
            paras,
            c,
            budget,
        ) by {
            if front.contains(c) {
                let i = front.index_of(c);
                assert(paras[i] == c);
            }
        }
        assert(paras[paras.len() - 1] == para);
        assert(paras.contains(para));
        if q.open.len() > 0 && text::utf8_len(q.open) + text::utf8_len(para) + 2 <= budget {
            reveal_strlit("\n\n");
            lemma_utf8_len_concat(q.open, sep);
            lemma_utf8_len_concat(q.open + sep, para);
            lemma_utf8_len_gap();
            if q.closed.len() > 0 {
                let done = text::join(q.closed, sep) + sep;
                assert(done + (q.open + sep + para) =~= done + q.open + sep + para);
            }
        }
    }
}

proof fn lemma_utf8_len_concat(a: Seq<char>, b: Seq<char>)
    ensures
        text::utf8_len(a + b) == text::utf8_len(a) + text::utf8_len(b),
    decreases b.len(),
{
    if b.len() == 0 {
        assert(a + b =~= a);
    } else {
        lemma_utf8_len_concat(a, b.drop_last());
        assert((a + b).drop_last() =~= a + b.drop_last());
    }
}

proof fn lemma_utf8_len_gap()
    ensures
        text::utf8_len("\n\n"@) == 2,
{
    reveal_strlit("\n\n");
    reveal_with_fuel(text::utf8_len, 3);
    assert("\n\n"@.drop_last().drop_last() =~= seq![]);
}

/// The chunk is within the budget, or it is one of the paragraphs.
pub open spec fn fits(paras: Seq<Seq<char>>, chunk: Seq<char>, budget: int) -> bool {
    text::utf8_len(chunk) <= budget || paras.contains(chunk)
}

/// No paragraph is lost or cut: the chunks, joined again, are the paragraphs of
/// the text, joined.
pub proof fn chunks_lose_nothing(t: Seq<char>, budget: int)
    ensures
        text::join(chunks(t, budget), "\n\n"@) == text::join(text::paragraphs(t), "\n\n"@),
{
    text::lemma_nonblank(text::split(t, "\n\n"@));
    lemma_packing(text::paragraphs(t), budget);
}

/// Every chunk is within the budget, but for a paragraph that is larger and
/// stands alone.
pub proof fn chunks_fit(t: Seq<char>, budget: int, i: int)
    requires
        0 <= i < chunks(t, budget).len(),
    ensures
        fits(text::paragraphs(t), chunks(t, budget)[i], budget),
{
    text::lemma_nonblank(text::split(t, "\n\n"@));
    lemma_packing(text::paragraphs(t), budget);
}

/// What is known of a paragraph: it holds something, no blank line, and no
/// newline at its end.
pub open spec fn solid(p: Seq<char>) -> bool {
    &&& p.len() > 0
    &&& !text::contains(p, "\n\n"@)
    &&& p.last() != '\n'
}

proof fn lemma_solid(parts: Seq<Seq<char>>)
    requires
        forall|i: int| 0 <= i < parts.len() ==> !text::contains(#[trigger] parts[i], "\n\n"@),
    ensures
        forall|i: int|
            0 <= i < text::nonblank(parts).len() ==> solid(#[trigger] text::nonblank(parts)[i]),
    decreases parts.len(),
{
    let gap = "\n\n"@;
    if parts.len() > 0 {
        let front = parts.drop_last();
        assert forall|i: int| 0 <= i < front.len() implies !text::contains(
            #[trigger] front[i],
            gap,
        ) by {
            assert(front[i] == parts[i]);
        }
        lemma_solid(front);
        let part = parts[parts.len() - 1];
        assert(!text::contains(part, gap));
        let (a, b) = text::lemma_trim_inside(part);
        let p = text::trim(part);
        assert forall|j: int| !text::has_at(p, gap, j) by {
            if text::has_at(p, gap, j) {
                assert(p.subrange(j, j + gap.len()) =~= part.subrange(j + a, j + a + gap.len()));
                assert(text::has_at(part, gap, j + a));
            }
        }
        if p.len() > 0 {
            assert(p.last() == part[b - 1]);
            assert(solid(p));
        }
        let all = text::nonblank(parts);
        assert forall|i: int| 0 <= i < all.len() implies solid(#[trigger] all[i]) by {
            if i < text::nonblank(front).len() {
                assert(all[i] == text::nonblank(front)[i]);
            }
        }
    }
}

proof fn lemma_paragraphs_solid(t: Seq<char>)
    ensures
        forall|i: int|
            0 <= i < text::paragraphs(t).len() ==> solid(#[trigger] text::paragraphs(t)[i]),
{
    reveal_strlit("\n\n");
    text::lemma_split_parts(t, "\n\n"@);
    lemma_solid(text::split(t, "\n\n"@));
}

proof fn lemma_packing_full(paras: Seq<Seq<char>>, budget: int)
    requires
        forall|i: int| 0 <= i < paras.len() ==> solid(#[trigger] paras[i]),
    ensures
        ({
            let p = packing(paras, budget);
            let c = all_chunks(p);
            &&& paras.len() > 0 ==> p.open.len() > 0 && p.open.last() != '\n'
            &&& forall|i: int, j: int|
                0 <= i && j == i + 1 && j < c.len() ==> text::utf8_len(#[trigger] c[i]) + 2
                    + text::utf8_len(first_paragraph(#[trigger] c[j])) > budget
        }),
    decreases paras.len(),
{
    let gap = "\n\n"@;
    if paras.len() > 0 {
        let front = paras.drop_last();
        let para = paras[paras.len() - 1];
        assert forall|i: int| 0 <= i < front.len() implies solid(#[trigger] front[i]) by {
            assert(front[i] == paras[i]);
        }
        lemma_packing_full(front, budget);
        assert(solid(para));
        let q = packing(front, budget);
        let b = all_chunks(q);
        let c = all_chunks(packing(paras, budget));
        reveal_strlit("\n\n");
        text::lemma_find(para, gap);
        assert(first_paragraph(para) == para);
        if front.len() > 0 {
            let open = q.open;
            let more = open + gap + para;
            assert forall|j: int|
                open.len() - gap.len() < j < open.len() && 0 <= j implies !text::has_at(
                more,
                gap,
                j,
            ) by {
                assert(j == open.len() - 1);
                assert(more.subrange(j, j + 2)[0] == open[j]);
            }
            text::lemma_split_first(open, gap, para);
        }
        assert forall|i: int, j: int| 0 <= i && j == i + 1 && j < c.len() implies text::utf8_len(
            #[trigger] c[i],
        ) + 2 + text::utf8_len(first_paragraph(#[trigger] c[j])) > budget by {
            assert(c[i] == b[i]);
            if j < b.len() {
                assert(text::utf8_len(b[i]) + 2 + text::utf8_len(first_paragraph(b[j])) > budget);
            }
        }
    }
}

/// The first paragraph of a chunk.
pub open spec fn first_paragraph(chunk: Seq<char>) -> Seq<char> {
    text::split(chunk, "\n\n"@)[0]
}

/// No chunk has room for a blank line and the first paragraph of the next.
pub proof fn chunks_are_full(t: Seq<char>, budget: int, i: int)
    requires
        0 <= i < chunks(t, budget).len() - 1,
    ensures
        text::utf8_len(chunks(t, budget)[i]) + 2 + text::utf8_len(
            first_paragraph(chunks(t, budget)[i + 1]),
        ) > budget,
{
    lemma_paragraphs_solid(t);
    lemma_packing_full(text::paragraphs(t), budget);
}

/// The paragraphs can go into one chunk: they are within the budget together, or
/// there is only one.
pub open spec fn fits_together(paras: Seq<Seq<char>>, budget: int) -> bool {
    paras.len() == 1 || text::utf8_len(text::join(paras, "\n\n"@)) <= budget
}

proof fn lemma_fewest(paras: Seq<Seq<char>>, groups: Seq<Seq<Seq<char>>>, budget: int)
    requires
        forall|i: int| 0 <= i < paras.len() ==> (#[trigger] paras[i]).len() > 0,
        text::grouped(paras, groups),
        forall|i: int| 0 <= i < groups.len() ==> fits_together(#[trigger] groups[i], budget),
    ensures
        ({
            let p = packing(paras, budget);
            let n = all_chunks(p).len();
            &&& n <= groups.len()
            &&& n > 0 && n == groups.len() ==> text::utf8_len(p.open) <= text::utf8_len(
                text::join(groups.last(), "\n\n"@),
            )
        }),
    decreases paras.len(),
{
    let gap = "\n\n"@;
    if paras.len() > 0 {
        let front = paras.drop_last();
        let para = paras[paras.len() - 1];
        text::lemma_ungrouped(paras, groups);
        let last = groups[groups.len() - 1];
        let less = text::ungrouped(groups);
        let some = last.drop_last();
        assert(last =~= some.push(para));
        text::lemma_join_push(some, para, gap);
        let before = text::join(some, gap);
        lemma_utf8_len_gap();
        lemma_utf8_len_concat(before, gap);
        lemma_utf8_len_concat(before + gap, para);
        assert(fits_together(last, budget));
        assert forall|i: int| 0 <= i < front.len() implies (#[trigger] front[i]).len() > 0 by {
            assert(front[i] == paras[i]);
        }
        assert forall|i: int| 0 <= i < less.len() implies fits_together(
            #[trigger] less[i],
            budget,
        ) by {
            if i < groups.len() - 1 {
                assert(less[i] == groups[i]);
            }
        }
        lemma_fewest(front, less, budget);
        lemma_packing(front, budget);
        let open = packing(front, budget).open;
        lemma_utf8_len_concat(open, gap);
        lemma_utf8_len_concat(open + gap, para);
        assert(para.len() > 0);
    }
}

/// No way to put the paragraphs into chunks makes fewer chunks.
pub proof fn chunks_are_fewest(t: Seq<char>, budget: int, groups: Seq<Seq<Seq<char>>>)
    requires
        text::grouped(text::paragraphs(t), groups),
        forall|i: int| 0 <= i < groups.len() ==> fits_together(#[trigger] groups[i], budget),
    ensures
        chunks(t, budget).len() <= groups.len(),
{
    text::lemma_nonblank(text::split(t, "\n\n"@));
    lemma_fewest(text::paragraphs(t), groups, budget);
}

/// Where no reply is acceptable, polishing leaves every chunk as it was.
pub proof fn rejected_replies_change_nothing(
    chunks: Seq<Seq<char>>,
    answers: Seq<Option<Seq<char>>>,
)
    requires
        forall|i: int|
            0 <= i < chunks.len() && i < answers.len() ==> (#[trigger] answers[i] matches Some(t)
                ==> !acceptable(chunks[i], t)),
    ensures
        settled_all(chunks, answers) == chunks,
{
    assert(settled_all(chunks, answers) =~= chunks);
}

/// Polishing never lengthens a chunk, whatever the reply.
pub proof fn polishing_only_deletes(chunk: Seq<char>, reply: Option<Seq<char>>)
    ensures
        text::trim(settled(chunk, reply)).len() <= text::trim(chunk).len(),
{
}

/// A chunk that holds anything may be answered by itself.
pub proof fn unchanged_is_acceptable(chunk: Seq<char>)
    requires
        text::trim(chunk).len() > 0,
    ensures
        acceptable(chunk, chunk),
{
    lemma_count_trim(chunk);
}

proof fn lemma_count_trim(s: Seq<char>)
    ensures
        text::count(text::trim(s), CharClass::SentencePunctuation) == text::count(
            s,
            CharClass::SentencePunctuation,
        ),
{
    lemma_count_trim_front(s);
    lemma_count_trim_back(text::trim_front(s, CharClass::White));
}

proof fn lemma_count_trim_front(s: Seq<char>)
    ensures
        text::count(text::trim_front(s, CharClass::White), CharClass::SentencePunctuation)
            == text::count(s, CharClass::SentencePunctuation),
    decreases s.len(),
{
    if s.len() > 0 && CharClass::White.has(s[0]) {
        lemma_count_trim_front(s.skip(1));
        lemma_count_first(s);
    }
}

proof fn lemma_count_first(s: Seq<char>)
    requires
        s.len() > 0,
        !CharClass::SentencePunctuation.has(s[0]),
    ensures
        text::count(s.skip(1), CharClass::SentencePunctuation) == text::count(
            s,
            CharClass::SentencePunctuation,
        ),
    decreases s.len(),
{
    if s.len() == 1 {
        reveal_with_fuel(text::count, 2);
        assert(s.skip(1) =~= seq![]);
        assert(s.drop_last() =~= seq![]);
    } else {
        lemma_count_first(s.drop_last());
        assert(s.skip(1).drop_last() =~= s.drop_last().skip(1));
    }
}

proof fn lemma_count_trim_back(s: Seq<char>)
    ensures
        text::count(text::trim_back(s, CharClass::White), CharClass::SentencePunctuation)
            == text::count(s, CharClass::SentencePunctuation),
    decreases s.len(),
{
    if s.len() > 0 && CharClass::White.has(s.last()) {
        lemma_count_trim_back(s.drop_last());
    }
}

/// Polishing never loses more than a tenth of a chunk, whatever the reply: not
/// of its length between the blanks at its ends, and not of its punctuation.
pub proof fn polishing_keeps_nine_tenths(chunk: Seq<char>, reply: Option<Seq<char>>)
    ensures
        10 * text::trim(settled(chunk, reply)).len() >= 9 * text::trim(chunk).len(),
        10 * text::count(settled(chunk, reply), CharClass::SentencePunctuation) >= 9 * text::count(
            chunk,
            CharClass::SentencePunctuation,
        ),
{
    lemma_count_trim(chunk);
    if let Some(c) = reply {
        lemma_count_trim(c);
        text::lemma_trim_again(c);
    }
}

/// A reply is taken where it is not blank, no longer than the chunk, and short
/// by no more than a tenth of its length and of its punctuation.
pub proof fn repairs_are_taken(chunk: Seq<char>, reply: Seq<char>)
    requires
        0 < text::trim(reply).len() <= text::trim(chunk).len(),
        10 * text::trim(reply).len() >= 9 * text::trim(chunk).len(),
        10 * text::count(reply, CharClass::SentencePunctuation) >= 9 * text::count(
            chunk,
            CharClass::SentencePunctuation,
        ),
    ensures
        settled(chunk, Some(reply)) == reply,
{
    lemma_count_trim(chunk);
    lemma_count_trim(reply);
}

/// A chunk that was not answered, or was answered with nothing, stays as it was.
pub proof fn silence_changes_nothing(chunk: Seq<char>, reply: Seq<char>)
    requires
        forall|k: int| 0 <= k < reply.len() ==> chars::white(#[trigger] reply[k]),
    ensures
        settled(chunk, None) == chunk,
        settled(chunk, Some(reply)) == chunk,
{
    text::lemma_trim_blank(reply);
}

/// The polished transcript has one part for each chunk, in order: the chunk
/// itself, or the answer that was given to this chunk and to no other.
pub proof fn answers_stay_in_place(
    chunks: Seq<Seq<char>>,
    answers: Seq<Option<Seq<char>>>,
    i: int,
)
    requires
        0 <= i < chunks.len(),
    ensures
        settled_all(chunks, answers).len() == chunks.len(),
        settled_all(chunks, answers)[i] == chunks[i] || (i < answers.len() && answers[i] == Some(
            settled_all(chunks, answers)[i],
        )),
        i < answers.len() ==> settled_all(chunks, answers)[i] == settled(chunks[i], answers[i]),
        i >= answers.len() ==> settled_all(chunks, answers)[i] == chunks[i],
{
}

proof fn lemma_count_concat(a: Seq<char>, b: Seq<char>)
    ensures
        text::count(a + b, CharClass::SentencePunctuation) == text::count(
            a,
            CharClass::SentencePunctuation,
        ) + text::count(b, CharClass::SentencePunctuation),
    decreases b.len(),
{
    if b.len() == 0 {
        assert(a + b =~= a);
    } else {
        lemma_count_concat(a, b.drop_last());
        assert((a + b).drop_last() =~= a + b.drop_last());
    }
}

proof fn lemma_count_join(parts: Seq<Seq<char>>, last: Seq<char>)
    ensures
        text::count(text::join(parts.push(last), "\n\n"@), CharClass::SentencePunctuation)
            == text::count(text::join(parts, "\n\n"@), CharClass::SentencePunctuation)
            + text::count(last, CharClass::SentencePunctuation),
{
    let gap = "\n\n"@;
    text::lemma_join_push(parts, last, gap);
    if parts.len() == 0 {
        assert(text::join(parts, gap).len() == 0);
    } else {
        reveal_strlit("\n\n");
        lemma_count_concat(text::join(parts, gap) + gap, last);
        lemma_count_concat(text::join(parts, gap), gap);
        reveal_with_fuel(text::count, 3);
    }
}

/// Polishing a whole transcript never loses more than a tenth of its
/// punctuation, whatever the answers.
pub proof fn polished_transcript_keeps_punctuation(
    chunks: Seq<Seq<char>>,
    answers: Seq<Option<Seq<char>>>,
)
    ensures
        10 * text::count(
            text::join(settled_all(chunks, answers), "\n\n"@),
            CharClass::SentencePunctuation,
        ) >= 9 * text::count(text::join(chunks, "\n\n"@), CharClass::SentencePunctuation),
    decreases chunks.len(),
{
    let all = settled_all(chunks, answers);
    if chunks.len() == 0 {
        assert(all =~= chunks);
    } else {
        let front = chunks.drop_last();
        let n = front.len() as int;
        let fewer = if answers.len() > n {
            answers.take(n)
        } else {
            answers
        };
        polished_transcript_keeps_punctuation(front, fewer);
        assert(all.drop_last() =~= settled_all(front, fewer));
        assert(chunks =~= front.push(chunks.last()));
        assert(all =~= all.drop_last().push(all.last()));
        lemma_count_join(front, chunks.last());
        lemma_count_join(all.drop_last(), all.last());
        polishing_keeps_nine_tenths(
            chunks[n],
            if n < answers.len() {
                answers[n]
            } else {
                None
            },
        );
    }
}

/// Replies are read as they are, each in its place.
pub proof fn replies_are_read_in_place(v: Seq<Option<String>>, i: int)
    requires
        0 <= i < v.len(),
    ensures
        replies(v).len() == v.len(),
        v[i] matches Some(t) ==> replies(v)[i] == Some(t@),
        v[i] is None ==> replies(v)[i] is None,
{
}

/// A chunk takes no more bytes than the budget, unless it is one paragraph.
pub proof fn large_chunks_are_single_paragraphs(t: Seq<char>, budget: int, i: int)
    requires
        0 <= i < chunks(t, budget).len(),
        text::utf8_len(chunks(t, budget)[i]) > budget,
    ensures
        text::paragraphs(t).contains(chunks(t, budget)[i]),
{
    chunks_fit(t, budget, i);
}

} // verus!
