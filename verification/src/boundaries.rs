//! What a language model answers about chapter boundaries: the JSON object in
//! its reply, and the boundaries in it that count.
use crate::chars;
use crate::error::{AppError, AppResult};
use crate::model;
use crate::model::{Boundary, BoundaryView};
use crate::text;
use crate::text::{append_str, chars_of, copied, found_from, string_of, trimmed};
use vstd::prelude::*;
use vstd::slice::slice_subrange;

verus! {

// ---------- The JSON object in a reply ----------

/// How many characters it takes to close all braces, with `depth` of them open.
/// Braces inside quotes do not count, and a backslash inside quotes hides the
/// character behind it.
pub open spec fn closing(s: Seq<char>, depth: nat, quoted: bool, escaped: bool) -> Option<nat>
    decreases s.len(),
{
    if s.len() == 0 {
        None
    } else if !quoted && s[0] == '}' && depth <= 1 {
        Some(1)
    } else {
        let rest = s.skip(1);
        let more = if quoted {
            closing(rest, depth, escaped || s[0] != '"', !escaped && s[0] == '\\')
        } else if s[0] == '"' {
            closing(rest, depth, true, false)
        } else if s[0] == '{' {
            closing(rest, depth + 1, false, false)
        } else if s[0] == '}' {
            closing(rest, (depth - 1) as nat, false, false)
        } else {
            closing(rest, depth, false, false)
        };
        match more {
            Some(n) => Some(n + 1),
            None => None,
        }
    }
}

/// The text from the first opening brace to the one that closes it.
pub open spec fn json_object(s: Seq<char>) -> Option<Seq<char>> {
    match text::find(s, seq!['{']) {
        Some(i) => match closing(s.skip(i), 0, false, false) {
            Some(n) => Some(s.subrange(i, i + n)),
            None => None,
        },
        None => None,
    }
}

proof fn lemma_closing_len(s: Seq<char>, depth: nat, quoted: bool, escaped: bool)
    ensures
        closing(s, depth, quoted, escaped) matches Some(n) ==> 0 < n <= s.len() && s[n - 1] == '}',
    decreases s.len(),
{
    if s.len() > 0 && !(!quoted && s[0] == '}' && depth <= 1) {
        let rest = s.skip(1);
        lemma_closing_len(rest, depth, escaped || s[0] != '"', !escaped && s[0] == '\\');
        lemma_closing_len(rest, depth, true, false);
        lemma_closing_len(rest, depth + 1, false, false);
        lemma_closing_len(rest, depth, false, false);
        if depth > 0 {
            lemma_closing_len(rest, (depth - 1) as nat, false, false);
        }
    }
}

/// Find the first balanced object in braces in a text.
pub fn extract_json_object(s: &str) -> (r: Option<String>)
    ensures
        match r {
            Some(t) => json_object(s@) == Some(t@),
            None => json_object(s@) is None,
        },
{
    let all = chars_of(s);
    let n: usize = all.len();
    let mut brace: Vec<char> = Vec::new();
    brace.push('{');
    proof {
        assert(brace@ =~= seq!['{']);
        assert(all@.skip(0) =~= all@);
    }
    let start: usize = match found_from(all.as_slice(), brace.as_slice(), 0) {
        Some(i) => i,
        None => {
            return None;
        },
    };
    let ghost whole = closing(all@.skip(start as int), 0, false, false);
    let mut depth: usize = 0;
    let mut quoted = false;
    let mut escaped = false;
    let mut i: usize = start;
    while i < n
        invariant
            n == all@.len(),
            all@ == s@,
            text::find(s@, seq!['{']) == Some(start as int),
            start <= i <= n,
            depth <= i - start,
            quoted || !escaped,
            whole == closing(s@.skip(start as int), 0, false, false),
            match closing(all@.skip(i as int), depth as nat, quoted, escaped) {
                Some(k) => whole == Some((k + (i - start)) as nat),
                None => whole is None,
            },
        decreases n - i,
    {
        let c = all[i];
        proof {
            assert(all@.skip(i as int)[0] == c);
            assert(all@.skip(i as int).skip(1) =~= all@.skip(i + 1));
        }
        if quoted {
            quoted = escaped || c != '"';
            escaped = !escaped && c == '\\';
        } else if c == '"' {
            quoted = true;
        } else if c == '{' {
            depth = depth + 1;
        } else if c == '}' {
            if depth <= 1 {
                proof {
                    assert(all@.subrange(start as int, i + 1) =~= s@.subrange(
                        start as int,
                        start + (i + 1 - start),
                    ));
                }
                let part = slice_subrange(all.as_slice(), start, i + 1);
                return Some(string_of(part));
            }
            depth = depth - 1;
        }
        i = i + 1;
    }
    None
}

/// The first characters of a text, as an error message quotes them.
pub open spec fn quote(s: Seq<char>) -> Seq<char> {
    if s.len() <= 200 {
        s
    } else {
        s.take(200)
    }
}

fn quoted_start(s: &str) -> (r: Vec<char>)
    ensures
        r@ == quote(s@),
{
    let all = chars_of(s);
    if all.len() <= 200 {
        return all;
    }
    proof {
        assert(all@.subrange(0, 200) =~= all@.take(200));
    }
    copied(slice_subrange(all.as_slice(), 0, 200))
}

/// The JSON object of a reply, or the error that there is none.
pub fn json_part(raw: &str) -> (r: AppResult<String>)
    ensures
        match r {
            Ok(t) => json_object(raw@) == Some(t@),
            Err(e) => json_object(raw@) is None && (e matches AppError::Llm(m) && m@
                == "no JSON object in LLM output: "@ + quote(raw@)),
        },
{
    match extract_json_object(raw) {
        Some(t) => Ok(t),
        None => {
            let mut m = chars_of("no JSON object in LLM output: ");
            crate::text::append(&mut m, quoted_start(raw).as_slice());
            Err(AppError::Llm(string_of(m.as_slice())))
        },
    }
}

/// The error for an object that does not parse as a list of chapters.
pub fn parse_error(reason: &str, json: &str) -> (r: AppError)
    ensures
        r matches AppError::Llm(m) && m@ == "parse boundaries: "@ + reason@ + "; raw="@ + quote(
            json@,
        ),
{
    let mut m = chars_of("parse boundaries: ");
    append_str(&mut m, reason);
    append_str(&mut m, "; raw=");
    crate::text::append(&mut m, quoted_start(json).as_slice());
    AppError::Llm(string_of(m.as_slice()))
}

proof fn lemma_closing_prefix(
    s: Seq<char>,
    post: Seq<char>,
    depth: nat,
    quoted: bool,
    escaped: bool,
)
    requires
        closing(s, depth, quoted, escaped) is Some,
    ensures
        closing(s + post, depth, quoted, escaped) == closing(s, depth, quoted, escaped),
    decreases s.len(),
{
    assert((s + post)[0] == s[0]);
    if !(!quoted && s[0] == '}' && depth <= 1) {
        let rest = s.skip(1);
        assert((s + post).skip(1) =~= rest + post);
        if quoted {
            lemma_closing_prefix(
                rest,
                post,
                depth,
                escaped || s[0] != '"',
                !escaped && s[0] == '\\',
            );
        } else if s[0] == '"' {
            lemma_closing_prefix(rest, post, depth, true, false);
        } else if s[0] == '{' {
            lemma_closing_prefix(rest, post, depth + 1, false, false);
        } else if s[0] == '}' {
            lemma_closing_prefix(rest, post, (depth - 1) as nat, false, false);
        } else {
            lemma_closing_prefix(rest, post, depth, false, false);
        }
    }
}

proof fn lemma_closing_cut(
    s: Seq<char>,
    depth: nat,
    quoted: bool,
    escaped: bool,
)
    requires
        closing(s, depth, quoted, escaped) is Some,
    ensures
        closing(
            s.take(closing(s, depth, quoted, escaped)->0 as int),
            depth,
            quoted,
            escaped,
        ) == closing(s, depth, quoted, escaped),
    decreases s.len(),
{
    let n = closing(s, depth, quoted, escaped)->0 as int;
    lemma_closing_len(s, depth, quoted, escaped);
    let t = s.take(n);
    assert(t[0] == s[0]);
    if !(!quoted && s[0] == '}' && depth <= 1) {
        let rest = s.skip(1);
        assert(t.skip(1) =~= rest.take(n - 1));
        if quoted {
            lemma_closing_cut(rest, depth, escaped || s[0] != '"', !escaped && s[0] == '\\');
        } else if s[0] == '"' {
            lemma_closing_cut(rest, depth, true, false);
        } else if s[0] == '{' {
            lemma_closing_cut(rest, depth + 1, false, false);
        } else if s[0] == '}' {
            lemma_closing_cut(rest, (depth - 1) as nat, false, false);
        } else {
            lemma_closing_cut(rest, depth, false, false);
        }
    }
}

proof fn lemma_first_brace(s: Seq<char>, i: int)
    requires
        0 <= i < s.len(),
        s[i] == '{',
        forall|j: int| 0 <= j < i ==> s[j] != '{',
    ensures
        text::find(s, seq!['{']) == Some(i),
{
    let brace = seq!['{'];
    text::lemma_find(s, brace);
    assert(s.subrange(i, i + 1) =~= brace);
    assert(text::has_at(s, brace, i));
    let k = text::find(s, brace)->0;
    assert(text::has_at(s, brace, k));
    assert(s.subrange(k, k + 1)[0] == s[k]);
    assert(!(k < i)) by {
        if k < i {
            assert(s[k] != '{');
        }
    }
}

/// What is found begins with an opening brace, ends with a closing one, and is
/// found again in itself.
pub proof fn json_object_is_whole(s: Seq<char>)
    requires
        json_object(s) is Some,
    ensures
        ({
            let o = json_object(s)->0;
            &&& o.len() >= 2
            &&& o[0] == '{'
            &&& o.last() == '}'
            &&& text::contains(s, o)
            &&& json_object(o) == Some(o)
        }),
{
    let brace = seq!['{'];
    text::lemma_find(s, brace);
    let i = text::find(s, brace)->0;
    let t = s.skip(i);
    assert(s.subrange(i, i + 1)[0] == s[i]);
    assert(t[0] == '{');
    lemma_closing_len(t, 0, false, false);
    let n = closing(t, 0, false, false)->0 as int;
    let o = json_object(s)->0;
    assert(o =~= t.take(n));
    lemma_closing_cut(t, 0, false, false);
    assert(o[0] == '{');
    assert(o.last() == t[n - 1]);
    assert(text::has_at(s, o, i));
    lemma_first_brace(o, 0);
    assert(o.skip(0) =~= o);
    assert(o.subrange(0, n) =~= o);
}

/// Talk around the object does not matter: it is found behind any text without
/// an opening brace, and before any text at all.
pub proof fn talk_is_ignored(before: Seq<char>, o: Seq<char>, after: Seq<char>)
    requires
        json_object(o) == Some(o),
        forall|j: int| 0 <= j < before.len() ==> before[j] != '{',
    ensures
        json_object(before + o + after) == Some(o),
{
    lemma_whole_closes(o);
    let s = before + o + after;
    let i = before.len() as int;
    assert(s[i] == '{') by {
        json_object_is_whole(o);
        assert(s[i] == o[0]);
    }
    assert forall|j: int| 0 <= j < i implies s[j] != '{' by {
        assert(s[j] == before[j]);
    }
    lemma_first_brace(s, i);
    assert(s.skip(i) =~= o + after);
    lemma_closing_prefix(o, after, 0, false, false);
    assert(s.subrange(i, i + o.len()) =~= o);
}

proof fn lemma_whole_closes(o: Seq<char>)
    requires
        json_object(o) == Some(o),
    ensures
        closing(o, 0, false, false) == Some(o.len()),
{
    let brace = seq!['{'];
    text::lemma_find(o, brace);
    let i = text::find(o, brace)->0;
    let t = o.skip(i);
    lemma_closing_len(t, 0, false, false);
    let n = closing(t, 0, false, false)->0;
    assert(o.subrange(i, i + n).len() == n);
    assert(t =~= o);
}

/// The text holds no brace and no quote.
pub open spec fn unbraced(s: Seq<char>) -> bool {
    forall|i: int|
        0 <= i < s.len() ==> #[trigger] s[i] != '{' && s[i] != '}' && s[i] != '"'
}

/// So many characters more.
pub open spec fn further(n: Option<nat>, k: nat) -> Option<nat> {
    match n {
        Some(m) => Some((m + k) as nat),
        None => None,
    }
}

proof fn lemma_unbraced(a: Seq<char>, rest: Seq<char>, depth: nat)
    requires
        unbraced(a),
    ensures
        closing(a + rest, depth, false, false) == further(
            closing(rest, depth, false, false),
            a.len(),
        ),
    decreases a.len(),
{
    if a.len() == 0 {
        assert(a + rest =~= rest);
    } else {
        assert(a[0] != '{' && a[0] != '}' && a[0] != '"');
        let tail = a.skip(1);
        assert forall|i: int| 0 <= i < tail.len() implies #[trigger] tail[i] != '{' && tail[i]
            != '}' && tail[i] != '"' by {
            assert(tail[i] == a[i + 1]);
        }
        lemma_unbraced(tail, rest, depth);
        assert((a + rest).skip(1) =~= tail + rest);
    }
}

proof fn lemma_in_quotes(y: Seq<char>, rest: Seq<char>, depth: nat)
    requires
        forall|i: int| 0 <= i < y.len() ==> #[trigger] y[i] != '"' && y[i] != '\\',
    ensures
        closing(y + seq!['"'] + rest, depth, true, false) == further(
            closing(rest, depth, false, false),
            y.len() + 1,
        ),
    decreases y.len(),
{
    let s = y + seq!['"'] + rest;
    if y.len() == 0 {
        assert(s[0] == '"');
        assert(s.skip(1) =~= rest);
    } else {
        assert(y[0] != '"' && y[0] != '\\');
        let tail = y.skip(1);
        assert forall|i: int| 0 <= i < tail.len() implies #[trigger] tail[i] != '"' && tail[i]
            != '\\' by {
            assert(tail[i] == y[i + 1]);
        }
        lemma_in_quotes(tail, rest, depth);
        assert(s.skip(1) =~= tail + seq!['"'] + rest);
    }
}

proof fn lemma_nested(
    s: Seq<char>,
    rest: Seq<char>,
    k: nat,
    d: nat,
    quoted: bool,
    escaped: bool,
)
    requires
        k >= 1,
        d >= 1,
        closing(s, k, quoted, escaped) == Some(s.len()),
    ensures
        closing(s + rest, k + d, quoted, escaped) == further(
            closing(rest, d, false, false),
            s.len(),
        ),
    decreases s.len(),
{
    let u = s + rest;
    assert(u[0] == s[0]);
    let tail = s.skip(1);
    assert(u.skip(1) =~= tail + rest);
    if !quoted && s[0] == '}' && k <= 1 {
        assert(u.skip(1) =~= rest);
    } else if quoted {
        lemma_nested(tail, rest, k, d, escaped || s[0] != '"', !escaped && s[0] == '\\');
    } else if s[0] == '"' {
        lemma_nested(tail, rest, k, d, true, false);
    } else if s[0] == '{' {
        lemma_nested(tail, rest, k + 1, d, false, false);
    } else if s[0] == '}' {
        lemma_nested(tail, rest, (k - 1) as nat, d, false, false);
    } else {
        lemma_nested(tail, rest, k, d, false, false);
    }
}

proof fn lemma_opened(x: Seq<char>)
    requires
        closing(x, 1, false, false) == Some(x.len()),
    ensures
        json_object(seq!['{'] + x) == Some(seq!['{'] + x),
{
    let o = seq!['{'] + x;
    assert(o[0] == '{');
    lemma_first_brace(o, 0);
    assert(o.skip(0) =~= o);
    assert(o.skip(1) =~= x);
    assert(closing(o, 0, false, false) == Some(o.len()));
    assert(o.subrange(0, o.len() as int) =~= o);
}

proof fn lemma_last_brace()
    ensures
        closing(seq!['}'], 1, false, false) == Some(1nat),
{
}

/// An object in braces is found whole where there is no brace and no quote in it.
pub proof fn flat_objects_are_found_whole(a: Seq<char>)
    requires
        unbraced(a),
    ensures
        json_object("{"@ + a + "}"@) == Some("{"@ + a + "}"@),
{
    reveal_strlit("{");
    reveal_strlit("}");
    let end = seq!['}'];
    lemma_last_brace();
    lemma_unbraced(a, end, 1);
    lemma_opened(a + end);
    assert("{"@ + a + "}"@ =~= seq!['{'] + (a + end));
}

proof fn lemma_open_step(rest: Seq<char>, depth: nat)
    ensures
        closing(seq!['{'] + rest, depth, false, false) == further(
            closing(rest, depth + 1, false, false),
            1,
        ),
{
    let s = seq!['{'] + rest;
    assert(s[0] == '{');
    assert(s.skip(1) =~= rest);
}

proof fn lemma_whole_brace(o: Seq<char>)
    requires
        json_object(o) == Some(o),
    ensures
        o.len() > 0,
        o[0] == '{',
{
    json_object_is_whole(o);
}

proof fn lemma_inner_closing(o: Seq<char>, tail: Seq<char>)
    requires
        o.len() > 0,
        o[0] == '{',
        closing(o, 0, false, false) == Some(o.len()),
    ensures
        closing(o + tail, 1, false, false) == further(closing(tail, 1, false, false), o.len()),
{
    let inner = o.skip(1);
    assert(o =~= seq!['{'] + inner);
    lemma_open_step(inner, 0);
    lemma_nested(inner, tail, 1, 1, false, false);
    lemma_open_step(inner + tail, 1);
    assert(o + tail =~= seq!['{'] + (inner + tail));
}

proof fn lemma_inner_object(o: Seq<char>, tail: Seq<char>)
    requires
        json_object(o) == Some(o),
    ensures
        closing(o + tail, 1, false, false) == further(closing(tail, 1, false, false), o.len()),
{
    lemma_whole_brace(o);
    lemma_whole_closes(o);
    lemma_inner_closing(o, tail);
}

/// An object in braces is found whole with another object in it.
pub proof fn objects_are_found_whole(a: Seq<char>, o: Seq<char>, b: Seq<char>)
    requires
        unbraced(a),
        unbraced(b),
        json_object(o) == Some(o),
    ensures
        json_object("{"@ + a + o + b + "}"@) == Some("{"@ + a + o + b + "}"@),
{
    reveal_strlit("{");
    reveal_strlit("}");
    let end = seq!['}'];
    let tail = b + end;
    lemma_last_brace();
    lemma_unbraced(b, end, 1);
    lemma_inner_object(o, tail);
    lemma_unbraced(a, o + tail, 1);
    lemma_opened(a + (o + tail));
    assert("{"@ + a + o + b + "}"@ =~= seq!['{'] + (a + (o + tail)));
}

/// Braces between quotes do not count.
pub proof fn quoted_braces_do_not_count(a: Seq<char>, y: Seq<char>, b: Seq<char>)
    requires
        unbraced(a),
        unbraced(b),
        forall|i: int| 0 <= i < y.len() ==> #[trigger] y[i] != '"' && y[i] != '\\',
    ensures
        json_object("{"@ + a + "\""@ + y + "\""@ + b + "}"@) == Some(
            "{"@ + a + "\""@ + y + "\""@ + b + "}"@,
        ),
{
    reveal_strlit("{");
    reveal_strlit("}");
    reveal_strlit("\"");
    let end = seq!['}'];
    let mark = seq!['"'];
    lemma_last_brace();
    lemma_unbraced(b, end, 1);
    let tail = b + end;
    lemma_in_quotes(y, tail, 1);
    let text = mark + (y + mark + tail);
    assert(text[0] == '"');
    assert(text.skip(1) =~= y + mark + tail);
    assert(closing(text, 1, false, false) == Some(text.len()));
    lemma_unbraced(a, text, 1);
    lemma_opened(a + text);
    assert("{"@ + a + "\""@ + y + "\""@ + b + "}"@ =~= seq!['{'] + (a + text));
}

/// Between quotes a backslash hides the character behind it, be it a quote.
pub proof fn escapes_hide_one_character(c: char, rest: Seq<char>, depth: nat)
    ensures
        closing(seq!['\\', c] + rest, depth, true, false) == further(
            closing(rest, depth, true, false),
            2,
        ),
{
    let s = seq!['\\', c] + rest;
    assert(s.skip(1)[0] == c);
    assert(s.skip(1).skip(1) =~= rest);
    reveal_with_fuel(closing, 3);
}

/// Without an opening brace there is no object.
pub proof fn no_brace_no_object(s: Seq<char>)
    requires
        !s.contains('{'),
    ensures
        json_object(s) is None,
{
    let brace = seq!['{'];
    text::lemma_find(s, brace);
    if let Some(i) = text::find(s, brace) {
        assert(s.subrange(i, i + 1)[0] == s[i]);
        assert(s.contains('{'));
    }
}

/// An error message quotes the text from its start, whole up to two hundred
/// characters.
pub proof fn quotes_begin_the_text(s: Seq<char>)
    ensures
        quote(s).is_prefix_of(s),
        quote(s).len() == if s.len() <= 200 {
            s.len()
        } else {
            200
        },
{
}

// ---------- The boundaries that count ----------

/// A boundary with a page and a title.
pub open spec fn usable(b: BoundaryView) -> bool {
    b.start_page > 0 && text::trim(b.title).len() > 0
}

/// The first usable boundary of its page.
pub open spec fn is_first(bs: Seq<BoundaryView>, i: int) -> bool {
    &&& 0 <= i < bs.len()
    &&& usable(bs[i])
    &&& forall|j: int|
        0 <= j < i && usable(#[trigger] bs[j]) ==> bs[j].start_page != bs[i].start_page
}

/// Each boundary starts on a later page than the one before it.
pub open spec fn ascending(r: Seq<BoundaryView>) -> bool {
    forall|i: int, j: int|
        0 <= i < j < r.len() ==> (#[trigger] r[i]).start_page < (#[trigger] r[j]).start_page
}

/// The list holds the first usable boundary of each page and nothing else, in
/// the order of the pages.
pub open spec fn selected(bs: Seq<BoundaryView>, r: Seq<BoundaryView>) -> bool {
    &&& ascending(r)
    &&& forall|i: int| is_first(bs, i) ==> r.contains(#[trigger] bs[i])
    &&& forall|b: BoundaryView| #[trigger]
        r.contains(b) ==> exists|i: int| is_first(bs, i) && b == #[trigger] bs[i]
}

/// The place of a page in an ascending list, and whether it is there already.
fn place(out: &Vec<Boundary>, page: usize) -> (r: (usize, bool))
    requires
        ascending(model::boundaries(out@)),
    ensures
        r.0 <= out@.len(),
        forall|i: int| 0 <= i < r.0 ==> (#[trigger] model::boundaries(out@)[i]).start_page < page,
        forall|i: int|
            r.0 <= i < out@.len() ==> (#[trigger] model::boundaries(out@)[i]).start_page >= page,
        r.1 ==> r.0 < out@.len() && model::boundaries(out@)[r.0 as int].start_page == page,
        !r.1 ==> forall|i: int|
            0 <= i < out@.len() ==> (#[trigger] model::boundaries(out@)[i]).start_page != page,
{
    let ghost bs = model::boundaries(out@);
    let mut p: usize = 0;
    while p < out.len() && out[p].start_page < page
        invariant
            bs == model::boundaries(out@),
            p <= out@.len(),
            forall|i: int| 0 <= i < p ==> (#[trigger] bs[i]).start_page < page,
        decreases out@.len() - p,
    {
        p = p + 1;
    }
    let there = p < out.len() && out[p].start_page == page;
    proof {
        if p < out@.len() {
            assert(bs[p as int].start_page == out@[p as int].start_page);
        }
    }
    (p, there)
}

proof fn lemma_insert(es: Seq<BoundaryView>, p: int, new: BoundaryView)
    requires
        ascending(es),
        0 <= p <= es.len(),
        forall|i: int| 0 <= i < p ==> (#[trigger] es[i]).start_page < new.start_page,
        forall|i: int| p <= i < es.len() ==> (#[trigger] es[i]).start_page > new.start_page,
    ensures
        ascending(es.insert(p, new)),
        es.insert(p, new).contains(new),
        forall|g: BoundaryView| #[trigger]
            es.insert(p, new).contains(g) ==> es.contains(g) || g == new,
        forall|g: BoundaryView| #[trigger] es.contains(g) ==> es.insert(p, new).contains(g),
{
    let r = es.insert(p, new);
    assert forall|i: int, j: int| 0 <= i < j < r.len() implies (#[trigger] r[i]).start_page < (
    #[trigger] r[j]).start_page by {
        if i != p {
            assert(r[i] == es[if i < p {
                i
            } else {
                i - 1
            }]);
        }
        if j != p {
            assert(r[j] == es[if j < p {
                j
            } else {
                j - 1
            }]);
        }
    }
    assert(r[p] == new);
    assert forall|g: BoundaryView| #[trigger] r.contains(g) implies es.contains(g) || g == new by {
        let i = r.index_of(g);
        if i < p {
            assert(es[i] == g);
        } else if i > p {
            assert(es[i - 1] == g);
        }
    }
    assert forall|g: BoundaryView| #[trigger] es.contains(g) implies r.contains(g) by {
        let i = es.index_of(g);
        if i < p {
            assert(r[i] == g);
        } else {
            assert(r[i + 1] == g);
        }
    }
}

/// There is a first usable boundary for the page of every usable one.
proof fn lemma_some_first(bs: Seq<BoundaryView>, i: int) -> (j: int)
    requires
        0 <= i < bs.len(),
        usable(bs[i]),
    ensures
        0 <= j <= i,
        is_first(bs, j),
        bs[j].start_page == bs[i].start_page,
    decreases i,
{
    if is_first(bs, i) {
        i
    } else {
        let k = choose|k: int|
            0 <= k < i && usable(#[trigger] bs[k]) && bs[k].start_page == bs[i].start_page;
        lemma_some_first(bs, k)
    }
}

/// Keep the boundaries that count: with a page and a title, in the order of
/// their pages, and of several on one page the first.
pub fn select_boundaries(found: &[Boundary]) -> (r: Vec<Boundary>)
    ensures
        selected(model::boundaries(found@), model::boundaries(r@)),
{
    let ghost bs = model::boundaries(found@);
    let mut out: Vec<Boundary> = Vec::new();
    for i in 0..found.len()
        invariant
            bs == model::boundaries(found@),
            ascending(model::boundaries(out@)),
            forall|j: int|
                j < i && is_first(bs, j) ==> model::boundaries(out@).contains(#[trigger] bs[j]),
            forall|b: BoundaryView| #[trigger]
                model::boundaries(out@).contains(b) ==> exists|j: int|
                    j < i && is_first(bs, j) && b == #[trigger] bs[j],
    {
        let b: &Boundary = &found[i];
        let ghost es = model::boundaries(out@);
        let title = chars_of(b.title.as_str());
        let good = b.start_page > 0 && trimmed(title.as_slice()).len() > 0;
        assert(b@ == bs[i as int]);
        assert(good == usable(bs[i as int]));
        let (p, there) = place(&out, b.start_page);
        proof {
            if there {
                let old = es[p as int];
                assert(es.contains(old));
                let j = choose|j: int| j < i && is_first(bs, j) && old == #[trigger] bs[j];
                assert(!is_first(bs, i as int));
            } else if good && !is_first(bs, i as int) {
                let k = choose|k: int|
                    0 <= k < i && usable(#[trigger] bs[k]) && bs[k].start_page
                        == bs[i as int].start_page;
                let j = lemma_some_first(bs, k);
                assert(es.contains(bs[j]));
                let m = es.index_of(bs[j]);
                assert(es[m].start_page == b.start_page);
                assert(false);
            }
        }
        if good && !there {
            let ghost new = b@;
            out.insert(p, b.clone());
            proof {
                assert(model::boundaries(out@) =~= es.insert(p as int, new));
                lemma_insert(es, p as int, new);
                assert forall|g: BoundaryView| #[trigger]
                    model::boundaries(out@).contains(g) implies exists|j: int|
                    j < i + 1 && is_first(bs, j) && g == #[trigger] bs[j] by {
                    if g == new {
                        assert(g == bs[i as int]);
                    } else {
                        assert(es.contains(g));
                    }
                }
                assert forall|j: int| j < i + 1 && is_first(bs, j) implies model::boundaries(
                    out@,
                ).contains(#[trigger] bs[j]) by {
                    if j < i {
                        assert(es.contains(bs[j]));
                    }
                }
            }
        }
    }
    out
}

proof fn lemma_ascending_unique(a: Seq<BoundaryView>, b: Seq<BoundaryView>)
    requires
        ascending(a),
        ascending(b),
        forall|h: BoundaryView| #[trigger] a.contains(h) <==> b.contains(h),
    ensures
        a == b,
    decreases a.len(),
{
    if a.len() == 0 {
        if b.len() > 0 {
            assert(b.contains(b[0]));
            assert(a.contains(b[0]));
        }
        assert(a =~= b);
    } else {
        assert(a.contains(a.last()));
        assert(b.contains(a.last()));
        assert(b.contains(b.last()));
        assert(a.contains(b.last()));
        let i = a.index_of(b.last());
        let j = b.index_of(a.last());
        assert(a[i] == b.last() && b[j] == a.last());
        let x = a.drop_last();
        let y = b.drop_last();
        assert forall|h: BoundaryView| #[trigger] x.contains(h) <==> y.contains(h) by {
            if x.contains(h) {
                let k = x.index_of(h);
                assert(a[k] == h);
                assert(a.contains(h));
                let m = b.index_of(h);
                assert(b[m] == h);
                assert(y[m] == h);
            }
            if y.contains(h) {
                let k = y.index_of(h);
                assert(b[k] == h);
                assert(b.contains(h));
                assert(a.contains(h));
                let m = a.index_of(h);
                assert(a[m] == h);
                assert(x[m] == h);
            }
        }
        lemma_ascending_unique(x, y);
        assert(a =~= x.push(a.last()));
        assert(b =~= y.push(b.last()));
    }
}

/// There is only one selection.
pub proof fn selected_is_unique(
    bs: Seq<BoundaryView>,
    a: Seq<BoundaryView>,
    b: Seq<BoundaryView>,
)
    requires
        selected(bs, a),
        selected(bs, b),
    ensures
        a == b,
{
    assert forall|h: BoundaryView| #[trigger] a.contains(h) <==> b.contains(h) by {
        if a.contains(h) {
            let i = choose|i: int| is_first(bs, i) && h == #[trigger] bs[i];
            assert(b.contains(bs[i]));
        }
        if b.contains(h) {
            let i = choose|i: int| is_first(bs, i) && h == #[trigger] bs[i];
            assert(a.contains(bs[i]));
        }
    }
    lemma_ascending_unique(a, b);
}

/// Every page that a usable boundary names has a boundary in the selection, and
/// every boundary in it is usable.
pub proof fn selected_covers_each_page(
    bs: Seq<BoundaryView>,
    r: Seq<BoundaryView>,
    i: int,
) -> (k: int)
    requires
        selected(bs, r),
        0 <= i < bs.len(),
        usable(bs[i]),
    ensures
        0 <= k < r.len(),
        r[k].start_page == bs[i].start_page,
        forall|m: int| 0 <= m < r.len() ==> usable(#[trigger] r[m]),
{
    let j = lemma_some_first(bs, i);
    assert(r.contains(bs[j]));
    assert forall|m: int| 0 <= m < r.len() implies usable(#[trigger] r[m]) by {
        assert(r.contains(r[m]));
    }
    r.index_of(bs[j])
}

/// Selecting a second time changes nothing.
pub proof fn selected_again(bs: Seq<BoundaryView>, r: Seq<BoundaryView>)
    requires
        selected(bs, r),
    ensures
        selected(r, r),
{
    assert forall|i: int| 0 <= i < r.len() implies is_first(r, i) && #[trigger] r.contains(
        r[i],
    ) by {
        assert(r.contains(r[i]));
    }
    assert forall|b: BoundaryView| #[trigger] r.contains(b) implies exists|i: int|
        is_first(r, i) && b == #[trigger] r[i] by {
        let i = r.index_of(b);
        assert(r.contains(r[i]));
        assert(is_first(r, i) && b == r[i]);
    }
}

/// Every page from the first on that is named together with a title has a
/// chapter: the selection holds the first such boundary of that page as it is.
pub proof fn titled_pages_start_chapters(
    bs: Seq<BoundaryView>,
    r: Seq<BoundaryView>,
    i: int,
    c: int,
) -> (k: int)
    requires
        selected(bs, r),
        0 <= i < bs.len(),
        bs[i].start_page >= 1,
        0 <= c < bs[i].title.len(),
        !chars::white(bs[i].title[c]),
    ensures
        0 <= k < r.len(),
        r[k].start_page == bs[i].start_page,
        (forall|j: int|
            0 <= j < i && (#[trigger] bs[j]).start_page == bs[i].start_page ==> forall|d: int|
                0 <= d < bs[j].title.len() ==> chars::white(#[trigger] bs[j].title[d]))
            ==> r[k] == bs[i],
{
    text::lemma_trim_blank(bs[i].title);
    let j = lemma_some_first(bs, i);
    assert(r.contains(bs[j]));
    text::lemma_trim_blank(bs[j].title);
    r.index_of(bs[j])
}

/// A list that is in order already, from page one on and with a title
/// everywhere, is selected as a whole.
pub proof fn good_boundaries_are_kept(bs: Seq<BoundaryView>, r: Seq<BoundaryView>)
    requires
        selected(bs, r),
        forall|i: int|
            0 <= i < bs.len() ==> (#[trigger] bs[i]).start_page >= 1 && exists|c: int|
                0 <= c < bs[i].title.len() && !chars::white(#[trigger] bs[i].title[c]),
        forall|i: int, j: int|
            0 <= i < j < bs.len() ==> (#[trigger] bs[i]).start_page < (
            #[trigger] bs[j]).start_page,
    ensures
        r == bs,
{
    assert forall|i: int| 0 <= i < bs.len() implies is_first(bs, i) && #[trigger] bs.contains(
        bs[i],
    ) by {
        text::lemma_trim_blank(bs[i].title);
    }
    assert(selected(bs, bs)) by {
        assert forall|b: BoundaryView| #[trigger] bs.contains(b) implies exists|i: int|
            is_first(bs, i) && b == #[trigger] bs[i] by {
            let i = bs.index_of(b);
            assert(bs.contains(bs[i]));
        }
        assert forall|i: int| is_first(bs, i) implies bs.contains(#[trigger] bs[i]) by {}
    }
    selected_is_unique(bs, bs, r);
}

/// Nothing is made up: every selected boundary is one of the list, on page one
/// or later, with a title that is not blank, and no page has two.
pub proof fn selected_boundaries_are_found(
    bs: Seq<BoundaryView>,
    r: Seq<BoundaryView>,
    k: int,
)
    requires
        selected(bs, r),
        0 <= k < r.len(),
    ensures
        bs.contains(r[k]),
        r[k].start_page >= 1,
        exists|c: int| 0 <= c < r[k].title.len() && !chars::white(#[trigger] r[k].title[c]),
        forall|m: int| k < m < r.len() ==> r[k].start_page < (#[trigger] r[m]).start_page,
{
    assert(r.contains(r[k]));
    let i = choose|i: int| is_first(bs, i) && r[k] == #[trigger] bs[i];
    assert(bs.contains(bs[i]));
    text::lemma_trim_blank(r[k].title);
}

} // verus!
