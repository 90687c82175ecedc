//! The text patterns of the library, and the regular expression engine that
//! applies them.
use crate::chars;
use crate::chars::CharClass;
use crate::text;
use crate::text::{chars_of, string_of};
use vstd::prelude::*;

verus! {

/// A line that holds nothing but a page number.
pub const FOLIO: &'static str = r"^\s*\d{1,4}\s*$";

/// A run of two or more blanks.
pub const MULTISPACE: &'static str = r"[ \t]{2,}";

/// Whitespace before a punctuation mark that takes none.
pub const SPACE_PUNCT: &'static str = r"\s+([,.;:!?])";

/// A page number at the front of a line.
pub const LEAD_FOLIO: &'static str = r"^\s*\d{1,4}\s*";

/// A page number at the end of a line.
pub const TRAIL_FOLIO: &'static str = r"\s*\d{1,4}\s*$";

/// A block of footnotes: a note number, then a capital letter.
pub const FOOTNOTE_BLOCK: &'static str = r"^\s*\d{1,3}\.\s+\p{Lu}";

/// What a bibliography entry may begin with: a capital letter, or the dashes
/// that stand for a repeated author.
pub const BIBLIO_START: &'static str = r"^\s*(—{2,}\.|\p{Lu})";

/// Publication data, which marks a block as a list of references.
pub const BIBLIO_SIGNATURE: &'static str = r"(Translated by |\btrans\.\s\p{Lu}|edited by |\bed\.\s\p{Lu}\.|\b\p{Lu}[\w.]*:\s+\p{Lu}[\w&. ]+,\s+\d{4})";

/// A reference to a footnote behind the end of a sentence or a closing quote.
/// The first group is the mark it is glued to, the second what follows it.
pub const INLINE_NOTE_REF: &'static str = r#"([.!?”’"'])\s?\d{1,2}(\s|[A-Z“'(]|$)"#;

/// A heading with a structural keyword: a number after "chapter", "part" and
/// the like, or a word such as "introduction", then at most a short title.
pub const HEADING: &'static str = r"(?ix)
        ^\s*
        (
          (chapter|book|part|section|canto|letter)     # structural keyword
          \s+
          (                                            # …followed by a NUMBER:
              [0-9]{1,3}                               #   arabic (1, 42)
            | [ivxlcdm]{1,7}                           #   roman (I, IV, XII)
            | (one|two|three|four|five|six|seven|eight|nine|ten|eleven|twelve|
               thirteen|fourteen|fifteen|sixteen|seventeen|eighteen|nineteen|twenty|
               first|second|third|fourth|fifth|sixth|seventh|eighth|ninth|tenth|
               last|final)                             #   spelled-out cardinal/ordinal
          )
          \b
          |
          (introduction|prologue|epilogue|preface|foreword|conclusion|prelude|afterword)
        )
        [.\):\s]*                                       # optional separators
        (.{0,80})?                                      # optional inline title
        $
        ";

/// The patterns above. Each is a valid regular expression.
pub open spec fn known(pattern: Seq<char>) -> bool {
    ||| pattern == FOLIO@
    ||| pattern == MULTISPACE@
    ||| pattern == SPACE_PUNCT@
    ||| pattern == LEAD_FOLIO@
    ||| pattern == TRAIL_FOLIO@
    ||| pattern == FOOTNOTE_BLOCK@
    ||| pattern == BIBLIO_START@
    ||| pattern == BIBLIO_SIGNATURE@
    ||| pattern == INLINE_NOTE_REF@
    ||| pattern == HEADING@
}

/// The text with each run of two or more blanks replaced by one space.
pub open spec fn collapse(s: Seq<char>) -> Seq<char>
    decreases s.len(),
    via collapse_decreases
{
    if s.len() == 0 {
        s
    } else if s.len() >= 2 && CharClass::Blank.has(s[0]) && CharClass::Blank.has(s[1]) {
        seq![' '] + collapse(text::trim_front(s, CharClass::Blank))
    } else {
        seq![s[0]] + collapse(s.skip(1))
    }
}

#[via_fn]
proof fn collapse_decreases(s: Seq<char>) {
    if s.len() > 0 && CharClass::Blank.has(s[0]) {
        text::lemma_trim_front_len(s.skip(1), CharClass::Blank);
    }
}

/// The text without the whitespace that stands before a punctuation mark.
pub open spec fn tighten(s: Seq<char>) -> Seq<char>
    decreases s.len(),
{
    if s.len() == 0 {
        s
    } else {
        let next = text::trim_front(s, CharClass::White);
        if CharClass::White.has(s[0]) && next.len() > 0 && CharClass::TightPunctuation.has(
            next[0],
        ) {
            tighten(s.skip(1))
        } else {
            seq![s[0]] + tighten(s.skip(1))
        }
    }
}

/// How many ASCII digits the text begins with, counted up to `most`.
pub open spec fn digits_front(s: Seq<char>, most: nat) -> nat
    decreases most,
{
    if most == 0 || s.len() == 0 || !chars::ascii_digit(s[0]) {
        0
    } else {
        1 + digits_front(s.skip(1), (most - 1) as nat)
    }
}

/// How many ASCII digits the text ends with.
pub open spec fn digits_back(s: Seq<char>) -> nat
    decreases s.len(),
{
    if s.len() == 0 || !chars::ascii_digit(s.last()) {
        0
    } else {
        1 + digits_back(s.drop_last())
    }
}

/// In such a text only the ten ASCII digits are decimal digits: its characters
/// stand below U+0660, where the Arabic digits begin, or among the general
/// punctuation.
pub open spec fn plain(s: Seq<char>) -> bool {
    forall|i: int|
        0 <= i < s.len() ==> (#[trigger] s[i] < '\u{660}' || '\u{2000}' <= s[i] <= '\u{206f}')
}

/// The plain text is a page number: one to four digits, and whitespace around
/// them.
pub open spec fn page_number(s: Seq<char>) -> bool {
    let t = text::trim(s);
    0 < t.len() <= 4 && digits_back(t) == t.len()
}

/// The plain text without the page number at its front, if there is one: up to
/// four digits and the whitespace around them.
pub open spec fn off_number_front(s: Seq<char>) -> Seq<char> {
    let t = text::trim_front(s, CharClass::White);
    let n = digits_front(t, 4);
    if n == 0 {
        s
    } else {
        text::trim_front(t.skip(n as int), CharClass::White)
    }
}

/// The plain text without the page number at its end, if there is one: up to
/// four digits and the whitespace around them.
pub open spec fn off_number_back(s: Seq<char>) -> Seq<char> {
    let t = text::trim_back(s, CharClass::White);
    let n = digits_back(t);
    if n == 0 {
        s
    } else if n <= 4 {
        text::trim_back(t.take(t.len() - n), CharClass::White)
    } else {
        t.take(t.len() - 4)
    }
}

/// The typeset text begins like a list of footnotes: one to three digits, a
/// period, whitespace and a capital letter.
pub open spec fn numbered_note(s: Seq<char>) -> bool {
    let t = text::trim_front(s, CharClass::White);
    let n = digits_front(t, 3);
    let u = t.skip(n as int + 1);
    let v = text::trim_front(u, CharClass::White);
    &&& n > 0
    &&& n < t.len()
    &&& t[n as int] == '.'
    &&& v.len() < u.len()
    &&& v.len() > 0
    &&& chars::ascii_upper(v[0])
}

/// The typeset text begins like a bibliography entry: with a capital letter, or
/// with two dashes at least and a period.
pub open spec fn entry_start(s: Seq<char>) -> bool {
    let t = text::trim_front(s, CharClass::White);
    let n = run(t, |c: char| c == '—');
    ||| t.len() > 0 && chars::ascii_upper(t[0])
    ||| 2 <= n < t.len() && t[n] == '.'
}

/// A mark to which a reference to a footnote is glued.
pub open spec fn note_anchor(c: char) -> bool {
    c == '.' || c == '!' || c == '?' || c == '”' || c == '’' || c == '"' || c == '\''
}

/// A character that may follow a reference to a footnote.
pub open spec fn note_end(c: char) -> bool {
    chars::white(c) || chars::ascii_upper(c) || c == '“' || c == '\'' || c == '('
}

/// Where the reference to a footnote with which the plain text begins ends: a
/// mark, perhaps one whitespace character, and a number of one or two digits
/// which ends the text or has a fit character behind it.
pub open spec fn note_ref(s: Seq<char>) -> Option<int> {
    let n: int = if s.len() > 1 && chars::white(s[1]) {
        2
    } else {
        1
    };
    let d = digits_front(s.skip(n), 3);
    let e = n + d;
    if s.len() > 0 && note_anchor(s[0]) && 1 <= d <= 2 && (e == s.len() || note_end(s[e])) {
        Some(e)
    } else {
        None
    }
}

/// The plain text without its references to footnotes. Of each only the mark
/// before it and the character behind it stay, and the search goes on behind
/// these.
pub open spec fn without_notes(s: Seq<char>) -> Seq<char>
    decreases s.len(),
{
    if s.len() == 0 {
        s
    } else {
        match note_ref(s) {
            Some(e) => if 0 < e < s.len() {
                seq![s[0], s[e]] + without_notes(s.skip(e + 1))
            } else {
                seq![s[0]]
            },
            None => seq![s[0]] + without_notes(s.skip(1)),
        }
    }
}

/// An ASCII character that belongs to a word.
pub open spec fn word_char(c: char) -> bool {
    chars::ascii_digit(c) || chars::ascii_lower(c) || chars::ascii_upper(c) || c == '_'
}

/// A character that may stand between a heading's number and its title.
pub open spec fn separator(c: char) -> bool {
    c == '.' || c == ')' || c == ':' || chars::white(c)
}

/// How many characters of the kind the text begins with.
pub open spec fn run(s: Seq<char>, kind: spec_fn(char) -> bool) -> int
    decreases s.len(),
{
    if s.len() == 0 || !kind(s[0]) {
        0
    } else {
        1 + run(s.skip(1), kind)
    }
}

/// The word, in lowercase, names a part of a book that takes a number.
pub open spec fn structural(w: Seq<char>) -> bool {
    w == "chapter"@ || w == "book"@ || w == "part"@ || w == "section"@ || w == "canto"@ || w
        == "letter"@
}

/// The word, in lowercase, names a part of a book by itself.
pub open spec fn standing(w: Seq<char>) -> bool {
    w == "introduction"@ || w == "prologue"@ || w == "epilogue"@ || w == "preface"@ || w
        == "foreword"@ || w == "conclusion"@ || w == "prelude"@ || w == "afterword"@
}

/// The word, in lowercase, is a number that is spelled out.
pub open spec fn spelled(w: Seq<char>) -> bool {
    ||| w == "one"@ || w == "two"@ || w == "three"@ || w == "four"@ || w == "five"@
    ||| w == "six"@ || w == "seven"@ || w == "eight"@ || w == "nine"@ || w == "ten"@
    ||| w == "eleven"@ || w == "twelve"@ || w == "thirteen"@ || w == "fourteen"@
    ||| w == "fifteen"@ || w == "sixteen"@ || w == "seventeen"@ || w == "eighteen"@
    ||| w == "nineteen"@ || w == "twenty"@ || w == "first"@ || w == "second"@
    ||| w == "third"@ || w == "fourth"@ || w == "fifth"@ || w == "sixth"@ || w == "seventh"@
    ||| w == "eighth"@ || w == "ninth"@ || w == "tenth"@ || w == "last"@ || w == "final"@
}

/// The letter, in lowercase, is a Roman digit.
pub open spec fn roman(c: char) -> bool {
    c == 'i' || c == 'v' || c == 'x' || c == 'l' || c == 'c' || c == 'd' || c == 'm'
}

/// The word, in lowercase, is the number of a part of a book: up to three
/// digits, up to seven Roman digits, or spelled out.
pub open spec fn part_number(w: Seq<char>) -> bool {
    ||| 0 < w.len() <= 3 && run(w, |c: char| chars::ascii_digit(c)) == w.len()
    ||| 0 < w.len() <= 7 && run(w, |c: char| roman(c)) == w.len()
    ||| spelled(w)
}

/// What may follow a heading's keyword: separators, and a title of at most
/// eighty characters on the same line.
pub open spec fn short_title(s: Seq<char>) -> bool {
    let t = s.skip(run(s, |c: char| separator(c)));
    t.len() <= 80 && !t.contains('\n')
}

/// The typeset text is a heading: a keyword and a number, or a word that stands
/// by itself, and at most a short title.
pub open spec fn keyword_heading(s: Seq<char>) -> bool {
    let word = |c: char| word_char(c);
    let t = text::ascii_lower(text::trim_front(s, CharClass::White));
    let n = run(t, word);
    let u = text::trim_front(t.skip(n), CharClass::White);
    let m = run(u, word);
    ||| {
        &&& structural(t.take(n))
        &&& u.len() < t.len() - n
        &&& part_number(u.take(m))
        &&& short_title(u.skip(m))
    }
    ||| exists|k: int| 0 <= k <= t.len() && standing(#[trigger] t.take(k)) && short_title(t.skip(k))
}

/// No word goes on across the position.
pub open spec fn word_starts(s: Seq<char>, i: int) -> bool {
    i == 0 || !word_char(s[i - 1])
}

/// The text has a whitespace character at the position, and a capital letter
/// behind it.
pub open spec fn spaced_capital(s: Seq<char>, i: int) -> bool {
    i + 1 < s.len() && chars::white(s[i]) && chars::ascii_upper(s[i + 1])
}

/// The typeset text begins with a place, a publisher and a year, such as
/// "London: Faber & Sons, 1999".
pub open spec fn colophon(s: Seq<char>) -> bool {
    let n = 1 + run(s.skip(1), |c: char| word_char(c) || c == '.');
    let place = s.skip(n + 1);
    let t = text::trim_front(place, CharClass::White);
    let m = 1 + run(t.skip(1), |c: char| word_char(c) || c == '&' || c == '.' || c == ' ');
    let comma = t.skip(m + 1);
    let year = text::trim_front(comma, CharClass::White);
    &&& n < s.len() && chars::ascii_upper(s[0]) && s[n] == ':'
    &&& 0 < t.len() < place.len() && chars::ascii_upper(t[0])
    &&& 1 < m < t.len() && t[m] == ','
    &&& year.len() < comma.len() && digits_front(year, 4) == 4
}

/// The typeset text holds publication data at the position.
pub open spec fn signed_at(s: Seq<char>, i: int) -> bool {
    ||| text::has_at(s, "Translated by "@, i)
    ||| text::has_at(s, "edited by "@, i)
    ||| word_starts(s, i) && text::has_at(s, "trans."@, i) && spaced_capital(s, i + 6)
    ||| word_starts(s, i) && text::has_at(s, "ed."@, i) && spaced_capital(s, i + 3) && i + 5
        < s.len() && s[i + 5] == '.'
    ||| word_starts(s, i) && colophon(s.skip(i))
}

/// The typeset text holds publication data.
pub open spec fn signed_text(s: Seq<char>) -> bool {
    exists|i: int| 0 <= i < s.len() && #[trigger] signed_at(s, i)
}

// ---------- The engine ----------

/// Whether a regular expression matches somewhere in a text.
pub uninterp spec fn matches(pattern: Seq<char>, text: Seq<char>) -> bool;

/// The text after the first match of a regular expression in it is replaced.
pub uninterp spec fn replace(pattern: Seq<char>, text: Seq<char>, with: Seq<char>) -> Seq<char>;

/// The text after all matches of a regular expression in it are replaced.
pub uninterp spec fn replace_all(
    pattern: Seq<char>,
    text: Seq<char>,
    with: Seq<char>,
) -> Seq<char>;

/// `regex::Regex::new` and `regex::Regex::is_match`: the answer depends on the
/// pattern and the text alone. The patterns of this module all compile. Of a
/// text of ASCII characters, quotation marks and dashes the answer is known in
/// full for those that are matched: there a digit is one of ten, a capital
/// letter one of twenty-six, a letter has one other case, the marks and dashes
/// belong to no word, and the anchors stand for the ends of the text. For page
/// numbers it is enough that the text has no other digits.
#[verifier::external_body]
fn regex_is_match(pattern: &str, text: &str) -> (r: bool)
    requires
        known(pattern@),
    ensures
        r == matches(pattern@, text@),
        pattern@ == FOLIO@ && plain(text@) ==> r == page_number(text@),
        pattern@ == FOOTNOTE_BLOCK@ && text::all_typeset(text@) ==> r == numbered_note(text@),
        pattern@ == BIBLIO_START@ && text::all_typeset(text@) ==> r == entry_start(text@),
        pattern@ == BIBLIO_SIGNATURE@ && text::all_typeset(text@) ==> r == signed_text(text@),
        pattern@ == HEADING@ && text::all_typeset(text@) ==> r == keyword_heading(text@),
{
    regex::Regex::new(pattern).unwrap().is_match(text)
}

/// `regex::Regex::new` and `regex::Regex::replace`: the result depends on the
/// pattern, the text and the replacement alone. A text in which the pattern
/// does not match comes back as it was. The result is made of characters of the
/// text and the replacement, so there is no newline in it if neither has one.
/// The first match starts as far to the
/// left as any and is as long as it can be from there, so with nothing in its
/// place the result is known in full for the page numbers of a text that has no
/// digits but the ASCII ones.
#[verifier::external_body]
fn regex_replace(pattern: &str, text: &str, with: &str) -> (r: String)
    requires
        known(pattern@),
    ensures
        r@ == replace(pattern@, text@, with@),
        !matches(pattern@, text@) ==> r@ == text@,
        text::free(text@, CharClass::Newline) && text::free(with@, CharClass::Newline)
            ==> text::free(r@, CharClass::Newline),
        pattern@ == LEAD_FOLIO@ && with@ == ""@ && plain(text@) ==> r@
            == off_number_front(text@),
        pattern@ == TRAIL_FOLIO@ && with@ == ""@ && plain(text@) ==> r@
            == off_number_back(text@),
{
    regex::Regex::new(pattern).unwrap().replace(text, with).into_owned()
}

/// `regex::Regex::new` and `regex::Regex::replace_all`: the result depends on
/// the pattern, the text and the replacement alone. A text in which the
/// pattern does not match comes back as it was. The result is made of characters
/// of the text and the replacement, so there is no newline in it if neither has
/// one. Matches are taken from left to
/// right and as long as they can be, so for three of the patterns the result is
/// known in full: `MULTISPACE` with a space collapses runs of blanks,
/// `SPACE_PUNCT` with its own group drops the whitespace before punctuation, and
/// `INLINE_NOTE_REF` with its groups drops the references to footnotes from a
/// text that has no digits but the ASCII ones.
#[verifier::external_body]
fn regex_replace_all(pattern: &str, text: &str, with: &str) -> (r: String)
    requires
        known(pattern@),
    ensures
        r@ == replace_all(pattern@, text@, with@),
        !matches(pattern@, text@) ==> r@ == text@,
        text::free(text@, CharClass::Newline) && text::free(with@, CharClass::Newline)
            ==> text::free(r@, CharClass::Newline),
        pattern@ == MULTISPACE@ && with@ == " "@ ==> r@ == collapse(text@),
        pattern@ == SPACE_PUNCT@ && with@ == "$1"@ ==> r@ == tighten(text@),
        pattern@ == INLINE_NOTE_REF@ && with@ == "$1$2"@ && plain(text@) ==> r@ == without_notes(
            text@,
        ),
{
    regex::Regex::new(pattern).unwrap().replace_all(text, with).into_owned()
}

/// The text is a page number, and nothing else.
pub open spec fn folio(s: Seq<char>) -> bool {
    if plain(s) {
        page_number(s)
    } else {
        matches(FOLIO@, s)
    }
}

/// The text begins like a list of footnotes.
pub open spec fn footnote(s: Seq<char>) -> bool {
    if text::all_typeset(s) {
        numbered_note(s)
    } else {
        matches(FOOTNOTE_BLOCK@, s)
    }
}

/// The text begins like a bibliography entry.
pub open spec fn biblio_start(s: Seq<char>) -> bool {
    if text::all_typeset(s) {
        entry_start(s)
    } else {
        matches(BIBLIO_START@, s)
    }
}

/// The text holds publication data.
pub open spec fn biblio_signed(s: Seq<char>) -> bool {
    if text::all_typeset(s) {
        signed_text(s)
    } else {
        matches(BIBLIO_SIGNATURE@, s)
    }
}

/// The text is a heading with a structural keyword.
pub open spec fn heading(s: Seq<char>) -> bool {
    if text::all_typeset(s) {
        keyword_heading(s)
    } else {
        matches(HEADING@, s)
    }
}

/// The text without its references to footnotes.
pub open spec fn note_free(s: Seq<char>) -> Seq<char> {
    if plain(s) {
        without_notes(s)
    } else {
        replace_all(INLINE_NOTE_REF@, s, "$1$2"@)
    }
}

/// The text without the page number at its front.
pub open spec fn without_lead_folio(s: Seq<char>) -> Seq<char> {
    if plain(s) {
        off_number_front(s)
    } else {
        replace(LEAD_FOLIO@, s, ""@)
    }
}

/// The text without the page number at its end.
pub open spec fn without_trail_folio(s: Seq<char>) -> Seq<char> {
    if plain(s) {
        off_number_back(s)
    } else {
        replace(TRAIL_FOLIO@, s, ""@)
    }
}

/// Is the text a page number, and nothing else?
pub fn is_folio(s: &[char]) -> (r: bool)
    ensures
        r == folio(s@),
{
    regex_is_match(FOLIO, string_of(s).as_str())
}

/// Does the text begin like a list of footnotes?
pub fn is_footnote(s: &[char]) -> (r: bool)
    ensures
        r == footnote(s@),
{
    regex_is_match(FOOTNOTE_BLOCK, string_of(s).as_str())
}

/// Does the text begin like a bibliography entry?
pub fn is_biblio_start(s: &[char]) -> (r: bool)
    ensures
        r == biblio_start(s@),
{
    regex_is_match(BIBLIO_START, string_of(s).as_str())
}

/// Does the text hold publication data?
pub fn is_biblio_signed(s: &[char]) -> (r: bool)
    ensures
        r == biblio_signed(s@),
{
    regex_is_match(BIBLIO_SIGNATURE, string_of(s).as_str())
}

/// Is the line a heading with a structural keyword?
pub fn is_heading(s: &[char]) -> (r: bool)
    ensures
        r == heading(s@),
{
    regex_is_match(HEADING, string_of(s).as_str())
}

/// The text without the page number at its front.
pub fn lead_folio_dropped(s: &[char]) -> (r: Vec<char>)
    ensures
        r@ == without_lead_folio(s@),
        text::free(s@, CharClass::Newline) ==> text::free(r@, CharClass::Newline),
{
    proof {
        reveal_strlit("");
    }
    let t = regex_replace(LEAD_FOLIO, string_of(s).as_str(), "");
    chars_of(t.as_str())
}

/// The text without the page number at its end.
pub fn trail_folio_dropped(s: &[char]) -> (r: Vec<char>)
    ensures
        r@ == without_trail_folio(s@),
        text::free(s@, CharClass::Newline) ==> text::free(r@, CharClass::Newline),
{
    proof {
        reveal_strlit("");
    }
    let t = regex_replace(TRAIL_FOLIO, string_of(s).as_str(), "");
    chars_of(t.as_str())
}

/// The text without its references to footnotes.
pub fn without_note_refs(s: &[char]) -> (r: Vec<char>)
    ensures
        r@ == note_free(s@),
        text::free(s@, CharClass::Newline) ==> text::free(r@, CharClass::Newline),
{
    proof {
        reveal_strlit("$1$2");
    }
    let t = regex_replace_all(INLINE_NOTE_REF, string_of(s).as_str(), "$1$2");
    chars_of(t.as_str())
}

/// The text with each run of two or more blanks as one space.
pub fn collapsed(s: &[char]) -> (r: Vec<char>)
    ensures
        r@ == collapse(s@),
        text::free(s@, CharClass::Newline) ==> text::free(r@, CharClass::Newline),
{
    proof {
        reveal_strlit(" ");
    }
    let t = regex_replace_all(MULTISPACE, string_of(s).as_str(), " ");
    chars_of(t.as_str())
}

/// The text without the whitespace before punctuation marks.
pub fn tightened(s: &[char]) -> (r: Vec<char>)
    ensures
        r@ == tighten(s@),
        text::free(s@, CharClass::Newline) ==> text::free(r@, CharClass::Newline),
{
    proof {
        reveal_strlit("$1");
    }
    let t = regex_replace_all(SPACE_PUNCT, string_of(s).as_str(), "$1");
    chars_of(t.as_str())
}

// ---------- What the patterns tell apart ----------

/// Typeset text has no digits but the ASCII ones.
pub proof fn lemma_typeset_is_plain(s: Seq<char>)
    requires
        text::all_typeset(s),
    ensures
        plain(s),
{
    assert forall|i: int| 0 <= i < s.len() implies (#[trigger] s[i] < '\u{660}' || '\u{2000}'
        <= s[i] <= '\u{206f}') by {
        assert(chars::typeset(s[i]));
    }
}

pub proof fn lemma_digits_back(s: Seq<char>)
    ensures
        digits_back(s) <= s.len(),
        forall|i: int| s.len() - digits_back(s) <= i < s.len() ==> chars::ascii_digit(
            #[trigger] s[i],
        ),
        digits_back(s) < s.len() ==> !chars::ascii_digit(s[s.len() - digits_back(s) - 1]),
    decreases s.len(),
{
    if s.len() > 0 && chars::ascii_digit(s.last()) {
        let front = s.drop_last();
        lemma_digits_back(front);
        assert forall|i: int| s.len() - digits_back(s) <= i < s.len() implies chars::ascii_digit(
            #[trigger] s[i],
        ) by {
            if i < front.len() {
                assert(front[i] == s[i]);
            }
        }
    }
}

pub proof fn lemma_digits_front(s: Seq<char>, most: nat)
    ensures
        digits_front(s, most) <= s.len(),
        digits_front(s, most) <= most,
        forall|i: int| 0 <= i < digits_front(s, most) ==> chars::ascii_digit(#[trigger] s[i]),
        digits_front(s, most) < most && digits_front(s, most) < s.len() ==> !chars::ascii_digit(
            s[digits_front(s, most) as int],
        ),
    decreases most,
{
    if most > 0 && s.len() > 0 && chars::ascii_digit(s[0]) {
        let rest = s.skip(1);
        lemma_digits_front(rest, (most - 1) as nat);
        assert forall|i: int| 0 <= i < digits_front(s, most) implies chars::ascii_digit(
            #[trigger] s[i],
        ) by {
            if i > 0 {
                assert(rest[i - 1] == s[i]);
            }
        }
    }
}

proof fn lemma_solid_front(s: Seq<char>)
    requires
        s.len() > 0,
        !chars::white(s[0]),
    ensures
        text::trim_front(s, CharClass::White) == s,
        text::trim(s).len() > 0,
        text::trim(s)[0] == s[0],
{
    text::lemma_trim_blank(s);
    let k = text::lemma_trim_back_prefix(s, CharClass::White);
    assert(text::trim(s) =~= s.take(k));
}

/// A typeset text that starts with anything but a digit is neither a page number
/// nor a numbered note.
pub proof fn words_are_no_numbers(t: Seq<char>)
    requires
        text::all_typeset(t),
        t.len() > 0,
        !chars::white(t[0]),
        !('0' <= t[0] <= '9'),
    ensures
        !folio(t),
        !footnote(t),
{
    lemma_typeset_is_plain(t);
    lemma_solid_front(t);
    lemma_digits_back(text::trim(t));
    if digits_back(text::trim(t)) == text::trim(t).len() {
        assert(chars::ascii_digit(text::trim(t)[0]));
    }
}

/// A typeset text that starts with neither a capital letter nor a dash opens no
/// bibliography.
pub proof fn small_letters_open_no_entry(t: Seq<char>)
    requires
        text::all_typeset(t),
        t.len() > 0,
        !chars::white(t[0]),
        !('A' <= t[0] <= 'Z'),
        t[0] != '—',
    ensures
        !biblio_start(t),
{
    lemma_solid_front(t);
    reveal_with_fuel(run, 2);
}

/// A typeset text holds publication data only if it names a translator or an
/// editor in one of four ways, or holds a colon.
pub proof fn publication_data_is_signed(t: Seq<char>)
    requires
        text::all_typeset(t),
        !text::contains(t, "Translated by "@),
        !text::contains(t, "edited by "@),
        !text::contains(t, "trans."@),
        !text::contains(t, "ed."@),
        !t.contains(':'),
    ensures
        !biblio_signed(t),
{
    if signed_text(t) {
        let i = choose|i: int| 0 <= i < t.len() && #[trigger] signed_at(t, i);
        let s = t.skip(i);
        if colophon(s) {
            let n = 1 + run(s.skip(1), |c: char| word_char(c) || c == '.');
            lemma_run(s.skip(1), |c: char| word_char(c) || c == '.');
            assert(s[n] == t[i + n]);
        }
    }
}

proof fn lemma_run(s: Seq<char>, kind: spec_fn(char) -> bool)
    ensures
        0 <= run(s, kind) <= s.len(),
    decreases s.len(),
{
    if s.len() > 0 && kind(s[0]) {
        lemma_run(s.skip(1), kind);
    }
}

/// One to four digits are a page number, and a longer row of digits is none.
pub proof fn short_numbers_are_page_numbers(t: Seq<char>)
    requires
        t.len() > 0,
        forall|i: int| 0 <= i < t.len() ==> '0' <= #[trigger] t[i] <= '9',
    ensures
        folio(t) <==> t.len() <= 4,
{
    assert(plain(t));
    assert(t[0] >= '0' && t[t.len() - 1] >= '0');
    lemma_solid_front(t);
    let k = text::lemma_trim_back_prefix(t, CharClass::White);
    if k < t.len() {
        assert(CharClass::White.has(t[t.len() - 1]));
    }
    assert(text::trim(t) =~= t);
    lemma_digits_back(t);
    if digits_back(t) < t.len() {
        assert('0' <= t[t.len() - digits_back(t) - 1] <= '9');
    }
}

/// A number of up to three digits, a period, a space and a capital letter open a
/// numbered note, whatever follows.
pub proof fn numbers_and_capitals_open_notes(number: Seq<char>, rest: Seq<char>)
    requires
        0 < number.len() <= 3,
        forall|i: int| 0 <= i < number.len() ==> '0' <= #[trigger] number[i] <= '9',
        rest.len() > 0,
        'A' <= rest[0] <= 'Z',
        text::all_typeset(rest),
    ensures
        footnote(number + seq!['.', ' '] + rest),
{
    let t = number + seq!['.', ' '] + rest;
    let k = number.len() as int;
    assert forall|i: int| 0 <= i < t.len() implies chars::typeset(#[trigger] t[i]) by {
        if i < k {
            assert(t[i] == number[i]);
        } else if i >= k + 2 {
            assert(t[i] == rest[i - k - 2]);
        }
    }
    assert(t[0] == number[0]);
    lemma_solid_front(t);
    lemma_digits_front(t, 3);
    let n = digits_front(t, 3) as int;
    assert(t[k] == '.');
    if n > k {
        assert(chars::ascii_digit(t[k]));
    } else if n < k {
        assert(t[n] == number[n]);
    }
    let u = t.skip(k + 1);
    assert(u[0] == ' ');
    assert(u.skip(1) =~= rest);
    reveal_with_fuel(text::trim_front, 3);
}

} // verus!
