use audiobook_studio::patterns::{
    collapsed, is_biblio_signed, is_biblio_start, is_folio, is_footnote, is_heading,
    lead_folio_dropped, tightened, trail_folio_dropped, without_note_refs, BIBLIO_SIGNATURE,
    BIBLIO_START, FOLIO, FOOTNOTE_BLOCK, HEADING, INLINE_NOTE_REF, LEAD_FOLIO, MULTISPACE,
    SPACE_PUNCT, TRAIL_FOLIO,
};
use regex::Regex;

/// All texts of up to `len` characters from the alphabet.
fn all_texts(alphabet: &[char], len: usize) -> Vec<String> {
    let mut out = vec![String::new()];
    let mut last = vec![String::new()];
    for _ in 0..len {
        let mut next = Vec::new();
        for t in &last {
            for c in alphabet {
                let mut s = t.clone();
                s.push(*c);
                next.push(s);
            }
        }
        out.extend(next.iter().cloned());
        last = next;
    }
    out
}

fn digits(s: &str) -> usize {
    s.chars().take_while(|c| c.is_ascii_digit()).count()
}

#[test]
fn every_pattern_compiles() {
    for p in [
        FOLIO, MULTISPACE, SPACE_PUNCT, LEAD_FOLIO, TRAIL_FOLIO, FOOTNOTE_BLOCK, BIBLIO_START,
        BIBLIO_SIGNATURE, INLINE_NOTE_REF, HEADING,
    ] {
        assert!(Regex::new(p).is_ok(), "{p}");
    }
}

#[test]
fn page_numbers_are_one_to_four_digits() {
    let re = Regex::new(FOLIO).unwrap();
    for t in all_texts(&[' ', '\n', '1', '9', 'a'], 7) {
        let n = t.trim();
        let expected = !n.is_empty() && n.len() <= 4 && digits(n) == n.len();
        assert_eq!(re.is_match(&t), expected, "{t:?}");
    }
}

#[test]
fn leading_numbers_go_with_their_whitespace() {
    let re = Regex::new(LEAD_FOLIO).unwrap();
    for t in all_texts(&[' ', '\n', '1', 'a'], 8) {
        let front = t.trim_start();
        let n = digits(front).min(4);
        let expected = if n == 0 { t.as_str() } else { front[n..].trim_start() };
        assert_eq!(re.replace(&t, ""), expected, "{t:?}");
    }
}

#[test]
fn trailing_numbers_go_with_their_whitespace() {
    let re = Regex::new(TRAIL_FOLIO).unwrap();
    for t in all_texts(&[' ', '\n', '1', 'a'], 8) {
        let back = t.trim_end();
        let n = back.chars().rev().take_while(|c| c.is_ascii_digit()).count();
        let expected = if n == 0 {
            t.as_str()
        } else if n <= 4 {
            back[..back.len() - n].trim_end()
        } else {
            &back[..back.len() - 4]
        };
        assert_eq!(re.replace(&t, ""), expected, "{t:?}");
    }
}

#[test]
fn notes_begin_with_a_number_and_a_capital() {
    let re = Regex::new(FOOTNOTE_BLOCK).unwrap();
    for t in all_texts(&[' ', '1', '.', 'A', 'a', '“'], 7) {
        let front = t.trim_start();
        let n = digits(front).min(3);
        let expected = n > 0
            && front[n..].strip_prefix('.').is_some_and(|u| {
                let v = u.trim_start();
                v.len() < u.len() && v.starts_with(|c: char| c.is_ascii_uppercase())
            });
        assert_eq!(re.is_match(&t), expected, "{t:?}");
    }
}

#[test]
fn entries_begin_with_a_capital() {
    let re = Regex::new(BIBLIO_START).unwrap();
    for t in all_texts(&[' ', '\n', 'A', 'z', '—', '–', '.'], 6) {
        let front = t.trim_start();
        let dashes = front.chars().take_while(|c| *c == '—').count();
        let expected = front.starts_with(|c: char| c.is_ascii_uppercase())
            || dashes >= 2 && front.trim_start_matches('—').starts_with('.');
        assert_eq!(re.is_match(&t), expected, "{t:?}");
    }
}

#[test]
fn runs_of_blanks_become_one_space() {
    let re = Regex::new(MULTISPACE).unwrap();
    for t in all_texts(&[' ', '\t', '\n', 'a'], 7) {
        let mut expected = String::new();
        let mut rest = t.as_str();
        while let Some(c) = rest.chars().next() {
            let run = rest.len() - rest.trim_start_matches([' ', '\t']).len();
            if run >= 2 {
                expected.push(' ');
                rest = &rest[run..];
            } else {
                expected.push(c);
                rest = &rest[1..];
            }
        }
        assert_eq!(re.replace_all(&t, " "), expected, "{t:?}");
    }
}

#[test]
fn whitespace_before_punctuation_goes() {
    let re = Regex::new(SPACE_PUNCT).unwrap();
    for t in all_texts(&[' ', '\n', '\u{a0}', ',', 'a'], 6) {
        let mut expected = String::new();
        for (i, c) in t.char_indices() {
            let next = t[i..].trim_start();
            if !(c.is_whitespace() && next.starts_with([',', '.', ';', ':', '!', '?'])) {
                expected.push(c);
            }
        }
        assert_eq!(re.replace_all(&t, "$1"), expected, "{t:?}");
    }
}

#[test]
fn plain_texts_have_no_other_digits() {
    let re = Regex::new(r"\d").unwrap();
    let plain = ('\u{0}'..'\u{660}').chain('\u{2000}'..='\u{206f}');
    for c in plain {
        assert_eq!(re.is_match(&c.to_string()), c.is_ascii_digit(), "{c:?}");
    }
    assert!(re.is_match("\u{660}"));
}

#[test]
fn the_signs_of_typeset_text_are_neither_letters_nor_digits_nor_blanks() {
    let re = Regex::new(r"\w|\s|\d|\p{Lu}").unwrap();
    let folded = Regex::new(r"(?i)[a-z]").unwrap();
    for c in ['–', '—', '‘', '’', '“', '”'] {
        assert!(!re.is_match(&c.to_string()), "{c:?}");
        assert!(!folded.is_match(&c.to_string()), "{c:?}");
    }
}

/// Where the reference with which the text begins ends.
fn note_ref(s: &[char]) -> Option<usize> {
    let n = if s.len() > 1 && s[1].is_whitespace() { 2 } else { 1 };
    let d = s.iter().skip(n).take(3).take_while(|c| c.is_ascii_digit()).count();
    let anchored = matches!(s.first(), Some('.' | '!' | '?' | '”' | '’' | '"' | '\''));
    let ends = |c: char| {
        c.is_whitespace() || c.is_ascii_uppercase() || matches!(c, '“' | '\'' | '(')
    };
    let e = n + d;
    (anchored && (1..=2).contains(&d) && (e == s.len() || ends(s[e]))).then_some(e)
}

#[test]
fn references_to_notes_go() {
    let re = Regex::new(INLINE_NOTE_REF).unwrap();
    for t in all_texts(&[' ', '1', '.', '\'', 'A', 'a', ':'], 7) {
        let s: Vec<char> = t.chars().collect();
        let mut rest = s.as_slice();
        let mut expected = String::new();
        while let Some(first) = rest.first() {
            expected.push(*first);
            rest = match note_ref(rest) {
                Some(e) if e < rest.len() => {
                    expected.push(rest[e]);
                    &rest[e + 1..]
                }
                Some(e) => &rest[e..],
                None => &rest[1..],
            };
        }
        assert_eq!(re.replace_all(&t, "$1$2"), expected, "{t:?}");
    }
}

#[test]
fn references_to_notes_go_behind_curly_quotes() {
    let re = Regex::new(INLINE_NOTE_REF).unwrap();
    for t in all_texts(&['\u{a0}', '\n', '7', '”', '’', '“', '('], 6) {
        let s: Vec<char> = t.chars().collect();
        let mut rest = s.as_slice();
        let mut expected = String::new();
        while let Some(first) = rest.first() {
            expected.push(*first);
            rest = match note_ref(rest) {
                Some(e) if e < rest.len() => {
                    expected.push(rest[e]);
                    &rest[e + 1..]
                }
                Some(e) => &rest[e..],
                None => &rest[1..],
            };
        }
        assert_eq!(re.replace_all(&t, "$1$2"), expected, "{t:?}");
    }
}

fn is_word(c: char) -> bool {
    c.is_ascii_alphanumeric() || c == '_'
}

fn word_len(s: &str) -> usize {
    s.len() - s.trim_start_matches(is_word).len()
}

fn short_title(s: &str) -> bool {
    let t = s.trim_start_matches(|c: char| matches!(c, '.' | ')' | ':') || c.is_whitespace());
    t.chars().count() <= 80 && !t.contains('\n')
}

fn part_number(w: &str) -> bool {
    const SPELLED: [&str; 32] = [
        "one", "two", "three", "four", "five", "six", "seven", "eight", "nine", "ten", "eleven",
        "twelve", "thirteen", "fourteen", "fifteen", "sixteen", "seventeen", "eighteen",
        "nineteen", "twenty", "first", "second", "third", "fourth", "fifth", "sixth", "seventh",
        "eighth", "ninth", "tenth", "last", "final",
    ];
    let all = |most: usize, kind: fn(char) -> bool| {
        !w.is_empty() && w.len() <= most && w.chars().all(kind)
    };
    all(3, |c| c.is_ascii_digit())
        || all(7, |c| "ivxlcdm".contains(c))
        || SPELLED.contains(&w)
}

/// What a heading with a keyword is.
fn keyword_heading(s: &str) -> bool {
    const STRUCTURAL: [&str; 6] = ["chapter", "book", "part", "section", "canto", "letter"];
    const STANDING: [&str; 8] = [
        "introduction", "prologue", "epilogue", "preface", "foreword", "conclusion", "prelude",
        "afterword",
    ];
    let t = s.trim_start().to_ascii_lowercase();
    let (word, behind) = t.split_at(word_len(&t));
    let u = behind.trim_start();
    let (number, rest) = u.split_at(word_len(u));
    let numbered = STRUCTURAL.contains(&word)
        && u.len() < behind.len()
        && part_number(number)
        && short_title(rest);
    numbered
        || STANDING
            .iter()
            .any(|w| t.strip_prefix(w).is_some_and(short_title))
}

#[test]
fn headings_have_a_keyword() {
    let re = Regex::new(HEADING).unwrap();
    let long = "x".repeat(80);
    let longer = "x".repeat(81);
    let quoted = format!("“{}”", "x".repeat(78));
    let words = [
        "chapter", "BOOK", "Part", "section", "Canto", "letter", "Letters", "introduction",
        "Prologue", "EPILOGUE", "prefaced", "foreword", "conclusions", "prelude", "afterword",
        "introductio", "chapter_", "",
    ];
    let numbers = [
        "", "1", "42", "999", "1000", "i", "XIV", "mdclxvi", "mdclxvii", "one", "Seventh",
        "seventhly", "last", "final", "tent", "4a", "iv_", "q",
    ];
    let tails = [
        "", ".", ". A title", ":)\n x", " \n", "a\nb", "-", "- A", long.as_str(), longer.as_str(),
        "\r", "— A", "’s end", "”", quoted.as_str(),
    ];
    for front in ["", " ", "\n\t", "a", "“"] {
        for w in words {
            for gap in ["", " ", "  \n", "."] {
                for n in numbers {
                    for joint in ["", " ", ". "] {
                        for tail in tails {
                            let t = format!("{front}{w}{gap}{n}{joint}{tail}");
                            assert_eq!(re.is_match(&t), keyword_heading(&t), "{t:?}");
                        }
                    }
                }
            }
        }
    }
}

#[test]
fn headings_are_told_letter_by_letter() {
    let re = Regex::new(HEADING).unwrap();
    for t in all_texts(&[' ', '1', 'i', 'a', '.', '_', '’'], 6) {
        let t = format!("Part{t}");
        assert_eq!(re.is_match(&t), keyword_heading(&t), "{t:?}");
    }
}

fn run(s: &str, kind: impl Fn(char) -> bool) -> usize {
    s.len() - s.trim_start_matches(kind).len()
}

fn upper_first(s: &str) -> bool {
    s.starts_with(|c: char| c.is_ascii_uppercase())
}

/// What a place, a publisher and a year are.
fn colophon(s: &str) -> bool {
    if !upper_first(s) {
        return false;
    }
    let n = 1 + run(&s[1..], |c| is_word(c) || c == '.');
    let Some(place) = s[n..].strip_prefix(':') else {
        return false;
    };
    let t = place.trim_start();
    if t.len() == place.len() || !upper_first(t) {
        return false;
    }
    let m = 1 + run(&t[1..], |c| is_word(c) || matches!(c, '&' | '.' | ' '));
    let Some(comma) = t[m..].strip_prefix(',') else {
        return false;
    };
    let year = comma.trim_start();
    m > 1 && year.len() < comma.len() && digits(year) >= 4
}

/// What publication data are.
fn signed(s: &str) -> bool {
    let spaced_capital = |t: &str| {
        let mut c = t.chars();
        c.next().is_some_and(|x| x.is_whitespace()) && c.next().is_some_and(|x| x.is_ascii_uppercase())
    };
    s.char_indices().any(|(i, _)| {
        let t = &s[i..];
        let starts = i == 0 || !s[..i].ends_with(is_word);
        t.starts_with("Translated by ")
            || t.starts_with("edited by ")
            || starts && t.strip_prefix("trans.").is_some_and(spaced_capital)
            || starts
                && t.strip_prefix("ed.")
                    .is_some_and(|u| spaced_capital(u) && u[2..].starts_with('.'))
            || starts && colophon(t)
    })
}

#[test]
fn publication_data_are_told_apart() {
    let re = Regex::new(BIBLIO_SIGNATURE).unwrap();
    let pieces = [
        "Translated by ", "edited by ", "trans.", "ed.", " ", "\n", "A", "b", ":", ",", "1999", "&",
        "_", "’",
    ];
    let mut last = vec![String::new()];
    for _ in 0..5 {
        let mut next = Vec::new();
        for t in &last {
            for p in pieces {
                next.push(format!("{t}{p}"));
            }
        }
        for t in &next {
            assert_eq!(re.is_match(t), signed(t), "{t:?}");
        }
        last = next;
    }
}

#[test]
fn places_and_years_are_told_apart() {
    let re = Regex::new(BIBLIO_SIGNATURE).unwrap();
    let at = |i: usize, n: usize| i / n;
    let places = ["", "L", "Lo.n", "l", "xL", "x L", "L ", "“L", "L’n"];
    let colons = [":", "", ": ", ":\n ", "::"];
    let houses = ["", "F", "Fa", "F &.S", "f", "F\tS", "Fa:S", "F–S"];
    let commas = [",", "", ", ", ",\n", ",,"];
    let years = ["1999", "199", "19990", "a1999", "1999a", ""];
    let total = places.len() * colons.len() * houses.len() * commas.len() * years.len();
    for i in 0..total {
        let y = i % years.len();
        let c = at(i, years.len()) % commas.len();
        let h = at(i, years.len() * commas.len()) % houses.len();
        let k = at(i, years.len() * commas.len() * houses.len()) % colons.len();
        let p = at(i, years.len() * commas.len() * houses.len() * colons.len());
        let t = format!("{}{}{}{}{}", places[p], colons[k], houses[h], commas[c], years[y]);
        assert_eq!(re.is_match(&t), signed(&t), "{t:?}");
    }
}

fn chars(s: &str) -> Vec<char> {
    s.chars().collect()
}

fn text(v: Vec<char>) -> String {
    v.into_iter().collect()
}

#[test]
fn the_library_applies_its_patterns() {
    assert!(is_folio(&chars(" 42 ")));
    assert!(!is_folio(&chars("42a")));
    assert!(is_folio(&chars("٤٢")));
    assert!(is_footnote(&chars("12. Ärger")));
    assert!(!is_footnote(&chars("12. ärger")));
    assert!(is_biblio_start(&chars("———. Works")));
    assert!(!is_biblio_start(&chars("—. Works")));
    assert!(is_biblio_signed(&chars("x, trans. Y")));
    assert!(!is_biblio_signed(&chars("transit")));
    assert!(is_heading(&chars("BOOK II")));
    assert!(!is_heading(&chars("Booked in")));
    assert_eq!(text(lead_folio_dropped(&chars("12 ab"))), "ab");
    assert_eq!(text(lead_folio_dropped(&chars("ab 12"))), "ab 12");
    assert_eq!(text(trail_folio_dropped(&chars("ab 12 "))), "ab");
    assert_eq!(text(without_note_refs(&chars("end.”12 Next. 3 \"x'7"))), "end.” Next. \"x'");
    assert_eq!(text(collapsed(&chars("a  \t b"))), "a b");
    assert_eq!(text(tightened(&chars("a \n, b"))), "a, b");
}
