//! Character properties, and the classes of characters that the text
//! functions trim, count, drop or replace.
use vstd::prelude::*;

verus! {

/// The characters with the Unicode property `White_Space`.
pub open spec fn white(c: char) -> bool {
    ||| '\u{9}' <= c && c <= '\u{d}'
    ||| c == '\u{20}'
    ||| c == '\u{85}'
    ||| c == '\u{a0}'
    ||| c == '\u{1680}'
    ||| '\u{2000}' <= c && c <= '\u{200a}'
    ||| c == '\u{2028}'
    ||| c == '\u{2029}'
    ||| c == '\u{202f}'
    ||| c == '\u{205f}'
    ||| c == '\u{3000}'
}

/// Is this a whitespace character?
pub fn is_white(c: char) -> (r: bool)
    ensures
        r == white(c),
{
    ('\u{9}' <= c && c <= '\u{d}') || c == '\u{20}' || c == '\u{85}' || c == '\u{a0}' || c
        == '\u{1680}' || ('\u{2000}' <= c && c <= '\u{200a}') || c == '\u{2028}' || c == '\u{2029}'
        || c == '\u{202f}' || c == '\u{205f}' || c == '\u{3000}'
}

/// The ASCII characters.
pub open spec fn ascii(c: char) -> bool {
    c < '\u{80}'
}

/// ASCII characters, and the quotation marks and dashes of typeset text.
pub open spec fn typeset(c: char) -> bool {
    ||| ascii(c)
    ||| c == '\u{2013}'
    ||| c == '\u{2014}'
    ||| c == '\u{2018}'
    ||| c == '\u{2019}'
    ||| c == '\u{201c}'
    ||| c == '\u{201d}'
}

/// Is this an ASCII character?
pub fn is_ascii(c: char) -> (r: bool)
    ensures
        r == ascii(c),
{
    c <= '\u{7f}'
}

pub open spec fn ascii_digit(c: char) -> bool {
    '0' <= c && c <= '9'
}

pub open spec fn ascii_lower(c: char) -> bool {
    'a' <= c && c <= 'z'
}

pub open spec fn ascii_upper(c: char) -> bool {
    'A' <= c && c <= 'Z'
}

/// What `char::is_alphabetic` answers for a character.
pub uninterp spec fn unicode_alphabetic(c: char) -> bool;

/// What `char::is_alphanumeric` answers for a character.
pub uninterp spec fn unicode_alphanumeric(c: char) -> bool;

/// What `char::is_lowercase` answers for a character.
pub uninterp spec fn unicode_lowercase(c: char) -> bool;

/// `char::is_alphabetic` depends on the character alone: it looks the
/// character up in the Unicode tables.
pub assume_specification[ char::is_alphabetic ](c: char) -> (r: bool)
    ensures
        r == unicode_alphabetic(c),
;

/// `char::is_alphanumeric` depends on the character alone: it looks the
/// character up in the Unicode tables.
pub assume_specification[ char::is_alphanumeric ](c: char) -> (r: bool)
    ensures
        r == unicode_alphanumeric(c),
;

/// `char::is_lowercase` depends on the character alone: it looks the
/// character up in the Unicode tables.
pub assume_specification[ char::is_lowercase ](c: char) -> (r: bool)
    ensures
        r == unicode_lowercase(c),
;

/// Letters: the ASCII letters, and beyond ASCII what Unicode calls alphabetic.
pub open spec fn alphabetic(c: char) -> bool {
    if ascii(c) {
        ascii_lower(c) || ascii_upper(c)
    } else {
        unicode_alphabetic(c)
    }
}

/// Letters and digits: the ASCII ones, and beyond ASCII what Unicode calls
/// alphabetic or numeric. No whitespace is among them.
pub open spec fn alphanumeric(c: char) -> bool {
    if ascii(c) {
        ascii_lower(c) || ascii_upper(c) || ascii_digit(c)
    } else {
        !white(c) && unicode_alphanumeric(c)
    }
}

/// Lowercase letters: the ASCII ones, and beyond ASCII what Unicode calls
/// lowercase.
pub open spec fn lowercase(c: char) -> bool {
    if ascii(c) {
        ascii_lower(c)
    } else {
        unicode_lowercase(c)
    }
}

pub fn is_letter(c: char) -> (r: bool)
    ensures
        r == alphabetic(c),
{
    if is_ascii(c) {
        ('a' <= c && c <= 'z') || ('A' <= c && c <= 'Z')
    } else {
        c.is_alphabetic()
    }
}

pub fn is_letter_or_digit(c: char) -> (r: bool)
    ensures
        r == alphanumeric(c),
{
    if is_ascii(c) {
        ('a' <= c && c <= 'z') || ('A' <= c && c <= 'Z') || ('0' <= c && c <= '9')
    } else {
        !is_white(c) && c.is_alphanumeric()
    }
}

pub fn is_lower_letter(c: char) -> (r: bool)
    ensures
        r == lowercase(c),
{
    if is_ascii(c) {
        'a' <= c && c <= 'z'
    } else {
        c.is_lowercase()
    }
}

/// The ASCII lowercase form of an ASCII capital; any other character is its
/// own form.
pub open spec fn ascii_lowered(c: char) -> char {
    if ascii_upper(c) {
        (c as u32 + 32) as char
    } else {
        c
    }
}

pub fn to_ascii_lower(c: char) -> (r: char)
    ensures
        r == ascii_lowered(c),
{
    if 'A' <= c && c <= 'Z' {
        ((c as u8) + 32) as char
    } else {
        c
    }
}

/// A named class of characters.
#[derive(Clone, Copy)]
pub enum CharClass {
    /// Whitespace.
    White,
    /// Anything but whitespace.
    NotWhite,
    /// Space and tab.
    Blank,
    /// Whitespace and hyphens, which joining two lines may change.
    Seam,
    /// Whitespace and ASCII digits, of which references to footnotes are made.
    Numeral,
    /// Whitespace, hyphens and ASCII digits: all that cleaning may take out of a
    /// text.
    Loose,
    /// Anything but ASCII characters and the marks of typeset text.
    Foreign,
    /// The newline character.
    Newline,
    /// The slash.
    Slash,
    /// Underscore and hyphen, which stand for spaces in file names.
    NameSpacer,
    /// What may separate a running head from the text it is fused onto.
    HeadSeparator,
    /// What may close a heading in a table of contents.
    HeadingClose,
    /// Characters that a file name must not contain.
    FileUnsafe,
    /// The zero-width joiner.
    Joiner,
    /// Whitespace, periods and the zero-width joiner: all that cleaning may take
    /// out of phonemes.
    Filler,
    /// Punctuation that a polished text has to keep.
    SentencePunctuation,
    /// Punctuation that takes no space before it.
    TightPunctuation,
    /// Closing quotes and brackets that belong to the sentence before them.
    Closer,
    /// Characters after which a paragraph is complete.
    ParagraphEnd,
    /// Letters.
    Alphabetic,
    /// Letters and digits.
    Alphanumeric,
    /// Anything but letters and digits.
    NotAlphanumeric,
}

impl CharClass {
    /// The characters of the class.
    pub open spec fn has(self, c: char) -> bool {
        match self {
            CharClass::White => white(c),
            CharClass::NotWhite => !white(c),
            CharClass::Blank => c == ' ' || c == '\t',
            CharClass::Seam => white(c) || c == '-',
            CharClass::Numeral => white(c) || ascii_digit(c),
            CharClass::Loose => white(c) || c == '-' || ascii_digit(c),
            CharClass::Foreign => !typeset(c),
            CharClass::Newline => c == '\n',
            CharClass::Slash => c == '/',
            CharClass::NameSpacer => c == '_' || c == '-',
            CharClass::HeadSeparator => c == '.' || c == ' ' || c == '\t',
            CharClass::HeadingClose => c == ']' || c == ')' || c == '.',
            CharClass::FileUnsafe => {
                ||| c == '?'
                ||| c == '\\'
                ||| c == '/'
                ||| c == ':'
                ||| c == '*'
                ||| c == '"'
                ||| c == '<'
                ||| c == '>'
                ||| c == '|'
            },
            CharClass::Joiner => c == '\u{200d}',
            CharClass::Filler => white(c) || c == '.' || c == '\u{200d}',
            CharClass::SentencePunctuation | CharClass::TightPunctuation => {
                ||| c == '.'
                ||| c == ','
                ||| c == ':'
                ||| c == ';'
                ||| c == '?'
                ||| c == '!'
            },
            CharClass::Closer => c == '"' || c == '\u{201d}' || c == ')' || c == '\'',
            CharClass::ParagraphEnd => {
                ||| c == '.'
                ||| c == '!'
                ||| c == '?'
                ||| c == ':'
                ||| c == '\u{201d}'
                ||| c == '"'
                ||| c == '\u{2019}'
                ||| c == '\''
                ||| c == ')'
                ||| c == ']'
            },
            CharClass::Alphabetic => alphabetic(c),
            CharClass::Alphanumeric => alphanumeric(c),
            CharClass::NotAlphanumeric => !alphanumeric(c),
        }
    }

    /// Does the class hold this character?
    pub fn contains(self, c: char) -> (r: bool)
        ensures
            r == self.has(c),
    {
        match self {
            CharClass::White => is_white(c),
            CharClass::NotWhite => !is_white(c),
            CharClass::Blank => c == ' ' || c == '\t',
            CharClass::Seam => is_white(c) || c == '-',
            CharClass::Numeral => is_white(c) || ('0' <= c && c <= '9'),
            CharClass::Loose => is_white(c) || c == '-' || ('0' <= c && c <= '9'),
            CharClass::Foreign => !(is_ascii(c) || c == '\u{2013}' || c == '\u{2014}' || c
                == '\u{2018}' || c == '\u{2019}' || c == '\u{201c}' || c == '\u{201d}'),
            CharClass::Newline => c == '\n',
            CharClass::Slash => c == '/',
            CharClass::NameSpacer => c == '_' || c == '-',
            CharClass::HeadSeparator => c == '.' || c == ' ' || c == '\t',
            CharClass::HeadingClose => c == ']' || c == ')' || c == '.',
            CharClass::FileUnsafe => c == '?' || c == '\\' || c == '/' || c == ':' || c == '*' || c
                == '"' || c == '<' || c == '>' || c == '|',
            CharClass::Joiner => c == '\u{200d}',
            CharClass::Filler => is_white(c) || c == '.' || c == '\u{200d}',
            CharClass::SentencePunctuation | CharClass::TightPunctuation => c == '.' || c == ','
                || c == ':' || c == ';' || c == '?' || c == '!',
            CharClass::Closer => c == '"' || c == '\u{201d}' || c == ')' || c == '\'',
            CharClass::ParagraphEnd => c == '.' || c == '!' || c == '?' || c == ':' || c
                == '\u{201d}' || c == '"' || c == '\u{2019}' || c == '\'' || c == ')' || c == ']',
            CharClass::Alphabetic => is_letter(c),
            CharClass::Alphanumeric => is_letter_or_digit(c),
            CharClass::NotAlphanumeric => !is_letter_or_digit(c),
        }
    }
}

/// The members of the small classes.
pub proof fn classes_are_spelled_out(c: char)
    ensures
        CharClass::Blank.has(c) <==> " \t"@.contains(c),
        CharClass::Newline.has(c) <==> "\n"@.contains(c),
        CharClass::Slash.has(c) <==> "/"@.contains(c),
        CharClass::NameSpacer.has(c) <==> "_-"@.contains(c),
        CharClass::HeadSeparator.has(c) <==> ". \t"@.contains(c),
        CharClass::HeadingClose.has(c) <==> "])."@.contains(c),
        CharClass::FileUnsafe.has(c) <==> "?\\/:*\"<>|"@.contains(c),
        CharClass::SentencePunctuation.has(c) <==> ".,:;?!"@.contains(c),
        CharClass::TightPunctuation.has(c) <==> ".,:;?!"@.contains(c),
        CharClass::Closer.has(c) <==> "\"”)'"@.contains(c),
        CharClass::ParagraphEnd.has(c) <==> ".!?:”\"’')]"@.contains(c),
{
    reveal_strlit(" \t");
    reveal_strlit("\n");
    reveal_strlit("/");
    reveal_strlit("_-");
    reveal_strlit(". \t");
    reveal_strlit("]).");
    reveal_strlit("?\\/:*\"<>|");
    reveal_strlit(".,:;?!");
    reveal_strlit("\"”)'");
    reveal_strlit(".!?:”\"’')]");
    lemma_member(" \t"@, c);
    lemma_member("\n"@, c);
    lemma_member("/"@, c);
    lemma_member("_-"@, c);
    lemma_member(". \t"@, c);
    lemma_member("])."@, c);
    lemma_member("?\\/:*\"<>|"@, c);
    lemma_member(".,:;?!"@, c);
    lemma_member("\"”)'"@, c);
    lemma_member(".!?:”\"’')]"@, c);
}

proof fn lemma_member(s: Seq<char>, c: char)
    requires
        s.len() <= 10,
    ensures
        s.contains(c) <==> (0 < s.len() && s[0] == c) || (1 < s.len() && s[1] == c) || (2 < s.len()
            && s[2] == c) || (3 < s.len() && s[3] == c) || (4 < s.len() && s[4] == c) || (5
            < s.len() && s[5] == c) || (6 < s.len() && s[6] == c) || (7 < s.len() && s[7] == c)
            || (8 < s.len() && s[8] == c) || (9 < s.len() && s[9] == c),
{
}

/// Letters, digits, whitespace and punctuation do not mix; a letter, a digit and
/// a space are what they are called; a capital has one lowercase form.
pub proof fn kinds_of_characters_differ(c: char)
    ensures
        white(c) ==> !alphanumeric(c) && !CharClass::SentencePunctuation.has(c)
            && !CharClass::ParagraphEnd.has(c),
        CharClass::SentencePunctuation.has(c) ==> !alphanumeric(c),
        'a' <= c <= 'z' || 'A' <= c <= 'Z' ==> alphabetic(c) && alphanumeric(c) && ascii(c),
        '0' <= c <= '9' ==> !alphabetic(c) && alphanumeric(c) && ascii(c),
        ascii(c) ==> (lowercase(c) <==> 'a' <= c <= 'z'),
        ascii(c) ==> (white(c) <==> c == ' ' || 9 <= c as int <= 13),
        ascii(c) ==> typeset(c),
        'A' <= c <= 'Z' ==> ascii_lowered(c) as int == c as int + 32 && lowercase(
            ascii_lowered(c),
        ),
        !('A' <= c <= 'Z') ==> ascii_lowered(c) == c,
        ascii_lowered(ascii_lowered(c)) == ascii_lowered(c),
{
}

} // verus!
