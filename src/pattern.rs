//! Character classes and lexeme shapes that decide how a scanned run of
//! characters is classified.
//!
//! The shapes are recognised with the `regex` crate, as full matches of
//! fixed patterns. Where a pattern uses only literal characters and `.`
//! (any character but a line feed), the contract states exactly which texts
//! match. Patterns that use Unicode classes (`\d`, `\w`) are known only by
//! the name of their result.
use regex::Regex;
use vstd::prelude::*;

verus! {

/// Whether `c` has the Unicode `Alphabetic` property.
pub uninterp spec fn alphabetic(c: char) -> bool;

/// Whether `c` is in one of the Unicode numeric categories.
pub uninterp spec fn numeric(c: char) -> bool;

/// Whether `text` matches the regular expression `pattern` (in the
/// syntax of the `regex` crate).
pub uninterp spec fn regex_match(pattern: Seq<char>, text: Seq<char>) -> bool;

/// A run of asterisks only.
pub const STAR_RUN: &'static str = r"^[*]*$";

/// Text between two asterisks.
pub const BOLD: &'static str = r"^[*].*[*]$";

/// Text between two slashes.
pub const ITALIC: &'static str = r"^[/].*[/]$";

/// Text between two underscores.
pub const UNDERLINE: &'static str = r"^[_].*[_]$";

/// Text between two plus signs.
pub const STRIKETHROUGH: &'static str = r"^[+].*[+]$";

/// A link: `[[`, a target, a separator, a description, `]]`.
pub const LINK: &'static str = r"^\[{2}.*[\]|\[]{2}.*]{2}$";

/// The start of a date, up to the day: `<YYYY-MM-DD`.
pub const DATE_PREFIX: &'static str = r"^<\d{4}-\d{2}-\d{2}$";

/// A bracketed timestamp: `[YYYY-MM-DD Www HH:MM]`.
pub const TIMESTAMP: &'static str = r"^\[\d{4}-\d{2}-\d{2} \w{3} \d{2}:\d{2}]$";

/// A duration: digits, a colon, digits.
pub const DURATION: &'static str = r"^[\d]*:[\d]*$";

/// The patterns this library matches with.
pub open spec fn is_known_pattern(p: Seq<char>) -> bool {
    p == STAR_RUN@ || p == BOLD@ || p == ITALIC@ || p == UNDERLINE@ || p == STRIKETHROUGH@ || p
        == LINK@ || p == DATE_PREFIX@ || p == TIMESTAMP@ || p == DURATION@
}

/// Every character of `t` is an asterisk (the empty text included).
pub open spec fn all_stars(t: Seq<char>) -> bool {
    forall|i: int| 0 <= i < t.len() ==> t[i] == '*'
}

/// No character of `t` is a line feed.
pub open spec fn single_line(t: Seq<char>) -> bool {
    forall|i: int| 0 <= i < t.len() ==> t[i] != '\n'
}

/// `t` starts and ends with `m`, at two different places, and holds no
/// line feed.
pub open spec fn enclosed_by(t: Seq<char>, m: char) -> bool {
    &&& t.len() >= 2
    &&& t[0] == m
    &&& t[t.len() - 1] == m
    &&& single_line(t)
}

pub open spec fn is_link_separator(c: char) -> bool {
    c == ']' || c == '|' || c == '['
}

/// `[[`, any text, two characters out of `]`, `|`, `[`, any text, `]]`,
/// all on one line.
pub open spec fn link_shape(t: Seq<char>) -> bool {
    &&& t.len() >= 6
    &&& t[0] == '[' && t[1] == '['
    &&& t[t.len() - 2] == ']' && t[t.len() - 1] == ']'
    &&& single_line(t)
    &&& exists|i: int|
        2 <= i && i + 4 <= t.len() && #[trigger] is_link_separator(t[i]) && is_link_separator(
            t[i + 1],
        )
}

/// Relies on char::is_alphabetic, whose result depends on `c` alone.
#[verifier::external_body]
pub(crate) fn char_is_alphabetic(c: char) -> (r: bool)
    ensures
        r == alphabetic(c),
{
    c.is_alphabetic()
}

/// Relies on char::is_numeric, whose result depends on `c` alone.
#[verifier::external_body]
pub(crate) fn char_is_numeric(c: char) -> (r: bool)
    ensures
        r == numeric(c),
{
    c.is_numeric()
}

/// Relies on regex's Regex::new, which accepts each known pattern, and
/// Regex::is_match. A pattern anchored by `^` and `$` matches the whole text;
/// `.` stands for any character but a line feed, `[..]` for one character of
/// the set, `{n}` for n repetitions.
#[verifier::external_body]
pub(crate) fn full_match(pattern: &str, text: &str) -> (r: bool)
    requires
        is_known_pattern(pattern@),
    ensures
        r == regex_match(pattern@, text@),
        pattern@ == STAR_RUN@ ==> r == all_stars(text@),
        pattern@ == BOLD@ ==> r == enclosed_by(text@, '*'),
        pattern@ == ITALIC@ ==> r == enclosed_by(text@, '/'),
        pattern@ == UNDERLINE@ ==> r == enclosed_by(text@, '_'),
        pattern@ == STRIKETHROUGH@ ==> r == enclosed_by(text@, '+'),
        pattern@ == LINK@ ==> r == link_shape(text@),
{
    Regex::new(pattern).unwrap().is_match(text)
}

} // verus!
