//! Language codes: how one is read off a file path, and which identifier the
//! translation backend knows it by.

use regex::Regex;
use vstd::prelude::*;
use vstd::string::*;

verus! {

/// The text that an optional string holds, if it holds one.
pub open spec fn text_of(value: Option<String>) -> Option<Seq<char>> {
    match value {
        Some(s) => Some(s@),
        None => None,
    }
}

/// The text that an optional string slice holds, if it holds one.
pub open spec fn slice_text_of(value: Option<&str>) -> Option<Seq<char>> {
    match value {
        Some(s) => Some(s@),
        None => None,
    }
}

/// Whether `c` is one of the 52 letters of ASCII.
pub open spec fn is_ascii_letter(c: char) -> bool {
    ('a' <= c && c <= 'z') || ('A' <= c && c <= 'Z')
}

/// Whether `token` has the shape of a language code: three or four ASCII
/// letters.
pub open spec fn is_language_code(token: Seq<char>) -> bool {
    &&& 3 <= token.len() <= 4
    &&& forall|i: int| 0 <= i < token.len() ==> is_ascii_letter(#[trigger] token[i])
}

/// The pattern by which a language code is found in a path: a code of three
/// or four letters that fills a whole path segment, with a backslash on
/// either side. Its one group holds the code.
pub open spec fn language_pattern() -> Seq<char> {
    "\\\\([a-zA-Z]{3,4})\\\\"@
}

/// What the regex engine captures in group `group` at the leftmost match of
/// `pattern` in `haystack`: `None` where the pattern does not compile, where
/// it matches nowhere, or where that group took no part in the match.
pub uninterp spec fn regex_capture(pattern: Seq<char>, haystack: Seq<char>, group: usize) -> Option<Seq<char>>;

/// Compiles `pattern` with `regex::Regex::new`, searches `haystack` with
/// `Regex::captures` and hands out the part of `haystack` that
/// `Captures::get` gives for `group`.
///
/// Not proved: that the text handed back is what `regex_capture` names for
/// these three arguments. The engine's answer depends on them alone, and the
/// contract claims nothing else of it.
#[verifier::external_body]
fn capture_group<'h>(pattern: &str, haystack: &'h str, group: usize) -> (found: Option<&'h str>)
    ensures
        slice_text_of(found) == regex_capture(pattern@, haystack@, group),
{
    let re = Regex::new(pattern).ok()?;
    let caps = re.captures(haystack)?;
    caps.get(group).map(|m| m.as_str())
}

/// Compares two texts with `str`'s own `==`.
///
/// Not proved: that `==` on `str` holds exactly of equal sequences of
/// characters.
#[verifier::external_body]
pub(crate) fn same_text(a: &str, b: &str) -> (same: bool)
    ensures
        same == (a@ == b@),
{
    a == b
}

/// The capture as a language code: itself where it has the shape of one,
/// nothing otherwise.
pub open spec fn accepted_code(capture: Option<Seq<char>>) -> Option<Seq<char>> {
    match capture {
        Some(token) => if is_language_code(token) {
            Some(token)
        } else {
            None
        },
        None => None,
    }
}

/// The language code of the file at `path`, if the path shows one.
pub open spec fn language_of(path: Seq<char>) -> Option<Seq<char>> {
    accepted_code(regex_capture(language_pattern(), path, 1))
}

/// Tells whether `c` is an ASCII letter.
pub fn ascii_letter(c: char) -> (yes: bool)
    ensures
        yes == is_ascii_letter(c),
{
    (c >= 'a' && c <= 'z') || (c >= 'A' && c <= 'Z')
}

/// Tells whether `token` has the shape of a language code.
pub fn language_code_shaped(token: &str) -> (yes: bool)
    ensures
        yes == is_language_code(token@),
{
    let n: usize = token.unicode_len();
    if n < 3 || n > 4 {
        return false;
    }
    let mut i: usize = 0;
    while i < n
        invariant
            n == token@.len(),
            i <= n,
            forall|j: int| 0 <= j < i ==> is_ascii_letter(#[trigger] token@[j]),
        decreases n - i,
    {
        if !ascii_letter(token.get_char(i)) {
            return false;
        }
        i += 1;
    }
    true
}

/// Keeps a captured token only where it has the shape of a language code.
pub fn accept_code<'a>(capture: Option<&'a str>) -> (code: Option<&'a str>)
    ensures
        slice_text_of(code) == accepted_code(slice_text_of(capture)),
{
    match capture {
        Some(token) => if language_code_shaped(token) {
            Some(token)
        } else {
            None
        },
        None => None,
    }
}

/// Reads the language code off a file path.
///
/// The code is the first path segment, closed by a backslash on either side,
/// that consists of three or four ASCII letters. A path without such a
/// segment has no language.
pub fn get_message_lang<'a>(filepath: &'a str) -> (lang: Option<&'a str>)
    ensures
        slice_text_of(lang) == language_of(filepath@),
        lang matches Some(code) ==> is_language_code(code@),
{
    accept_code(capture_group("\\\\([a-zA-Z]{3,4})\\\\", filepath, 1))
}

/// The backend's identifier for the language code `code`, for the fifteen
/// codes that have one.
pub open spec fn backend_id(code: Seq<char>) -> Option<Seq<char>> {
    if code == "arae"@ {
        Some("AR"@)
    } else if code == "chi"@ || code == "zhcn"@ {
        Some("ZH"@)
    } else if code == "eng"@ {
        Some("EN"@)
    } else if code == "esmx"@ || code == "spa"@ {
        Some("ES"@)
    } else if code == "fre"@ {
        Some("FR"@)
    } else if code == "ger"@ {
        Some("DE"@)
    } else if code == "idid"@ {
        Some("ID"@)
    } else if code == "ita"@ {
        Some("IT"@)
    } else if code == "jpn"@ {
        Some("JA"@)
    } else if code == "kokr"@ {
        Some("KO"@)
    } else if code == "pol"@ {
        Some("PL"@)
    } else if code == "por"@ {
        Some("PT"@)
    } else if code == "rus"@ {
        Some("RU"@)
    } else {
        None
    }
}

/// Maps a language code to the identifier by which the translation backend
/// knows the language. A code outside the table has none: nothing can be
/// translated into it.
pub fn match_to_deepl_lang(lang: &str) -> (id: Option<String>)
    ensures
        text_of(id) == backend_id(lang@),
{
    if same_text(lang, "arae") {
        Some("AR".to_owned())
    } else if same_text(lang, "chi") || same_text(lang, "zhcn") {
        Some("ZH".to_owned())
    } else if same_text(lang, "eng") {
        Some("EN".to_owned())
    } else if same_text(lang, "esmx") || same_text(lang, "spa") {
        Some("ES".to_owned())
    } else if same_text(lang, "fre") {
        Some("FR".to_owned())
    } else if same_text(lang, "ger") {
        Some("DE".to_owned())
    } else if same_text(lang, "idid") {
        Some("ID".to_owned())
    } else if same_text(lang, "ita") {
        Some("IT".to_owned())
    } else if same_text(lang, "jpn") {
        Some("JA".to_owned())
    } else if same_text(lang, "kokr") {
        Some("KO".to_owned())
    } else if same_text(lang, "pol") {
        Some("PL".to_owned())
    } else if same_text(lang, "por") {
        Some("PT".to_owned())
    } else if same_text(lang, "rus") {
        Some("RU".to_owned())
    } else {
        None
    }
}

} // verus!
