//! The text operations that reading control data rests on.
//!
//! Matching a pattern is the work of the `regex` crate, splitting and trimming
//! that of the standard library. Each is called through one function whose
//! contract Verus takes on trust; the rest of the library is verified against
//! those contracts.

use regex::Regex;
use vstd::prelude::*;

verus! {

/// A sequence of string slices as the sequence of their texts.
pub open spec fn texts(slices: Seq<&str>) -> Seq<Seq<char>> {
    slices.map_values(|s: &str| s@)
}

/// Whether the regex engine accepts `pattern`: whether `regex::Regex::new`
/// returns a regex for it, not an error.
pub uninterp spec fn regex_accepts(pattern: Seq<char>) -> bool;

/// What `regex::Regex::captures` finds for `pattern` in `haystack`: `None`
/// where the pattern matches nowhere, else, for the leftmost match, the text
/// that `Captures::name` gives for each of `groups`, `None` for a group that
/// took no part in the match or that the pattern does not have.
pub uninterp spec fn regex_captures(
    pattern: Seq<char>,
    groups: Seq<Seq<char>>,
    haystack: Seq<char>,
) -> Option<Seq<Option<Seq<char>>>>;

/// Compiles `pattern` with `regex::Regex::new` and searches `haystack` with
/// `Regex::captures`, reading each of `groups` with `Captures::name`.
///
/// Taken on trust: that the outcome depends on the three arguments alone, so
/// that it can bear the names [`regex_accepts`] and [`regex_captures`], and
/// that a match yields one entry for each group asked for.
#[verifier::external_body]
pub(crate) fn captures(pattern: &str, groups: &Vec<&str>, haystack: &str) -> (found: Option<
    Option<Vec<Option<String>>>,
>)
    ensures
        found is Some <==> regex_accepts(pattern@),
        found matches Some(caps) ==> caps.deep_view() == regex_captures(
            pattern@,
            texts(groups@),
            haystack@,
        ),
        found matches Some(Some(values)) ==> values@.len() == groups@.len(),
{
    let re = match Regex::new(pattern) {
        Ok(re) => re,
        Err(_) => return None,
    };
    let caps = match re.captures(haystack) {
        Some(caps) => caps,
        None => return Some(None),
    };
    let mut values = Vec::new();
    for group in groups {
        values.push(caps.name(group).map(|m| m.as_str().to_string()));
    }
    Some(Some(values))
}

/// The pieces into which `sep` divides `text`: one more than there are
/// separators, empty where two separators meet or one stands at an end.
pub open spec fn split_spec(text: Seq<char>, sep: char) -> Seq<Seq<char>>
    decreases text.len(),
{
    if text.len() == 0 {
        seq![Seq::empty()]
    } else {
        let before = split_spec(text.drop_last(), sep);
        if text.last() == sep {
            before.push(Seq::empty())
        } else {
            before.drop_last().push(before.last().push(text.last()))
        }
    }
}

/// Splits `text` at every `sep` with `str::split`.
///
/// Taken on trust: that the pieces are those between the separators, in
/// order, as [`split_spec`] spells out.
#[verifier::external_body]
pub(crate) fn split_on<'a>(text: &'a str, sep: char) -> (pieces: Vec<&'a str>)
    ensures
        texts(pieces@) == split_spec(text@, sep),
{
    text.split(sep).collect()
}

/// The characters with the Unicode property `White_Space`.
pub open spec fn is_white_space(c: char) -> bool {
    ||| '\u{9}' <= c <= '\u{D}'
    ||| c == ' '
    ||| c == '\u{85}'
    ||| c == '\u{A0}'
    ||| c == '\u{1680}'
    ||| '\u{2000}' <= c <= '\u{200A}'
    ||| c == '\u{2028}'
    ||| c == '\u{2029}'
    ||| c == '\u{202F}'
    ||| c == '\u{205F}'
    ||| c == '\u{3000}'
}

/// `text` without the white space at its front.
pub open spec fn trim_start_spec(text: Seq<char>) -> Seq<char>
    decreases text.len(),
{
    if text.len() > 0 && is_white_space(text.first()) {
        trim_start_spec(text.drop_first())
    } else {
        text
    }
}

/// `text` without the white space at its back.
pub open spec fn trim_end_spec(text: Seq<char>) -> Seq<char>
    decreases text.len(),
{
    if text.len() > 0 && is_white_space(text.last()) {
        trim_end_spec(text.drop_last())
    } else {
        text
    }
}

/// `text` without the white space at its two ends.
pub open spec fn trim_spec(text: Seq<char>) -> Seq<char> {
    trim_end_spec(trim_start_spec(text))
}

/// Removes leading and trailing white space with `str::trim`.
///
/// Taken on trust: that what is removed is exactly the run of characters with
/// the property `White_Space` at either end.
#[verifier::external_body]
pub(crate) fn trim<'a>(text: &'a str) -> (inner: &'a str)
    ensures
        inner@ == trim_spec(text@),
{
    text.trim()
}

} // verus!
