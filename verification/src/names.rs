//! Station names as people read them. The feed decorates some names with a
//! note in parentheses, at times behind an asterisk; the note is cut off
//! where a name is shown, and only there.

use regex::Regex;
use vstd::prelude::*;

verus! {

/// The pattern of a decoration: an asterisk or none, an opening parenthesis,
/// and all that follows it on the line.
pub const NAME_SUFFIX_PATTERN: &'static str = r"\*?\(.+";

/// What `regex::Regex::new` and `regex::Regex::replace` make of three texts:
/// `None` where `new` refuses `pattern`; else the text that `replace` returns
/// for the regex compiled from it, which is `haystack` with its leftmost
/// match replaced by `replacement`.
pub uninterp spec fn regex_replace_first(
    pattern: Seq<char>,
    haystack: Seq<char>,
    replacement: Seq<char>,
) -> Option<Seq<char>>;

/// What `str::trim` returns: `text` without the white space at its ends.
pub uninterp spec fn trimmed(text: Seq<char>) -> Seq<char>;

/// Compiles `pattern` with `regex::Regex::new` and calls
/// `regex::Regex::replace` on the result. Trusted: both depend on these three
/// texts alone, so that a text comes back exactly where the named result is
/// one, and is that text.
#[verifier::external_body]
fn replace_first(pattern: &str, haystack: &str, replacement: &str) -> (replaced: Option<String>)
    ensures
        match replaced {
            Some(text) => regex_replace_first(pattern@, haystack@, replacement@) == Some(text@),
            None => regex_replace_first(pattern@, haystack@, replacement@) is None,
        },
{
    match Regex::new(pattern) {
        Ok(regex) => Some(regex.replace(haystack, replacement).into_owned()),
        Err(_) => None,
    }
}

/// Calls `str::trim`. Trusted: the text returned is what `trim` gives.
#[verifier::external_body]
fn trim(text: &str) -> (result: String)
    ensures
        result@ == trimmed(text@),
{
    text.trim().to_owned()
}

/// The name to show for a station: its decoration removed, then the white
/// space at both ends. `None` exactly where the regex engine refuses the
/// pattern of a decoration.
pub fn clean_name(name: &str) -> (cleaned: Option<String>)
    ensures
        match cleaned {
            Some(text) => regex_replace_first(NAME_SUFFIX_PATTERN@, name@, ""@) matches Some(bare)
                && text@ == trimmed(bare),
            None => regex_replace_first(NAME_SUFFIX_PATTERN@, name@, ""@) is None,
        },
{
    let replaced: Option<String> = replace_first(NAME_SUFFIX_PATTERN, name, "");
    trim_replaced(replaced)
}

/// What is shown once the decoration was replaced: the text without the
/// white space at its ends, or nothing where the engine gave no text.
pub fn trim_replaced(replaced: Option<String>) -> (cleaned: Option<String>)
    ensures
        match (replaced, cleaned) {
            (Some(bare), Some(text)) => text@ == trimmed(bare@),
            (None, None) => true,
            _ => false,
        },
{
    match replaced {
        Some(bare) => Some(trim(bare.as_str())),
        None => None,
    }
}

} // verus!
