//! The regular-expression engine, as far as the library leans on it.
//!
//! What a pattern matches is the engine's business: each call is named as a
//! function of its arguments, and nothing more is claimed of it.

use vstd::prelude::*;
use regex::Regex;
use crate::text::texts;

verus! {

/// Whether `pattern` matches anywhere in `text`; nothing where the engine
/// refuses the pattern.
pub uninterp spec fn regex_is_match(pattern: Seq<char>, text: Seq<char>) -> Option<bool>;

/// `text` with every match of `pattern` replaced by `replacement`; nothing
/// where the engine refuses the pattern.
pub uninterp spec fn regex_replace_all(
    pattern: Seq<char>,
    text: Seq<char>,
    replacement: Seq<char>,
) -> Option<Seq<char>>;

/// The matches of `pattern` in `text`, left to right, none overlapping
/// another; nothing where the engine refuses the pattern.
pub uninterp spec fn regex_find_all(pattern: Seq<char>, text: Seq<char>) -> Option<
    Seq<Seq<char>>,
>;

/// The characters that have a meaning of their own in a pattern.
pub open spec fn is_meta(c: char) -> bool {
    ||| c == '\\'
    ||| c == '.'
    ||| c == '+'
    ||| c == '*'
    ||| c == '?'
    ||| c == '('
    ||| c == ')'
    ||| c == '|'
    ||| c == '['
    ||| c == ']'
    ||| c == '{'
    ||| c == '}'
    ||| c == '^'
    ||| c == '$'
    ||| c == '#'
    ||| c == '&'
    ||| c == '-'
    ||| c == '~'
}

/// `s` with a backslash put before each character that has a meaning of its
/// own in a pattern.
pub open spec fn escaped(s: Seq<char>) -> Seq<char>
    decreases s.len(),
{
    if s.len() == 0 {
        Seq::empty()
    } else if is_meta(s.last()) {
        escaped(s.drop_last()).push('\\').push(s.last())
    } else {
        escaped(s.drop_last()).push(s.last())
    }
}

/// `regex::Regex::new` on `pattern` and `Regex::is_match` on `text`. The
/// result is a function of the two texts alone; `None` stands for a pattern
/// that does not compile.
#[verifier::external_body]
pub(crate) fn is_match(pattern: &str, text: &str) -> (out: Option<bool>)
    ensures
        out == regex_is_match(pattern@, text@),
{
    match Regex::new(pattern) {
        Ok(re) => Some(re.is_match(text)),
        Err(_) => None,
    }
}

/// `regex::Regex::new` on `pattern` and `Regex::replace_all` on `text` with
/// the replacement text `replacement`. The result is a function of the three
/// texts alone; `None` stands for a pattern that does not compile.
#[verifier::external_body]
pub(crate) fn replace_all(pattern: &str, text: &str, replacement: &str) -> (out: Option<String>)
    ensures
        match out {
            Some(s) => regex_replace_all(pattern@, text@, replacement@) == Some(s@),
            None => regex_replace_all(pattern@, text@, replacement@) is None,
        },
{
    match Regex::new(pattern) {
        Ok(re) => Some(re.replace_all(text, replacement).into_owned()),
        Err(_) => None,
    }
}

/// `regex::Regex::new` on `pattern` and `Regex::find_iter` on `text`, each
/// match taken as the text it covers. The result is a function of the two
/// texts alone; `None` stands for a pattern that does not compile.
#[verifier::external_body]
pub(crate) fn find_all(pattern: &str, text: &str) -> (out: Option<Vec<String>>)
    ensures
        match out {
            Some(found) => regex_find_all(pattern@, text@) == Some(texts(found@)),
            None => regex_find_all(pattern@, text@) is None,
        },
{
    match Regex::new(pattern) {
        Ok(re) => Some(re.find_iter(text).map(|m| m.as_str().to_string()).collect()),
        Err(_) => None,
    }
}

/// `regex::escape`: puts a backslash before each of the pattern language's
/// meta characters and leaves every other character as it is.
#[verifier::external_body]
pub(crate) fn escape(text: &str) -> (out: String)
    ensures
        out@ == escaped(text@),
{
    regex::escape(text)
}

} // verus!
