//! The regular-expression engine that compiled patterns run on.
//!
//! Everything in this module is taken on trust from the `regex` crate:
//! nothing here is proved, and the rest of the library reasons about the
//! engine only through the names declared below.

use vstd::prelude::*;
use regex::Error as EngineError;
use regex::Regex;

verus! {

#[verifier::external_type_specification]
#[verifier::external_body]
pub struct ExRegex(Regex);

#[verifier::external_type_specification]
#[verifier::external_body]
pub struct ExRegexError(EngineError);

/// What `Regex::new` has against `text`: nothing where it accepts the
/// text, else the offset its error carries, if it carries one, and the
/// error as text.
pub uninterp spec fn regex_refusal(text: Seq<char>) -> Option<(Option<usize>, Seq<char>)>;

/// Whether `Regex::new` accepts `text` as a regular expression.
pub open spec fn regex_accepts(text: Seq<char>) -> bool {
    regex_refusal(text) is None
}

/// The expression a compiled regex was built from, as `Regex::as_str`
/// reports it.
pub uninterp spec fn regex_source(re: Regex) -> Seq<char>;

/// Where this regex finds its leftmost match in `text`, as `Regex::find`
/// reports it: the byte offsets of its start and its end.
pub uninterp spec fn regex_found(re: Regex, text: Seq<char>) -> Option<(usize, usize)>;

/// Where a regex that `Regex::new` made from `source` finds its leftmost
/// match in `text`.
pub uninterp spec fn regex_search(source: Seq<char>, text: Seq<char>) -> Option<(usize, usize)>;

/// The character offset that an error of the engine carries
/// (`regex_syntax::Error::position`); only a syntax error carries one.
pub uninterp spec fn engine_error_position(e: EngineError) -> Option<usize>;

/// An error of the engine as text, by its `Display`.
pub uninterp spec fn engine_error_message(e: EngineError) -> Seq<char>;

/// `Regex::new`: compiles `text`. Whether it succeeds, and with which
/// error it fails, depends on the text alone. The compiled regex remembers
/// the text it came from, and searches as every regex made from that text
/// does.
#[verifier::external_body]
pub(crate) fn regex_new(text: &str) -> (r: Result<Regex, EngineError>)
    ensures
        match r {
            Ok(re) => {
                &&& regex_refusal(text@) is None
                &&& regex_source(re) == text@
                &&& forall|subject: Seq<char>| #[trigger]
                    regex_found(re, subject) == regex_search(text@, subject)
            },
            Err(e) => regex_refusal(text@) == Some(
                (engine_error_position(e), engine_error_message(e)),
            ),
        },
{
    Regex::new(text)
}

/// `Regex::find`: the start and the end of the leftmost match in `text`,
/// or nothing where there is no match.
#[verifier::external_body]
pub(crate) fn regex_find(re: &Regex, text: &str) -> (found: Option<(usize, usize)>)
    ensures
        found == regex_found(*re, text@),
{
    re.find(text)
}

/// `Regex::as_str`: the original string of the regex.
#[verifier::external_body]
pub(crate) fn regex_as_str(re: &Regex) -> (s: &str)
    ensures
        s@ == regex_source(*re),
{
    re.as_str()
}

/// The character offset carried by a syntax error of the engine
/// (`regex_syntax::Error::position`); other errors carry none.
#[verifier::external_body]
pub(crate) fn regex_error_position(e: &EngineError) -> (position: Option<usize>)
    ensures
        position == engine_error_position(*e),
{
    match *e {
        EngineError::Syntax(ref s) => Some(s.position()),
        _ => None,
    }
}

/// The engine's own rendering of its error (its `Display`).
#[verifier::external_body]
pub(crate) fn regex_error_message(e: &EngineError) -> (message: String)
    ensures
        message@ == engine_error_message(*e),
{
    e.to_string()
}

} // verus!
