//! The boundary pattern: how the reader tells the dimension line of the next
//! grid from the lines of an augmentation block.

use vstd::prelude::*;

verus! {

/// What `regex::bytes::Regex::new` followed by `Regex::is_match` gives for a
/// pattern and a haystack: `None` where the pattern does not compile, else
/// whether the pattern matches somewhere in the haystack.
pub uninterp spec fn regex_match(pattern: Seq<char>, haystack: Seq<u8>) -> Option<bool>;

/// Compiles `pattern` with `regex::bytes::Regex::new` and runs
/// `regex::bytes::Regex::is_match` on `haystack`.
///
/// The contract gives the outcome its name and claims nothing else of it:
/// only that the pattern and the haystack decide it.
#[verifier::external_body]
fn regex_is_match(pattern: &str, haystack: &[u8]) -> (r: Option<bool>)
    ensures
        r == regex_match(pattern@, haystack@),
{
    match regex::bytes::Regex::new(pattern) {
        Ok(re) => Some(re.is_match(haystack)),
        Err(_) => None,
    }
}

/// The pattern of a dimension line: three runs of ASCII digits, separated and
/// possibly surrounded by ASCII whitespace, and nothing else on the line.
pub const DIMENSION_PATTERN: &'static str =
    "^[ \\t\\n\\x0C\\r]*[0-9]+[ \\t\\n\\x0C\\r]+[0-9]+[ \\t\\n\\x0C\\r]+[0-9]+[ \\t\\n\\x0C\\r]*$";

/// Whether `line` is taken for the dimension line of a grid.
pub open spec fn is_dimension_line(line: Seq<u8>) -> bool {
    regex_match(DIMENSION_PATTERN@, line) == Some(true)
}

/// Decides whether `line` is taken for the dimension line of a grid.
pub fn matches_dimension_line(line: &[u8]) -> (r: bool)
    ensures
        r == is_dimension_line(line@),
{
    match regex_is_match(DIMENSION_PATTERN, line) {
        Some(found) => found,
        None => false,
    }
}

} // verus!
