//! Removal of parenthesised commentary from a survey answer.

use vstd::prelude::*;
use vstd::string::*;

verus! {

broadcast use vstd::string::group_string_axioms;

/// What `regex::Regex::replace_all` returns for the expression that
/// `regex::Regex::new` compiles from `pattern`, the text `haystack` and the
/// replacement `replacement`; `None` where `pattern` is refused.
pub uninterp spec fn regex_replace_all(
    pattern: Seq<char>,
    haystack: Seq<char>,
    replacement: Seq<char>,
) -> Option<Seq<char>>;

/// Compiles `pattern` with `regex::Regex::new` and calls
/// `regex::Regex::replace_all` on the result, which replaces every match in
/// `haystack`, from left to right and without overlap, by `replacement`.
/// Both depend on their arguments alone; the contract gives the outcome its
/// name and claims nothing more of it.
#[verifier::external_body]
fn replace_all(pattern: &str, haystack: &str, replacement: &str) -> (out: Option<String>)
    ensures
        out is Some <==> regex_replace_all(pattern@, haystack@, replacement@) is Some,
        out matches Some(s) ==> regex_replace_all(pattern@, haystack@, replacement@) == Some(s@),
{
    match regex::Regex::new(pattern) {
        Ok(re) => Some(re.replace_all(haystack, replacement).into_owned()),
        Err(_) => None,
    }
}

/// The expression for parenthesised commentary: from an opening bracket to the
/// last closing bracket on the same line.
pub open spec fn parenthetical() -> Seq<char> {
    "\\(.*\\)"@
}

/// `text` with its parenthesised commentary removed; `text` itself where the
/// expression is refused.
pub open spec fn without_parentheticals(text: Seq<char>) -> Seq<char> {
    match regex_replace_all(parenthetical(), text, Seq::<char>::empty()) {
        Some(plain) => plain,
        None => text,
    }
}

/// Removes the parenthesised commentary from `text`.
pub fn strip_parentheticals(text: &str) -> (out: String)
    ensures
        out@ == without_parentheticals(text@),
{
    proof {
        reveal_strlit("");
        assert(""@ =~= Seq::<char>::empty());
    }
    match replace_all("\\(.*\\)", text, "") {
        Some(plain) => plain,
        None => text.to_owned(),
    }
}

} // verus!
