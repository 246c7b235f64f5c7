//! Matching a line against a regular expression.

use vstd::prelude::*;
use regex::Regex;
use crate::gedex::{data_pattern, ref_pattern};
use crate::tag::text;

verus! {

/// The capture groups of the leftmost match of the regular expression
/// `pattern` in `haystack`, by index: group 0 is the whole match, and each
/// group holds the text that it matched, or nothing where it took no part in
/// the match. The value is `None` where `pattern` is not a regular
/// expression that compiles, or matches nowhere in `haystack`.
pub uninterp spec fn regex_captures(pattern: Seq<char>, haystack: Seq<char>) -> Option<
    Seq<Option<Seq<char>>>,
>;

/// The texts of a list of capture groups.
pub open spec fn group_texts(groups: Seq<Option<String>>) -> Seq<Option<Seq<char>>> {
    groups.map_values(|group: Option<String>| text(group))
}

/// The texts of the capture groups of a match, or `None` for no match.
pub open spec fn match_texts(groups: Option<Vec<Option<String>>>) -> Option<
    Seq<Option<Seq<char>>>,
> {
    match groups {
        Some(found) => Some(group_texts(found@)),
        None => None,
    }
}

/// Compiles `pattern` with `regex::Regex::new`, searches `haystack` with
/// `Regex::captures`, and copies the text of each capture group, as
/// `Captures::iter` and `Match::as_str` give it. Believed, not proved: the
/// result is what the name `regex_captures` stands for, which says no more
/// than that the same pattern and haystack give the same groups. This is
/// claimed of the two patterns of the grammars only.
#[verifier::external_body]
pub(crate) fn captures(pattern: &str, haystack: &str) -> (groups: Option<Vec<Option<String>>>)
    requires
        pattern@ == data_pattern() || pattern@ == ref_pattern(),
    ensures
        match_texts(groups) == regex_captures(pattern@, haystack@),
{
    match Regex::new(pattern) {
        Ok(re) => re.captures(haystack).map(
            |caps| caps.iter().map(|group| group.map(|m| m.as_str().to_owned())).collect(),
        ),
        Err(_) => None,
    }
}

} // verus!
