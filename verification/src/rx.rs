//! Matching a text against a regular expression, by the `regex` crate.

use vstd::prelude::*;

verus! {

/// The texts of a list of groups: `None` for a group that took no part in the match.
pub open spec fn group_views(groups: Seq<Option<String>>) -> Seq<Option<Seq<char>>> {
    Seq::new(
        groups.len(),
        |i: int|
            match groups[i] {
                Some(s) => Some(s@),
                None => None,
            },
    )
}

/// The texts of the groups of a list of matches.
pub open spec fn match_views(found: Seq<Vec<Option<String>>>) -> Seq<Seq<Option<Seq<char>>>> {
    Seq::new(found.len(), |i: int| group_views(found[i]@))
}

/// What the groups of `pattern` hold in its first match in `text`: the whole match first,
/// then the groups in the order of their opening brackets. `None` where `pattern` is no
/// regular expression or there is no match.
pub uninterp spec fn first_captures(pattern: Seq<char>, text: Seq<char>) -> Option<
    Seq<Option<Seq<char>>>,
>;

/// What the groups of `pattern` hold in each of its matches in `text`, the matches from
/// left to right and without overlap. `None` where `pattern` is no regular expression.
pub uninterp spec fn all_captures(pattern: Seq<char>, text: Seq<char>) -> Option<
    Seq<Seq<Option<Seq<char>>>>,
>;

/// The groups of the first match of `pattern` in `text`, by `regex::Regex::new` and
/// `regex::Regex::captures`. The result is what `first_captures` names.
#[verifier::external_body]
pub(crate) fn captures(pattern: &str, text: &str) -> (r: Option<Vec<Option<String>>>)
    ensures
        r is Some <==> first_captures(pattern@, text@) is Some,
        r is Some ==> Some(group_views(r.unwrap()@)) == first_captures(pattern@, text@),
{
    let re = regex::Regex::new(pattern).ok()?;
    let found = re.captures(text)?;
    Some(found.iter().map(|m| m.map(|m| m.as_str().to_string())).collect())
}

/// The groups of every match of `pattern` in `text`, by `regex::Regex::new` and
/// `regex::Regex::captures_iter`. The result is what `all_captures` names.
#[verifier::external_body]
pub(crate) fn captures_iter(pattern: &str, text: &str) -> (r: Option<Vec<Vec<Option<String>>>>)
    ensures
        r is Some <==> all_captures(pattern@, text@) is Some,
        r is Some ==> Some(match_views(r.unwrap()@)) == all_captures(pattern@, text@),
{
    let re = regex::Regex::new(pattern).ok()?;
    let found = re.captures_iter(text);
    Some(found.map(|c| c.iter().map(|m| m.map(|m| m.as_str().to_string())).collect()).collect())
}

} // verus!
