//! Searching a text with a regular expression. The search itself is the
//! work of the `regex` crate; this module only names what it finds and
//! hands it on as characters.

use vstd::prelude::*;

verus! {

/// What the regular expression `pattern` finds first in `text`: for each of
/// its groups, whole match first, the text that the group matched, if it took
/// part. `None` if nothing matches or `pattern` is no regular expression.
pub uninterp spec fn first_capture(pattern: Seq<char>, text: Seq<char>) -> Option<
    Seq<Option<Seq<char>>>,
>;

/// What the regular expression `pattern` finds in `text` from left to right,
/// match after match without overlap, each as `first_capture` gives it.
/// `None` if `pattern` is no regular expression.
pub uninterp spec fn every_capture(pattern: Seq<char>, text: Seq<char>) -> Option<
    Seq<Seq<Option<Seq<char>>>>,
>;

/// The groups of one match as sequences of characters.
pub open spec fn group_views(groups: Seq<Option<Vec<char>>>) -> Seq<Option<Seq<char>>> {
    Seq::new(
        groups.len(),
        |i: int|
            match groups[i] {
                Some(found) => Some(found@),
                None => None,
            },
    )
}

/// The groups of a run of matches as sequences of characters.
pub open spec fn match_views(matches: Seq<Vec<Option<Vec<char>>>>) -> Seq<Seq<Option<Seq<char>>>> {
    Seq::new(matches.len(), |i: int| group_views(matches[i]@))
}

/// Calls `regex::Regex::new` on `pattern` and `regex::Regex::captures` on
/// `text`. Not proved: that the groups handed back are those that the crate
/// finds, which is all that `first_capture` stands for.
#[verifier::external_body]
pub(crate) fn capture_first(pattern: &str, text: &Vec<char>) -> (found: Option<
    Vec<Option<Vec<char>>>,
>)
    ensures
        match found {
            Some(groups) => first_capture(pattern@, text@) == Some(group_views(groups@)),
            None => first_capture(pattern@, text@) is None,
        },
{
    let regex = regex::Regex::new(pattern).ok()?;
    let text: String = text.iter().collect();
    let captures = regex.captures(&text)?;
    Some(captures.iter().map(|group| group.map(|found| found.as_str().chars().collect())).collect())
}

/// Calls `regex::Regex::new` on `pattern` and `regex::Regex::captures_iter`
/// on `text`. Not proved: that the matches handed back are those that the
/// crate finds, which is all that `every_capture` stands for.
#[verifier::external_body]
pub(crate) fn capture_every(pattern: &str, text: &Vec<char>) -> (found: Option<
    Vec<Vec<Option<Vec<char>>>>,
>)
    ensures
        match found {
            Some(matches) => every_capture(pattern@, text@) == Some(match_views(matches@)),
            None => every_capture(pattern@, text@) is None,
        },
{
    let regex = regex::Regex::new(pattern).ok()?;
    let text: String = text.iter().collect();
    Some(
        regex.captures_iter(&text).map(
            |captures|
                captures.iter().map(
                    |group| group.map(|found| found.as_str().chars().collect()),
                ).collect(),
        ).collect(),
    )
}

} // verus!
