use vstd::prelude::*;

verus! {

/// The groups of the first match of a pattern in a text, as `regex` finds them: one
/// entry for each group of the pattern, the whole match first, `None` for a group that
/// took no part in the match. `None` if the pattern is not valid, the text is not
/// UTF-8 or nothing matches.
pub uninterp spec fn first_captures(pattern: Seq<char>, text: Seq<u8>) -> Option<Seq<Option<Seq<u8>>>>;

/// The groups of each of the successive matches of a pattern in a text that do not
/// overlap, as `regex` finds them. Empty if the pattern is not valid or the text is
/// not UTF-8.
pub uninterp spec fn all_captures(pattern: Seq<char>, text: Seq<u8>) -> Seq<Seq<Option<Seq<u8>>>>;

/// The bytes of each group.
pub open spec fn group_views(groups: Seq<Option<Vec<u8>>>) -> Seq<Option<Seq<u8>>> {
    Seq::new(
        groups.len(),
        |i: int|
            match groups[i] {
                Some(g) => Some(g@),
                None => None,
            },
    )
}

/// The groups of each match.
pub open spec fn match_views(matches: Seq<Vec<Option<Vec<u8>>>>) -> Seq<Seq<Option<Seq<u8>>>> {
    Seq::new(matches.len(), |i: int| group_views(matches[i]@))
}

/// The groups of the first match of `pattern` in `text`.
///
/// Trusted: the body compiles the pattern with `regex::Regex::new`, reads the text
/// with `std::str::from_utf8` and calls `regex::Regex::captures`. The contract gives
/// what comes back its name, `first_captures`, and says nothing more of it.
#[verifier::external_body]
pub(crate) fn captures(pattern: &str, text: &Vec<u8>) -> (out: Option<Vec<Option<Vec<u8>>>>)
    ensures
        match out {
            Some(groups) => first_captures(pattern@, text@) == Some(group_views(groups@)),
            None => first_captures(pattern@, text@) is None,
        },
{
    let re = regex::Regex::new(pattern).ok()?;
    let found = re.captures(std::str::from_utf8(text).ok()?)?;
    Some(found.iter().map(|m| m.map(|m| m.as_str().as_bytes().to_vec())).collect())
}

/// The groups of each of the successive matches of `pattern` in `text`.
///
/// Trusted: the body compiles the pattern with `regex::Regex::new`, reads the text
/// with `std::str::from_utf8` and calls `regex::Regex::captures_iter`. The contract
/// gives what comes back its name, `all_captures`, and says nothing more of it.
#[verifier::external_body]
pub(crate) fn captures_iter(pattern: &str, text: &Vec<u8>) -> (out: Vec<Vec<Option<Vec<u8>>>>)
    ensures
        match_views(out@) == all_captures(pattern@, text@),
{
    let (Ok(re), Ok(text)) = (regex::Regex::new(pattern), std::str::from_utf8(text)) else {
        return Vec::new();
    };
    re.captures_iter(text).map(
        |found| found.iter().map(|m| m.map(|m| m.as_str().as_bytes().to_vec())).collect(),
    ).collect()
}

} // verus!
