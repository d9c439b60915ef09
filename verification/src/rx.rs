//! Regular-expression matching, provided by the `regex` crate.

use vstd::prelude::*;

verus! {

/// What `regex` answers for `pattern` against `haystack`: `None` when `pattern` does not
/// compile, else whether it matches somewhere in `haystack`.
pub uninterp spec fn regex_is_match(pattern: Seq<char>, haystack: Seq<char>) -> Option<bool>;

/// What `regex` yields for `pattern` against `haystack`: `None` when `pattern` does not
/// compile, else, for each successive non-overlapping match, the text of capture group
/// `group` (`None` where that group did not take part in the match).
pub uninterp spec fn regex_group_texts(pattern: Seq<char>, haystack: Seq<char>, group: nat) -> Option<
    Seq<Option<Seq<char>>>,
>;

pub open spec fn opt_strs_view(v: Seq<Option<String>>) -> Seq<Option<Seq<char>>> {
    v.map_values(
        |o: Option<String>|
            match o {
                Some(s) => Some(s@),
                None => None,
            },
    )
}

/// Compiles `pattern` with `regex::Regex::new` and asks `Regex::is_match` about `haystack`.
/// The contract names the answer; it states nothing of how `regex` decides it.
#[verifier::external_body]
pub(crate) fn is_match(pattern: &str, haystack: &str) -> (r: Option<bool>)
    ensures
        r == regex_is_match(pattern@, haystack@),
{
    match regex::Regex::new(pattern) {
        Ok(re) => Some(re.is_match(haystack)),
        Err(_) => None,
    }
}

/// Compiles `pattern` with `regex::Regex::new` and collects, from `Regex::captures_iter` over
/// `haystack`, the text of capture group `group` of each match. The contract names the result.
#[verifier::external_body]
pub(crate) fn group_texts(pattern: &str, haystack: &str, group: usize) -> (r: Option<
    Vec<Option<String>>,
>)
    ensures
        match r {
            Some(v) => regex_group_texts(pattern@, haystack@, group as nat) == Some(
                opt_strs_view(v@),
            ),
            None => regex_group_texts(pattern@, haystack@, group as nat) is None,
        },
{
    match regex::Regex::new(pattern) {
        Ok(re) => {
            let mut out = Vec::new();
            for caps in re.captures_iter(haystack) {
                out.push(
                    match caps.get(group) {
                        Some(m) => Some(m.as_str().to_string()),
                        None => None,
                    },
                );
            }
            Some(out)
        },
        Err(_) => None,
    }
}

} // verus!
