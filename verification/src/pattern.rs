use vstd::prelude::*;

verus! {

#[verifier::external_type_specification]
#[verifier::external_body]
pub struct ExRegexError(regex::Error);

/// Whether `regex::Regex::new` accepts `pattern` (it rejects invalid
/// patterns and those that would compile to a regex over the default size
/// limit).
pub uninterp spec fn pattern_compiles(pattern: Seq<char>) -> bool;

/// What `regex::Regex::captures_iter` yields for the regex compiled from
/// `pattern`, searching `text`: for each successive match, the byte span
/// (start, end) of capture group `group`, or `None` where that group did not
/// take part in the match.
pub uninterp spec fn pattern_captures(pattern: Seq<char>, text: Seq<char>, group: usize) -> Seq<
    Option<(usize, usize)>,
>;

/// Every span is present.
pub open spec fn all_present(spans: Seq<Option<(usize, usize)>>) -> bool {
    forall|i: int| 0 <= i < spans.len() ==> #[trigger] spans[i] is Some
}

/// Wrapper for `regex::Regex::new` on `pattern`, then
/// `regex::Regex::captures_iter` on `text`, each match turned into the span
/// of group `group` (`Captures::get`, `Match::start`, `Match::end`). It
/// claims that compiling succeeds exactly on the patterns named by
/// `pattern_compiles`, that the spans are those named by `pattern_captures`
/// (a function of the pattern, the text and the group alone), and that
/// group 0, the whole match, is present in every match, as the crate
/// documents. What the spans are is left to the name.
#[verifier::external_body]
pub(crate) fn pattern_captures_in(pattern: &str, text: &str, group: usize) -> (r: Result<
    Vec<Option<(usize, usize)>>,
    regex::Error,
>)
    ensures
        r is Ok <==> pattern_compiles(pattern@),
        r matches Ok(spans) ==> spans@ == pattern_captures(pattern@, text@, group),
        r matches Ok(spans) ==> (group == 0 ==> all_present(spans@)),
{
    let re = regex::Regex::new(pattern)?;
    Ok(re.captures_iter(text).map(|cap| cap.get(group).map(|m| (m.start(), m.end()))).collect())
}

} // verus!
