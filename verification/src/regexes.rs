//! Regular expressions over markup, compiled with `regex::Regex::new` and
//! then applied.
use vstd::prelude::*;

verus! {

#[verifier::external_type_specification]
#[verifier::external_body]
pub struct ExRegex(regex::Regex);

/// A compiled regular expression, with the pattern it was compiled from.
pub struct Pattern {
    re: regex::Regex,
    text: Ghost<Seq<char>>,
}

impl Pattern {
    /// The pattern this expression was compiled from.
    pub closed spec fn text(&self) -> Seq<char> {
        self.text@
    }
}

/// The name of whether `Regex::new(pattern)` accepts the pattern.
pub uninterp spec fn regex_compiles(pattern: Seq<char>) -> bool;

/// The name of what `Regex::replace_all(input, replacement)` gives for the
/// expression compiled from `pattern`.
pub uninterp spec fn regex_replace_all_result(pattern: Seq<char>, input: Seq<char>, replacement: Seq<char>) -> Seq<char>;

/// The name of what `Regex::is_match(input)` gives for the expression
/// compiled from `pattern`.
pub uninterp spec fn regex_is_match_result(pattern: Seq<char>, input: Seq<char>) -> bool;

/// The name of the text of capture group `group` in the first match of the
/// expression compiled from `pattern` (`Regex::captures`, then
/// `Captures::get`); `None` where there is no match or the group did not
/// take part.
pub uninterp spec fn regex_capture_result(pattern: Seq<char>, input: Seq<char>, group: int) -> Option<Seq<char>>;

/// Group `g` of a match as (start, end, text), the offsets counted in
/// characters; `None` where the group did not take part.
pub type Group = Option<(usize, usize, Seq<char>)>;

/// The name of what `Regex::captures_iter(input)` gives for the expression
/// compiled from `pattern`: each match's groups in order (`Captures::iter`).
pub uninterp spec fn regex_captures_result(pattern: Seq<char>, input: Seq<char>) -> Seq<Seq<Group>>;

/// `Regex::new(pattern)`; a compile error comes back as its display text.
/// The contract claims that it succeeds exactly where `regex_compiles` says,
/// and that the result remembers its pattern.
#[verifier::external_body]
pub(crate) fn compile(pattern: &str) -> (r: Result<Pattern, String>)
    ensures
        r is Ok <==> regex_compiles(pattern@),
        r matches Ok(p) ==> p.text() == pattern@,
{
    match regex::Regex::new(pattern) {
        Ok(re) => Ok(Pattern { re, text: Ghost(pattern@) }),
        Err(err) => Err(err.to_string()),
    }
}

/// `Regex::replace_all`. The contract claims only that the outcome is the
/// one `regex_replace_all_result` names.
#[verifier::external_body]
pub(crate) fn replace_all(p: &Pattern, input: &str, replacement: &str) -> (r: String)
    ensures
        r@ == regex_replace_all_result(p.text(), input@, replacement@),
{
    p.re.replace_all(input, replacement).into_owned()
}

/// `Regex::is_match`. The contract claims only that the outcome is the one
/// `regex_is_match_result` names.
#[verifier::external_body]
pub(crate) fn is_match(p: &Pattern, input: &str) -> (r: bool)
    ensures
        r == regex_is_match_result(p.text(), input@),
{
    p.re.is_match(input)
}

/// `Regex::captures`, then `Captures::get(group)` and the group's text. The
/// contract claims only that the outcome is the one `regex_capture_result`
/// names.
#[verifier::external_body]
pub(crate) fn capture(p: &Pattern, input: &str, group: usize) -> (r: Option<String>)
    ensures
        r.deep_view() == regex_capture_result(p.text(), input@, group as int),
{
    p.re.captures(input).and_then(|c| c.get(group)).map(|m| m.as_str().to_string())
}

/// `Regex::captures_iter`, each match's groups (`Captures::iter`) copied with
/// their byte offsets turned into character offsets. Beside the name
/// `regex_captures_result`, the contract states what the crate documents of
/// every match: group 0 (the whole match) always takes part, each group's
/// text is the haystack between its offsets, and successive matches do not
/// overlap.
#[verifier::external_body]
pub(crate) fn captures_all(p: &Pattern, input: &str) -> (r: Vec<Vec<Option<(usize, usize, String)>>>)
    ensures
        r.deep_view() == regex_captures_result(p.text(), input@),
        forall|k: int| 0 <= k < r.len() ==> (#[trigger] r@[k])@.len() >= 1 && r@[k]@[0] is Some,
        forall|k: int, g: int|
            0 <= k < r.len() && 0 <= g < r@[k]@.len() && (#[trigger] r@[k]@[g]) is Some ==> {
                let m = r@[k]@[g]->0;
                m.0 <= m.1 <= input@.len() && m.2@ == input@.subrange(m.0 as int, m.1 as int)
            },
        forall|k: int|
            0 <= k && k + 1 < r.len() ==> match (#[trigger] r@[k]@[0], r@[k + 1]@[0]) {
                (Some(a), Some(b)) => a.1 <= b.0,
                _ => true,
            },
{
    let pos = |b: usize| input[..b].chars().count();
    p.re.captures_iter(input).map(|c| c.iter().map(|g| g.map(|m| (pos(m.start()), pos(m.end()), m.as_str().to_string()))).collect()).collect()
}

} // verus!
