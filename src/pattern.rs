//! Regular-expression matching, done by the `regex` crate.

use vstd::prelude::*;
use vstd::std_specs::iter::IteratorSpec;

verus! {

/// The text of the leftmost-first match of `pattern` in `text`, as the
/// `regex` crate reports it; none when the pattern does not compile or
/// nothing matches.
pub uninterp spec fn regex_first_match(pattern: Seq<char>, text: Seq<char>) -> Option<Seq<char>>;

/// `part` occurs in `whole` as a contiguous slice.
pub open spec fn is_infix(part: Seq<char>, whole: Seq<char>) -> bool {
    exists|k: int|
        0 <= k && k + part.len() <= whole.len() && #[trigger] whole.subrange(k, k + part.len())
            == part
}

/// Relies on `regex::Regex::new` to compile `pattern` and on
/// `regex::Regex::find` for the leftmost-first match, which is a slice of
/// `text`.
#[verifier::external_body]
pub(crate) fn first_match(pattern: &str, text: &str) -> (r: Option<String>)
    ensures
        r matches Some(m) ==> regex_first_match(pattern@, text@) == Some(m@) && is_infix(m@, text@),
        r is None ==> regex_first_match(pattern@, text@) is None,
{
    match regex::Regex::new(pattern) {
        Ok(re) => re.find(text).map(|m| m.as_str().to_string()),
        Err(_) => None,
    }
}

/// Whether `pattern` matches somewhere in `text`.
pub open spec fn regex_matches(pattern: Seq<char>, text: Seq<char>) -> bool {
    regex_first_match(pattern, text) is Some
}

/// Whether `pattern` matches somewhere in `text`.
pub fn is_match(pattern: &str, text: &str) -> (r: bool)
    ensures
        r == regex_matches(pattern@, text@),
{
    first_match(pattern, text).is_some()
}

/// The characters of `s`, in order.
pub fn chars_of(s: &str) -> (r: Vec<char>)
    ensures
        r@ == s@,
{
    broadcast use vstd::string::axiom_spec_iter, vstd::string::next_postcondition;

    let mut r: Vec<char> = Vec::new();
    let mut it = s.chars();
    loop
        invariant
            r.len() <= s@.len(),
            r@ == s@.take(r.len() as int),
            it.remaining() == s@.skip(r.len() as int),
        ensures
            r@ == s@,
        decreases s@.len() - r.len(),
    {
        match it.next() {
            Some(c) => {
                assert(s@.take(r.len() + 1) =~= s@.take(r.len() as int).push(c));
                r.push(c);
                assert(s@.skip(r.len() as int) =~= s@.skip(r.len() - 1).drop_first());
            },
            None => {
                assert(r@ =~= s@);
                break;
            },
        }
    }
    r
}

} // verus!
