use vstd::prelude::*;
use std::str::FromStr;

verus! {

/// Splits `s` at the first `separator`, giving the text before it and the
/// text after it, or `None` when `separator` does not occur.
pub fn split_pair(s: &str, separator: char) -> (r: Option<(&str, &str)>)
    ensures
        r is None <==> !s@.contains(separator),
        r matches Some((left, right)) ==> {
            &&& left@ + seq![separator] + right@ == s@
            &&& !left@.contains(separator)
        },
{
    let n = s.unicode_len();
    let mut i: usize = 0;
    while i < n
        invariant
            n == s@.len(),
            i <= n,
            forall|j: int| 0 <= j < i ==> s@[j] != separator,
        decreases n - i,
    {
        if s.get_char(i) == separator {
            let left = s.substring_char(0, i);
            let right = s.substring_char(i + 1, n);
            proof {
                assert(left@ + seq![separator] + right@ =~= s@);
                assert(!left@.contains(separator));
            }
            return Some((left, right));
        }
        i = i + 1;
    }
    proof {
        assert(!s@.contains(separator));
    }
    None
}

/// Relies on `FromStr::from_str` of `T`: reads `s` as a `T`, or refuses it.
#[verifier::external_body]
fn parse_field<T: FromStr>(s: &str) -> (r: Option<T>) {
    T::from_str(s).ok()
}

/// Pairs two fields that were read, or gives `None` when either was refused.
pub fn join_fields<T>(left: Option<T>, right: Option<T>) -> (r: Option<(T, T)>)
    ensures
        r is Some <==> left is Some && right is Some,
        r matches Some((a, b)) ==> left == Some(a) && right == Some(b),
{
    match (left, right) {
        (Some(a), Some(b)) => Some((a, b)),
        _ => None,
    }
}

/// Reads a pair such as `"400x600"` or `"1.0,0.5"`: the text before the
/// first `separator` and the text after it, each read as a `T`.
pub fn parse_pair<T: FromStr>(s: &str, separator: char) -> (r: Option<(T, T)>)
    ensures
        !s@.contains(separator) ==> r is None,
{
    match split_pair(s, separator) {
        None => None,
        Some((left, right)) => join_fields(parse_field(left), parse_field(right)),
    }
}

} // verus!
