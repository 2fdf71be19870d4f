//! Reading a pair of values out of a text such as `400x600` or `1.0,0.5`.

use std::str::FromStr;
use vstd::prelude::*;
use vstd::string::StrSliceExecFns;

verus! {

/// `at` is the place of the first `separator` in `text`.
pub open spec fn splits_at(text: Seq<char>, separator: char, at: int) -> bool {
    &&& 0 <= at < text.len()
    &&& text[at] == separator
    &&& forall|j: int| 0 <= j < at ==> text[j] != separator
}

/// Both values, where both are there.
pub open spec fn both<T>(left: Option<T>, right: Option<T>) -> Option<(T, T)> {
    match (left, right) {
        (Some(l), Some(r)) => Some((l, r)),
        _ => None,
    }
}

/// Cuts `s` at its first `separator`: what stands before it and what stands
/// after it, without the separator itself. `None` where `s` holds none.
pub fn split_pair<'a>(s: &'a str, separator: char) -> (res: Option<(&'a str, &'a str)>)
    ensures
        res is None <==> !s@.contains(separator),
        res matches Some((left, right)) ==> exists|at: int|
            #![trigger splits_at(s@, separator, at)]
            splits_at(s@, separator, at) && left@ == s@.subrange(0, at) && right@ == s@.subrange(
                at + 1,
                s@.len() as int,
            ),
{
    let len: usize = s.unicode_len();
    let mut at: usize = 0;
    while at < len
        invariant
            len == s@.len(),
            at <= len,
            forall|j: int| 0 <= j < at ==> s@[j] != separator,
        decreases len - at,
    {
        if s.get_char(at) == separator {
            let left = s.substring_char(0, at);
            let right = s.substring_char(at + 1, len);
            assert(splits_at(s@, separator, at as int));
            return Some((left, right));
        }
        at = at + 1;
    }
    None
}

/// Pairs two values up; `None` where either is missing.
pub fn pair_of<T>(left: Option<T>, right: Option<T>) -> (res: Option<(T, T)>)
    ensures
        res == both(left, right),
{
    match (left, right) {
        (Some(l), Some(r)) => Some((l, r)),
        _ => None,
    }
}

/// `left` and `right` are what stands before and after the first `separator`
/// of `text`.
pub open spec fn cut_at_first(
    text: Seq<char>,
    separator: char,
    left: Seq<char>,
    right: Seq<char>,
) -> bool {
    exists|at: int|
        #![trigger splits_at(text, separator, at)]
        splits_at(text, separator, at) && left == text.subrange(0, at) && right == text.subrange(
            at + 1,
            text.len() as int,
        )
}

/// Reads a text of the form `<left><separator><right>` as a pair of values,
/// each side read by `parse`.
///
/// The text is cut at its first `separator`. The result is `None` where the
/// text holds no separator or where `parse` gives `None` for either side; else
/// it holds what `parse` gave for the left side and for the right side.
pub fn parse_pair_with<T, F: Fn(&str) -> Option<T>>(s: &str, separator: char, parse: F) -> (res:
    Option<(T, T)>)
    requires
        forall|text: &str| #[trigger] parse.requires((text,)),
    ensures
        !s@.contains(separator) ==> res is None,
        s@.contains(separator) ==> exists|left: &str, right: &str, l: Option<T>, r: Option<T>|
            cut_at_first(s@, separator, left@, right@) && #[trigger] parse.ensures((left,), l)
                && #[trigger] parse.ensures((right,), r) && res == both(l, r),
{
    match split_pair(s, separator) {
        None => None,
        Some((left, right)) => {
            let l = parse(left);
            let r = parse(right);
            let res = pair_of(l, r);
            assert(cut_at_first(s@, separator, left@, right@));
            assert(parse.ensures((left,), l) && parse.ensures((right,), r) && res == both(l, r));
            res
        },
    }
}

/// Calls `FromStr::from_str` of `T` on `text` and gives `None` where it
/// returns an error. Nothing is claimed of which texts a type accepts, nor of
/// the value it reads from them: that is the type's own affair.
#[verifier::external_body]
fn parse_text<T: FromStr>(text: &str) -> (value: Option<T>) {
    match T::from_str(text) {
        Ok(value) => Some(value),
        Err(_) => None,
    }
}

/// Reads a text of the form `<left><separator><right>` as a pair of values.
///
/// The text is cut at its first `separator` and each side is read with
/// `T`'s `from_str`. The result is `None` where the text holds no separator
/// or where either side is not accepted.
pub fn parse_pair<T: FromStr>(s: &str, separator: char) -> (res: Option<(T, T)>)
    ensures
        !s@.contains(separator) ==> res is None,
{
    parse_pair_with(s, separator, parse_text::<T>)
}

} // verus!
