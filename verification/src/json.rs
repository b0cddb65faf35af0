//! JSON documents, read and written by `serde_json`.

use std::collections::HashMap;
use vstd::prelude::*;

use crate::text::nested;

verus! {

/// The array of arrays of numbers that a JSON text holds, if it holds one in which no number is
/// above `max`.
pub uninterp spec fn json_number_lists(text: Seq<char>, max: nat) -> Option<Seq<Seq<usize>>>;

/// The array of arrays of numbers that is the member `key` of the object that a JSON text holds, if
/// there is one in which no number is above `max`.
pub uninterp spec fn json_member_number_lists(text: Seq<char>, key: Seq<char>, max: nat) -> Option<
    Seq<Seq<usize>>,
>;

/// The array of numbers that a JSON text holds, if it holds one in which no number is above `max`.
pub uninterp spec fn json_numbers(text: Seq<char>, max: nat) -> Option<Seq<usize>>;

/// The object that a JSON text holds, if it holds one whose members are strings.
pub uninterp spec fn json_strings(text: Seq<char>) -> Option<Map<Seq<char>, Seq<char>>>;

/// Lists of lists as an optional value.
pub open spec fn optional_nested(lists: Option<Vec<Vec<usize>>>) -> Option<Seq<Seq<usize>>> {
    match lists {
        Some(lists) => Some(nested(lists@)),
        None => None,
    }
}

/// The pairs are the members of the object, each once, in some order.
pub open spec fn lists_members(
    pairs: Seq<(String, String)>,
    object: Map<Seq<char>, Seq<char>>,
) -> bool {
    &&& forall|i: int, j: int|
        #![trigger pairs[i], pairs[j]]
        0 <= i < j < pairs.len() ==> pairs[i].0@ != pairs[j].0@
    &&& forall|i: int|
        0 <= i < pairs.len() ==> object.contains_key((#[trigger] pairs[i]).0@)
            && object[pairs[i].0@] == pairs[i].1@
    &&& forall|key: Seq<char>| #[trigger]
        object.contains_key(key) ==> exists|i: int|
            0 <= i < pairs.len() && (#[trigger] pairs[i]).0@ == key
}

/// `serde_json::from_str` into a `Vec<Vec<usize>>`: what it returns depends on the text alone, and
/// on how much a `usize` holds. That is the name [`json_number_lists`]; nothing is said here of
/// which texts hold which lists.
#[verifier::external_body]
pub(crate) fn read_number_lists(text: &str) -> (lists: Option<Vec<Vec<usize>>>)
    ensures
        optional_nested(lists) == json_number_lists(text@, usize::MAX as nat),
{
    serde_json::from_str::<Vec<Vec<usize>>>(text).ok()
}

/// `serde_json::Value::get` on the document that a text holds, with the text read by
/// `serde_json::from_str` and the member turned into lists by `serde_json::from_value`. What comes
/// out depends on the text and the key alone, and on how much a `usize` holds. That is the name
/// [`json_member_number_lists`]; nothing is said here of which texts hold which members.
#[verifier::external_body]
pub(crate) fn read_member_number_lists(text: &str, key: &str) -> (lists: Option<Vec<Vec<usize>>>)
    ensures
        optional_nested(lists) == json_member_number_lists(text@, key@, usize::MAX as nat),
{
    let document: serde_json::Value = serde_json::from_str(text).ok()?;
    let member: &serde_json::Value = document.get(key)?;
    serde_json::from_value::<Vec<Vec<usize>>>(member.clone()).ok()
}

/// `serde_json::from_str` into a `Vec<usize>`: what it returns depends on the text alone, and on
/// how much a `usize` holds. That is the name [`json_numbers`]; nothing is said here of which texts
/// hold which numbers.
#[verifier::external_body]
pub(crate) fn read_numbers(text: &str) -> (numbers: Option<Vec<usize>>)
    ensures
        numbers is Some == json_numbers(text@, usize::MAX as nat) is Some,
        numbers matches Some(numbers) ==> Some(numbers@) == json_numbers(text@, usize::MAX as nat),
{
    serde_json::from_str::<Vec<usize>>(text).ok()
}

/// `serde_json::from_str` into a `HashMap<String, String>`: the members that it returns depend on
/// the text alone; that is the name [`json_strings`]. The order in which the map hands them out is
/// any order, and nothing is said here of which texts hold which members.
#[verifier::external_body]
pub(crate) fn read_strings(text: &str) -> (pairs: Option<Vec<(String, String)>>)
    ensures
        pairs is Some == json_strings(text@) is Some,
        pairs matches Some(pairs) ==> lists_members(pairs@, json_strings(text@).unwrap()),
{
    let object: HashMap<String, String> = serde_json::from_str(text).ok()?;
    Some(object.into_iter().collect())
}

/// `serde_json::to_string` of a `Vec<Vec<usize>>`: it succeeds, and `serde_json::from_str` reads
/// the same lists back from the text.
#[verifier::external_body]
pub(crate) fn write_number_lists(lists: &Vec<Vec<usize>>) -> (text: String)
    ensures
        json_number_lists(text@, usize::MAX as nat) == Some(nested(lists@)),
{
    serde_json::to_string(lists).unwrap()
}

} // verus!
