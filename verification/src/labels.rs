//! Ground-truth labels of vectors.

use std::collections::HashMap;
use vstd::prelude::*;

use crate::json::{json_numbers, json_strings, lists_members, read_numbers, read_strings};
use crate::text::{
    chars_of, decimal, decimal_text, law_decimal_round_trip, parse_number, parsed_number,
};

verus! {

broadcast use vstd::std_specs::hash::group_hash_axioms;

/// The content is in no known format.
#[derive(Debug, PartialEq, Eq, Clone, Copy)]
pub struct LabelsError;

/// The labels as texts.
pub open spec fn label_texts(labels: Map<usize, String>) -> Map<usize, Seq<char>> {
    labels.map_values(|label: String| label@)
}

/// The labels that an array gives: vector `i` has the `i`-th number as its label.
pub open spec fn numbered_labels(numbers: Seq<usize>) -> Map<usize, Seq<char>> {
    Map::new(|i: usize| i < numbers.len(), |i: usize| decimal(numbers[i as int] as nat))
}

/// The labels that a list of pairs gives, the first of a pair naming the vector. Pairs that name no
/// vector are passed over, and of several that name the same vector the last one counts.
pub open spec fn paired_labels(pairs: Seq<(String, String)>) -> Map<usize, Seq<char>>
    decreases pairs.len(),
{
    if pairs.len() == 0 {
        Map::empty()
    } else {
        let before = paired_labels(pairs.drop_last());
        match parsed_number(pairs.last().0@) {
            Some(vector) => before.insert(vector, pairs.last().1@),
            None => before,
        }
    }
}

/// Some member of the object has a key that names the vector.
pub open spec fn names_vector(object: Map<Seq<char>, Seq<char>>, vector: usize) -> bool {
    exists|key: Seq<char>| #[trigger] object.contains_key(key) && parsed_number(key) == Some(vector)
}

/// The labels are those of the object: a vector is labelled if some key names it, and its label is
/// the member under such a key. Several keys can name one vector, as `1` and `01` do.
pub open spec fn labels_of_object(
    labels: Map<usize, Seq<char>>,
    object: Map<Seq<char>, Seq<char>>,
) -> bool {
    &&& forall|vector: usize| #[trigger]
        labels.contains_key(vector) == names_vector(object, vector)
    &&& forall|vector: usize| #[trigger]
        labels.contains_key(vector) ==> exists|key: Seq<char>| #[trigger]
            object.contains_key(key) && parsed_number(key) == Some(vector) && object[key]
                == labels[vector]
}

/// Labels the vectors by an array of numbers.
pub fn labels_from_numbers(numbers: &Vec<usize>) -> (labels: HashMap<usize, String>)
    ensures
        label_texts(labels@) == numbered_labels(numbers@),
{
    let mut labels: HashMap<usize, String> = HashMap::new();
    let mut i: usize = 0;
    assert(label_texts(labels@) =~= numbered_labels(numbers@.take(0)));
    while i < numbers.len()
        invariant
            i <= numbers@.len(),
            label_texts(labels@) == numbered_labels(numbers@.take(i as int)),
        decreases numbers.len() - i,
    {
        let ghost before = labels@;
        let label = decimal_text(numbers[i]);
        labels.insert(i, label);
        assert(label_texts(labels@) =~= label_texts(before).insert(i, label@));
        assert(numbered_labels(numbers@.take(i + 1)) =~= numbered_labels(
            numbers@.take(i as int),
        ).insert(i, decimal(numbers@[i as int] as nat)));
        i = i + 1;
    }
    assert(numbers@.take(i as int) =~= numbers@);
    labels
}

/// Labels the vectors by pairs of a vector and a label.
pub fn labels_from_pairs(pairs: &Vec<(String, String)>) -> (labels: HashMap<usize, String>)
    ensures
        label_texts(labels@) == paired_labels(pairs@),
{
    let mut labels: HashMap<usize, String> = HashMap::new();
    let mut i: usize = 0;
    assert(pairs@.take(0) =~= Seq::empty());
    assert(label_texts(labels@) =~= Map::empty());
    while i < pairs.len()
        invariant
            i <= pairs@.len(),
            label_texts(labels@) == paired_labels(pairs@.take(i as int)),
        decreases pairs.len() - i,
    {
        let ghost before = labels@;
        assert(pairs@.take(i + 1).drop_last() =~= pairs@.take(i as int));
        if let Some(vector) = parse_number(&chars_of(pairs[i].0.as_str())) {
            let label = pairs[i].1.clone();
            labels.insert(vector, label);
            assert(label_texts(labels@) =~= label_texts(before).insert(vector, label@));
        }
        i = i + 1;
    }
    assert(pairs@.take(i as int) =~= pairs@);
    labels
}

/// A vector is labelled by pairs if one of them names it, and by what such a pair says.
proof fn lemma_paired_labels(pairs: Seq<(String, String)>, vector: usize)
    ensures
        paired_labels(pairs).contains_key(vector) ==> exists|i: int|
            0 <= i < pairs.len() && parsed_number((#[trigger] pairs[i]).0@) == Some(vector)
                && pairs[i].1@ == paired_labels(pairs)[vector],
        forall|i: int|
            0 <= i < pairs.len() && parsed_number((#[trigger] pairs[i]).0@) == Some(vector)
                ==> paired_labels(pairs).contains_key(vector),
    decreases pairs.len(),
{
    if pairs.len() > 0 {
        let init = pairs.drop_last();
        lemma_paired_labels(init, vector);
        if paired_labels(pairs).contains_key(vector) {
            if parsed_number(pairs.last().0@) == Some(vector) {
                assert(pairs[pairs.len() - 1].1@ == paired_labels(pairs)[vector]);
            } else {
                let i = choose|i: int|
                    0 <= i < init.len() && parsed_number((#[trigger] init[i]).0@) == Some(vector)
                        && init[i].1@ == paired_labels(init)[vector];
                assert(pairs[i] == init[i]);
            }
        }
        assert forall|i: int|
            0 <= i < pairs.len() && parsed_number((#[trigger] pairs[i]).0@) == Some(
                vector,
            ) implies paired_labels(pairs).contains_key(vector) by {
            if i < init.len() {
                assert(init[i] == pairs[i]);
            }
        }
    }
}

/// Whatever the order in which the members of an object are taken, the labels are those of the
/// object.
pub proof fn law_labels_of_object(
    pairs: Seq<(String, String)>,
    object: Map<Seq<char>, Seq<char>>,
)
    requires
        lists_members(pairs, object),
    ensures
        labels_of_object(paired_labels(pairs), object),
{
    let labels = paired_labels(pairs);
    assert forall|vector: usize| #[trigger]
        labels.contains_key(vector) == names_vector(object, vector) by {
        lemma_paired_labels(pairs, vector);
        if labels.contains_key(vector) {
            let i = choose|i: int|
                0 <= i < pairs.len() && parsed_number((#[trigger] pairs[i]).0@) == Some(vector)
                    && pairs[i].1@ == labels[vector];
            assert(object.contains_key(pairs[i].0@));
        }
        if names_vector(object, vector) {
            let key = choose|key: Seq<char>| #[trigger]
                object.contains_key(key) && parsed_number(key) == Some(vector);
            let i = choose|i: int| 0 <= i < pairs.len() && (#[trigger] pairs[i]).0@ == key;
            assert(parsed_number(pairs[i].0@) == Some(vector));
        }
    }
    assert forall|vector: usize| #[trigger] labels.contains_key(vector) implies exists|
        key: Seq<char>,
    | #[trigger]
        object.contains_key(key) && parsed_number(key) == Some(vector) && object[key]
            == labels[vector] by {
        lemma_paired_labels(pairs, vector);
        let i = choose|i: int|
            0 <= i < pairs.len() && parsed_number((#[trigger] pairs[i]).0@) == Some(vector)
                && pairs[i].1@ == labels[vector];
        assert(object.contains_key(pairs[i].0@));
    }
}

/// Whether this is what is read from a content: the labels that an array of numbers gives, else
/// those of an object, else an error.
pub open spec fn are_labels_read(
    content: Seq<char>,
    read: Result<HashMap<usize, String>, LabelsError>,
) -> bool {
    match json_numbers(content, usize::MAX as nat) {
        Some(numbers) => {
            &&& read matches Ok(labels)
            &&& label_texts(labels@) == numbered_labels(numbers)
        },
        None => match json_strings(content) {
            Some(object) => {
                &&& read matches Ok(labels)
                &&& labels_of_object(label_texts(labels@), object)
            },
            None => read is Err,
        },
    }
}

/// Reads ground-truth labels from the content of a JSON file.
///
/// Expects `{"0": "label_a", "1": "label_b", ...}` or `[0, 1, 0, 2, ...]`.
pub fn load_labels(content: &str) -> (read: Result<HashMap<usize, String>, LabelsError>)
    ensures
        are_labels_read(content@, read),
{
    if let Some(numbers) = read_numbers(content) {
        return Ok(labels_from_numbers(&numbers));
    }
    if let Some(pairs) = read_strings(content) {
        proof {
            law_labels_of_object(pairs@, json_strings(content@).unwrap());
        }
        return Ok(labels_from_pairs(&pairs));
    }
    Err(LabelsError)
}

/// An array labels exactly the vectors that it has a number for, each by the text that denotes its
/// number.
pub proof fn law_labels_of_an_array(numbers: Seq<usize>, labels: Map<usize, String>, vector: usize)
    requires
        label_texts(labels) == numbered_labels(numbers),
    ensures
        labels.contains_key(vector) == (vector < numbers.len()),
        vector < numbers.len() ==> labels[vector]@ == decimal(numbers[vector as int] as nat)
            && parsed_number(labels[vector]@) == Some(numbers[vector as int]),
{
    assert(label_texts(labels).contains_key(vector) == labels.contains_key(vector));
    if vector < numbers.len() {
        assert(label_texts(labels)[vector] == labels[vector]@);
        law_decimal_round_trip(numbers[vector as int]);
    }
}

/// One more pair labels the vector that it names, whatever label that had, and leaves all others as
/// they are; a pair that names no vector changes nothing.
pub proof fn law_one_more_pair(pairs: Seq<(String, String)>, pair: (String, String))
    ensures
        parsed_number(pair.0@) is None ==> paired_labels(pairs.push(pair)) == paired_labels(pairs),
        parsed_number(pair.0@) matches Some(named) ==> {
            &&& paired_labels(pairs.push(pair)).contains_key(named)
            &&& paired_labels(pairs.push(pair))[named] == pair.1@
            &&& forall|vector: usize|
                vector != named ==> #[trigger] paired_labels(pairs.push(pair)).contains_key(vector)
                    == paired_labels(pairs).contains_key(vector)
            &&& forall|vector: usize|
                vector != named && paired_labels(pairs).contains_key(vector)
                    ==> #[trigger] paired_labels(pairs.push(pair))[vector] == paired_labels(
                    pairs,
                )[vector]
        },
        forall|vector: usize| !#[trigger] paired_labels(Seq::empty()).contains_key(vector),
{
    assert(pairs.push(pair).drop_last() =~= pairs);
}

/// Where a single key of an object names a vector, the vector is labelled by the member under it;
/// where none does, it is not labelled.
pub proof fn law_vector_labelled_by_an_object(
    labels: Map<usize, String>,
    object: Map<Seq<char>, Seq<char>>,
    vector: usize,
    key: Seq<char>,
)
    requires
        labels_of_object(label_texts(labels), object),
    ensures
        object.contains_key(key) && parsed_number(key) == Some(vector) && (forall|other: Seq<char>|
         #[trigger]
            object.contains_key(other) && parsed_number(other) == Some(vector) ==> other == key)
            ==> labels.contains_key(vector) && labels[vector]@ == object[key],
        (forall|other: Seq<char>| #[trigger]
            object.contains_key(other) ==> parsed_number(other) != Some(vector))
            ==> !labels.contains_key(vector),
{
    let texts = label_texts(labels);
    assert(texts.contains_key(vector) == labels.contains_key(vector));
    assert(texts.contains_key(vector) == names_vector(object, vector));
    if labels.contains_key(vector) {
        assert(texts[vector] == labels[vector]@);
    }
}

/// A content is read if and only if it holds an array of numbers or an object of strings. An array
/// labels each vector that it has a number for by that number in decimal, and no other. Without an
/// array, an object labels a vector that a single key names by the member under that key, and no
/// vector that no key names.
pub proof fn law_labels_that_are_read(
    content: Seq<char>,
    read: Result<HashMap<usize, String>, LabelsError>,
    vector: usize,
    key: Seq<char>,
)
    requires
        are_labels_read(content, read),
    ensures
        read is Ok == (json_numbers(content, usize::MAX as nat) is Some || json_strings(
            content,
        ) is Some),
        json_numbers(content, usize::MAX as nat) matches Some(numbers) ==> {
            &&& read->Ok_0@.contains_key(vector) == (vector < numbers.len())
            &&& vector < numbers.len() ==> read->Ok_0@[vector]@ == decimal(
                numbers[vector as int] as nat,
            )
        },
        json_numbers(content, usize::MAX as nat) is None ==> (json_strings(content) matches Some(
            object,
        ) ==> {
            &&& object.contains_key(key) && parsed_number(key) == Some(vector) && (forall|
                other: Seq<char>,
            | #[trigger]
                object.contains_key(other) && parsed_number(other) == Some(vector) ==> other == key)
                ==> read->Ok_0@.contains_key(vector) && read->Ok_0@[vector]@ == object[key]
            &&& (forall|other: Seq<char>| #[trigger]
                object.contains_key(other) ==> parsed_number(other) != Some(vector))
                ==> !read->Ok_0@.contains_key(vector)
        }),
{
    match json_numbers(content, usize::MAX as nat) {
        Some(numbers) => {
            law_labels_of_an_array(numbers, read->Ok_0@, vector);
        },
        None => {
            if let Some(object) = json_strings(content) {
                law_vector_labelled_by_an_object(read->Ok_0@, object, vector, key);
            }
        },
    }
}

} // verus!
