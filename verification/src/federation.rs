//! Search queries, the parameters of a federated search, and how the former turn into the latter.

use vstd::prelude::*;

verus! {

/// The characters of each string of a list.
pub open spec fn texts(list: Seq<String>) -> Seq<Seq<char>> {
    list.map_values(|text: String| text@)
}

/// The characters of an optional string.
pub open spec fn optional_text(text: Option<String>) -> Option<Seq<char>> {
    match text {
        Some(text) => Some(text@),
        None => None,
    }
}

/// The characters of each string of an optional list.
pub open spec fn optional_texts(list: Option<Vec<String>>) -> Option<Seq<Seq<char>>> {
    match list {
        Some(list) => Some(texts(list@)),
        None => None,
    }
}

/// What cloning an optional value may yield.
pub open spec fn optional_cloned<T: Clone>(original: Option<T>, copy: Option<T>) -> bool {
    match (original, copy) {
        (Some(original), Some(copy)) => cloned(original, copy),
        (None, None) => true,
        _ => false,
    }
}

/// One search query, together with the index it searches.
///
/// `O` is the type of the options that weigh a query inside a federated search. `P` holds the
/// parameters that concern this one search only: vectors, filters, highlighting and the like.
/// Neither is looked into here.
pub struct SearchQueryWithIndex<O, P> {
    pub index_uid: String,
    pub q: Option<String>,
    pub offset: Option<usize>,
    pub limit: Option<usize>,
    pub page: Option<usize>,
    pub hits_per_page: Option<usize>,
    pub show_performance_details: Option<bool>,
    pub distinct: Option<String>,
    pub facets: Option<Vec<String>>,
    pub federation_options: Option<O>,
    pub parameters: P,
}

/// The facets asked for, index by index. No index has two entries.
pub struct FacetsByIndex {
    entries: Vec<(String, Option<Vec<String>>)>,
}

/// The parameters of a federated search. `M` tells how the facets of several indexes are merged.
pub struct Federation<M> {
    pub limit: usize,
    pub offset: usize,
    pub page: Option<usize>,
    pub hits_per_page: Option<usize>,
    pub facets_by_index: FacetsByIndex,
    pub merge_facets: Option<M>,
    pub show_performance_details: bool,
    pub distinct: Option<String>,
}

/// No two entries speak of the same index.
spec fn distinct_keys(entries: Seq<(String, Option<Vec<String>>)>) -> bool {
    forall|i: int, j: int|
        #![trigger entries[i], entries[j]]
        0 <= i < j < entries.len() ==> entries[i].0@ != entries[j].0@
}

/// Whether some entry speaks of the index `key`.
spec fn has_key(entries: Seq<(String, Option<Vec<String>>)>, key: Seq<char>) -> bool {
    exists|i: int| 0 <= i < entries.len() && (#[trigger] entries[i]).0@ == key
}

/// The position of the entry that speaks of the index `key`.
spec fn key_position(entries: Seq<(String, Option<Vec<String>>)>, key: Seq<char>) -> int {
    choose|i: int| 0 <= i < entries.len() && (#[trigger] entries[i]).0@ == key
}

/// The entries as a map.
spec fn entries_map(entries: Seq<(String, Option<Vec<String>>)>) -> Map<
    Seq<char>,
    Option<Seq<Seq<char>>>,
> {
    Map::new(
        |key: Seq<char>| has_key(entries, key),
        |key: Seq<char>| optional_texts(entries[key_position(entries, key)].1),
    )
}

impl View for FacetsByIndex {
    type V = Map<Seq<char>, Option<Seq<Seq<char>>>>;

    closed spec fn view(&self) -> Map<Seq<char>, Option<Seq<Seq<char>>>> {
        entries_map(self.entries@)
    }
}

/// With distinct keys, the map holds at each key what the entry at that key holds.
proof fn lemma_entry_in_map(entries: Seq<(String, Option<Vec<String>>)>, i: int)
    requires
        distinct_keys(entries),
        0 <= i < entries.len(),
    ensures
        entries_map(entries).contains_key(entries[i].0@),
        entries_map(entries)[entries[i].0@] == optional_texts(entries[i].1),
{
    let key = entries[i].0@;
    assert(has_key(entries, key));
    let p = key_position(entries, key);
    assert(0 <= p < entries.len() && entries[p].0@ == key);
    assert(p == i);
}

impl FacetsByIndex {
    #[verifier::type_invariant]
    spec fn wf(self) -> bool {
        distinct_keys(self.entries@)
    }

    /// No facets for any index.
    pub fn new() -> (facets: Self)
        ensures
            facets@ == Map::<Seq<char>, Option<Seq<Seq<char>>>>::empty(),
    {
        let facets = FacetsByIndex { entries: Vec::new() };
        assert(facets@ =~= Map::<Seq<char>, Option<Seq<Seq<char>>>>::empty());
        facets
    }

    /// Sets the facets asked for of one index, whatever was asked for before.
    pub fn set(self, index_uid: String, facets: Option<Vec<String>>) -> (updated: Self)
        ensures
            updated@ == self@.insert(index_uid@, optional_texts(facets)),
    {
        proof {
            use_type_invariant(&self);
        }
        let ghost before = self.entries@;
        let mut entries = self.entries;
        let mut position: usize = 0;
        while position < entries.len()
            invariant
                entries@ == before,
                self@ == entries_map(before),
                distinct_keys(before),
                position <= entries.len(),
                forall|i: int| 0 <= i < position ==> (#[trigger] before[i]).0@ != index_uid@,
            decreases entries.len() - position,
        {
            if entries[position].0 == index_uid {
                let ghost key = index_uid@;
                let ghost value = optional_texts(facets);
                entries[position] = (index_uid, facets);
                let ghost after = entries@;
                proof {
                    assert forall|i: int| 0 <= i < before.len() implies (#[trigger] after[i]).0@
                        == before[i].0@ by {}
                    assert(distinct_keys(after)) by {
                        assert forall|i: int, j: int|
                            #![trigger after[i], after[j]]
                            0 <= i < j < after.len() implies after[i].0@ != after[j].0@ by {
                            let _ = before[i];
                            let _ = before[j];
                        }
                    }
                    lemma_entry_in_map(after, position as int);
                    assert(entries_map(after) =~= entries_map(before).insert(key, value)) by {
                        assert forall|k: Seq<char>| has_key(after, k) == has_key(before, k) by {
                            if has_key(after, k) {
                                let p = key_position(after, k);
                                assert(before[p].0@ == k);
                            }
                            if has_key(before, k) {
                                let p = key_position(before, k);
                                assert(after[p].0@ == k);
                            }
                        }
                        assert(has_key(before, key)) by {
                            assert(before[position as int].0@ == key);
                        }
                        assert forall|k: Seq<char>| has_key(before, k) && k != key implies entries_map(
                            after,
                        )[k] == entries_map(before)[k] by {
                            let p = key_position(before, k);
                            assert(after[p].0@ == k);
                            lemma_entry_in_map(before, p);
                            lemma_entry_in_map(after, p);
                        }
                    }
                }
                return FacetsByIndex { entries };
            }
            position = position + 1;
        }
        let ghost key = index_uid@;
        let ghost value = optional_texts(facets);
        entries.push((index_uid, facets));
        proof {
            let after = entries@;
            assert forall|i: int| 0 <= i < before.len() implies #[trigger] after[i]
                == before[i] by {}
            assert(distinct_keys(after)) by {
                assert forall|i: int, j: int|
                    #![trigger after[i], after[j]]
                    0 <= i < j < after.len() implies after[i].0@ != after[j].0@ by {
                    let _ = before[i];
                    let _ = before[j];
                }
            }
            lemma_entry_in_map(after, before.len() as int);
            assert(entries_map(after) =~= entries_map(before).insert(key, value)) by {
                assert forall|k: Seq<char>| has_key(after, k) == (has_key(before, k) || k
                    == key) by {
                    if has_key(after, k) {
                        let p = key_position(after, k);
                        if p < before.len() {
                            assert(before[p].0@ == k);
                        }
                    }
                    if has_key(before, k) {
                        let p = key_position(before, k);
                        assert(after[p].0@ == k);
                    }
                    if k == key {
                        assert(after[before.len() as int].0@ == k);
                    }
                }
                assert forall|k: Seq<char>| has_key(before, k) && k != key implies entries_map(
                    after,
                )[k] == entries_map(before)[k] by {
                    let p = key_position(before, k);
                    assert(after[p].0@ == k);
                    lemma_entry_in_map(before, p);
                    lemma_entry_in_map(after, p);
                }
            }
        }
        FacetsByIndex { entries }
    }

    /// The entries, each index once, with what is asked of it.
    pub fn into_entries(self) -> (entries: Vec<(String, Option<Vec<String>>)>)
        ensures
            forall|i: int, j: int|
                #![trigger entries[i], entries[j]]
                0 <= i < j < entries.len() ==> entries[i].0@ != entries[j].0@,
            forall|i: int|
                0 <= i < entries.len() ==> self@.contains_key((#[trigger] entries[i]).0@)
                    && self@[entries[i].0@] == optional_texts(entries[i].1),
            forall|key: Seq<char>| #[trigger]
                self@.contains_key(key) ==> exists|i: int|
                    0 <= i < entries.len() && (#[trigger] entries[i]).0@ == key,
    {
        proof {
            use_type_invariant(&self);
            assert forall|i: int| 0 <= i < self.entries@.len() implies self@.contains_key(
                (#[trigger] self.entries@[i]).0@,
            ) && self@[self.entries@[i].0@] == optional_texts(self.entries@[i].1) by {
                lemma_entry_in_map(self.entries@, i);
            }
        }
        self.entries
    }
}

impl<O: Clone, P: Clone> Clone for SearchQueryWithIndex<O, P> {
    fn clone(&self) -> (copy: Self)
        ensures
            copy.index_uid@ == self.index_uid@,
            optional_text(copy.q) == optional_text(self.q),
            copy.offset == self.offset,
            copy.limit == self.limit,
            copy.page == self.page,
            copy.hits_per_page == self.hits_per_page,
            copy.show_performance_details == self.show_performance_details,
            optional_text(copy.distinct) == optional_text(self.distinct),
            optional_texts(copy.facets) == optional_texts(self.facets),
            optional_cloned(self.federation_options, copy.federation_options),
            cloned(self.parameters, copy.parameters),
    {
        let facets: Option<Vec<String>> = match &self.facets {
            Some(facets) => {
                let copied = facets.clone();
                assert(texts(copied@) =~= texts(facets@));
                Some(copied)
            },
            None => None,
        };
        SearchQueryWithIndex {
            index_uid: self.index_uid.clone(),
            q: self.q.clone(),
            offset: self.offset,
            limit: self.limit,
            page: self.page,
            hits_per_page: self.hits_per_page,
            show_performance_details: self.show_performance_details,
            distinct: self.distinct.clone(),
            facets,
            federation_options: self.federation_options.clone(),
            parameters: self.parameters.clone(),
        }
    }
}

/// `fixed` is `query` without the parameters that a federated search sets for all its queries.
pub open spec fn without_federated_parameters<O: Clone, P: Clone>(
    query: SearchQueryWithIndex<O, P>,
    fixed: SearchQueryWithIndex<O, P>,
) -> bool {
    &&& fixed.index_uid@ == query.index_uid@
    &&& optional_text(fixed.q) == optional_text(query.q)
    &&& fixed.offset is None
    &&& fixed.limit is None
    &&& fixed.page is None
    &&& fixed.hits_per_page is None
    &&& fixed.show_performance_details is None
    &&& fixed.distinct is None
    &&& fixed.facets is None
    &&& optional_cloned(query.federation_options, fixed.federation_options)
    &&& cloned(query.parameters, fixed.parameters)
}

/// The facets by index of a federated search over `query` alone: those of `base`, and those that
/// `query` asks for, unless it asks for none.
pub open spec fn federated_facets<O, P>(
    query: SearchQueryWithIndex<O, P>,
    base: Map<Seq<char>, Option<Seq<Seq<char>>>>,
) -> Map<Seq<char>, Option<Seq<Seq<char>>>> {
    match query.facets {
        Some(facets) => if facets@.len() == 0 {
            base
        } else {
            base.insert(query.index_uid@, Some(texts(facets@)))
        },
        None => base,
    }
}

/// `federation` is `base` with each parameter that `query` sets for a federated search.
pub open spec fn with_federated_parameters<O, P, M>(
    query: SearchQueryWithIndex<O, P>,
    base: Federation<M>,
    federation: Federation<M>,
) -> bool {
    &&& federation.limit == query.limit.unwrap_or(base.limit)
    &&& federation.offset == query.offset.unwrap_or(base.offset)
    &&& federation.page == (if query.page is Some {
        query.page
    } else {
        base.page
    })
    &&& federation.hits_per_page == (if query.hits_per_page is Some {
        query.hits_per_page
    } else {
        base.hits_per_page
    })
    &&& optional_text(federation.distinct) == (if query.distinct is Some {
        optional_text(query.distinct)
    } else {
        optional_text(base.distinct)
    })
    &&& federation.show_performance_details == query.show_performance_details.unwrap_or(
        base.show_performance_details,
    )
    &&& federation.facets_by_index@ == federated_facets(query, base.facets_by_index@)
    &&& federation.merge_facets == base.merge_facets
}

/// Moves the query parameters that make sense at the federation level out of the query and into
/// `federation`, so that searching the fixed query under the resulting federation is searching the
/// query itself. `federation` holds the parameters of a federation that sets none.
pub fn fixup_query_federation<O: Clone, P: Clone, M>(
    query: &SearchQueryWithIndex<O, P>,
    federation: Federation<M>,
) -> (fixed: (SearchQueryWithIndex<O, P>, Federation<M>))
    ensures
        without_federated_parameters(*query, fixed.0),
        with_federated_parameters(*query, federation, fixed.1),
{
    let mut query = query.clone();
    let mut federation = federation;

    if let Some(limit) = query.limit.take() {
        federation.limit = limit;
    }
    if let Some(offset) = query.offset.take() {
        federation.offset = offset;
    }
    if let Some(page) = query.page.take() {
        federation.page = Some(page);
    }
    if let Some(hits_per_page) = query.hits_per_page.take() {
        federation.hits_per_page = Some(hits_per_page);
    }
    if let Some(distinct) = query.distinct.take() {
        federation.distinct = Some(distinct);
    }
    if let Some(show_performance_details) = query.show_performance_details.take() {
        federation.show_performance_details = show_performance_details;
    }
    if let Some(facets) = query.facets.take() {
        assert(texts(facets@).len() == facets@.len());
        if !facets.is_empty() {
            let index_uid = query.index_uid.clone();
            federation.facets_by_index = federation.facets_by_index.set(index_uid, Some(facets));
        }
    }
    (query, federation)
}

/// A query that was fixed once has nothing left to move: fixing it again changes neither the query,
/// whose options and other parameters are cloned, nor the federation.
pub proof fn law_fixup_moves_everything<O: Clone, P: Clone, M>(
    query: SearchQueryWithIndex<O, P>,
    fixed: SearchQueryWithIndex<O, P>,
    fixed_again: SearchQueryWithIndex<O, P>,
    base: Federation<M>,
    federation: Federation<M>,
)
    requires
        without_federated_parameters(query, fixed),
        without_federated_parameters(fixed, fixed_again),
        with_federated_parameters(fixed, base, federation),
    ensures
        fixed_again.index_uid@ == fixed.index_uid@,
        optional_text(fixed_again.q) == optional_text(fixed.q),
        (fixed_again.offset, fixed_again.limit, fixed_again.page, fixed_again.hits_per_page) == (
            fixed.offset,
            fixed.limit,
            fixed.page,
            fixed.hits_per_page,
        ),
        fixed_again.show_performance_details == fixed.show_performance_details,
        fixed_again.distinct == fixed.distinct,
        fixed_again.facets == fixed.facets,
        optional_cloned(fixed.federation_options, fixed_again.federation_options),
        cloned(fixed.parameters, fixed_again.parameters),
        federation.limit == base.limit,
        federation.offset == base.offset,
        federation.page == base.page,
        federation.hits_per_page == base.hits_per_page,
        federation.show_performance_details == base.show_performance_details,
        optional_text(federation.distinct) == optional_text(base.distinct),
        federation.facets_by_index@ == base.facets_by_index@,
        federation.merge_facets == base.merge_facets,
{
}

/// Nothing that a query sets is lost, and nothing else is set: each parameter of the federation is
/// what the query sets it to, whatever else the query sets, and stays as it was where the query does
/// not set it.
pub proof fn law_each_parameter_is_moved<O: Clone, P: Clone, M>(
    query: SearchQueryWithIndex<O, P>,
    base: Federation<M>,
    federation: Federation<M>,
)
    requires
        with_federated_parameters(query, base, federation),
    ensures
        forall|offset: usize| query.offset == Some(offset) ==> federation.offset == offset,
        query.offset is None ==> federation.offset == base.offset,
        forall|limit: usize| query.limit == Some(limit) ==> federation.limit == limit,
        query.limit is None ==> federation.limit == base.limit,
        query.page is Some ==> federation.page == query.page,
        query.page is None ==> federation.page == base.page,
        query.hits_per_page is Some ==> federation.hits_per_page == query.hits_per_page,
        query.hits_per_page is None ==> federation.hits_per_page == base.hits_per_page,
        forall|show: bool|
            query.show_performance_details == Some(show) ==> federation.show_performance_details
                == show,
        query.show_performance_details is None ==> federation.show_performance_details
            == base.show_performance_details,
        query.distinct matches Some(wanted) ==> federation.distinct matches Some(set) && set@
            == wanted@,
        query.distinct is None ==> (federation.distinct is Some) == (base.distinct is Some),
        query.distinct is None && base.distinct is Some ==> federation.distinct.unwrap()@
            == base.distinct.unwrap()@,
        federation.merge_facets == base.merge_facets,
{
}

/// The facets that a query asks for are asked of its index and of no other: every other index keeps
/// what was asked of it, and so does its own where it asks for none.
pub proof fn law_facets_are_asked_of_the_index<O: Clone, P: Clone, M>(
    query: SearchQueryWithIndex<O, P>,
    base: Federation<M>,
    federation: Federation<M>,
    index_uid: Seq<char>,
)
    requires
        with_federated_parameters(query, base, federation),
    ensures
        query.facets matches Some(facets) ==> facets@.len() > 0 && index_uid == query.index_uid@
            ==> {
            &&& federation.facets_by_index@.contains_key(index_uid)
            &&& federation.facets_by_index@[index_uid] matches Some(asked)
            &&& asked.len() == facets@.len()
            &&& forall|i: int| 0 <= i < asked.len() ==> #[trigger] asked[i] == facets@[i]@
        },
        index_uid != query.index_uid@ || query.facets is None || query.facets.unwrap()@.len() == 0
            ==> {
            &&& federation.facets_by_index@.contains_key(index_uid)
                == base.facets_by_index@.contains_key(index_uid)
            &&& base.facets_by_index@.contains_key(index_uid)
                ==> federation.facets_by_index@[index_uid] == base.facets_by_index@[index_uid]
        },
{
}

/// The parameters are moved independently: of two queries that agree on a parameter, each gives a
/// federation with the same value of it, whatever else they set. Changing one parameter of a query
/// changes no other of the federation.
pub proof fn law_parameters_are_independent<O: Clone, P: Clone, M>(
    one: SearchQueryWithIndex<O, P>,
    two: SearchQueryWithIndex<O, P>,
    base: Federation<M>,
    federation_one: Federation<M>,
    federation_two: Federation<M>,
)
    requires
        with_federated_parameters(one, base, federation_one),
        with_federated_parameters(two, base, federation_two),
    ensures
        one.offset == two.offset ==> federation_one.offset == federation_two.offset,
        one.limit == two.limit ==> federation_one.limit == federation_two.limit,
        one.page == two.page ==> federation_one.page == federation_two.page,
        one.hits_per_page == two.hits_per_page ==> federation_one.hits_per_page
            == federation_two.hits_per_page,
        one.show_performance_details == two.show_performance_details
            ==> federation_one.show_performance_details == federation_two.show_performance_details,
        one.distinct == two.distinct ==> (federation_one.distinct is Some) == (
        federation_two.distinct is Some),
        one.distinct == two.distinct && federation_one.distinct is Some
            ==> federation_one.distinct.unwrap()@ == federation_two.distinct.unwrap()@,
        one.index_uid@ == two.index_uid@ && one.facets == two.facets
            ==> federation_one.facets_by_index@ == federation_two.facets_by_index@,
        federation_one.merge_facets == federation_two.merge_facets,
{
}

/// What is moved is gone from the query, and the rest of the query is kept: its index, its text, its
/// options and its other parameters.
pub proof fn law_fixed_query<O: Clone, P: Clone>(
    query: SearchQueryWithIndex<O, P>,
    fixed: SearchQueryWithIndex<O, P>,
)
    requires
        without_federated_parameters(query, fixed),
    ensures
        fixed.offset is None && fixed.limit is None && fixed.page is None,
        fixed.hits_per_page is None && fixed.show_performance_details is None,
        fixed.distinct is None && fixed.facets is None,
        fixed.index_uid@ == query.index_uid@,
        (fixed.q is Some) == (query.q is Some),
        query.q matches Some(q) ==> fixed.q.unwrap()@ == q@,
        (fixed.federation_options is Some) == (query.federation_options is Some),
        query.federation_options matches Some(options) ==> cloned(
            options,
            fixed.federation_options.unwrap(),
        ),
        cloned(query.parameters, fixed.parameters),
{
}

} // verus!
