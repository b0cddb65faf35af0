//! Retrieval of documents: either one federated search over all queries of a request, or one
//! search per query, in turn.
//!
//! The searches themselves are run by the caller: [`DocumentsRetrieval::execute`] tells which of
//! the two it is, and [`MultiSearch`] tells search by search what to run next and takes the reply.

use vstd::prelude::*;

use crate::federation::{
    fixup_query_federation, law_each_parameter_is_moved, law_fixed_query,
    with_federated_parameters, without_federated_parameters, Federation, SearchQueryWithIndex,
};
use uuid::Uuid;

verus! {

/// `uuid::Uuid`, the identifier of a request. It is only handed on.
#[verifier::external_type_specification]
#[verifier::external_body]
pub struct ExUuid(Uuid);

/// A request for documents.
pub struct DocumentsRetrieval<O, P, M> {
    pub queries: Vec<SearchQueryWithIndex<O, P>>,
    pub federation: Option<Federation<M>>,
    pub is_proxy: bool,
    pub include_metadata: bool,
    pub request_uid: Uuid,
}

/// What one search, run by the caller, is given.
pub struct SearchRequest<O, P, M> {
    pub queries: Vec<SearchQueryWithIndex<O, P>>,
    pub federation: Federation<M>,
    pub is_proxy: bool,
    pub request_uid: Uuid,
    pub include_metadata: bool,
}

/// The result of one query of a multi-search, with the index that was searched.
pub struct SearchResultWithIndex<S> {
    pub index_uid: String,
    pub result: S,
}

/// The documents retrieved. `F` is the result of a federated search, `S` that of a single one.
pub enum DocumentsRetrievalResult<F, S> {
    Federated(F),
    Multi(Vec<SearchResultWithIndex<S>>),
}

/// Why a retrieval failed. `E` is the error of a search.
pub enum RetrievalError<E> {
    /// The query at this position has federation options, but the request is not federated.
    FederationOptionsInNonFederatedRequest(usize),
    /// A search failed.
    Search(E),
}

/// How a request is carried out.
pub enum Execution<O, P, M, S> {
    /// By this one search, whose reply goes to [`federated_outcome`].
    Federated(SearchRequest<O, P, M>),
    /// By one search per query.
    Multi(MultiSearch<O, P, S>),
}

/// A multi-search under way.
pub struct MultiSearch<O, P, S> {
    pub queries: Vec<SearchQueryWithIndex<O, P>>,
    pub is_proxy: bool,
    pub include_metadata: bool,
    pub request_uid: Uuid,
    /// The results of the queries that were searched already, in the order of the queries.
    pub results: Vec<SearchResultWithIndex<S>>,
}

/// What a multi-search needs next.
pub enum MultiSearchAction<O, P, M> {
    /// Run `request`, turn what it finds into a single search result for the query text `q` and
    /// the index `index_uid`, and hand the reply to [`MultiSearch::record`].
    Search { request: SearchRequest<O, P, M>, q: String, index_uid: String },
    /// Give up: the query at this position must not have federation options.
    Reject { query_index: usize },
    /// Every query was searched: [`MultiSearch::finish`] has the result.
    Finish,
}

/// Pairs the error of a `Result` with the position of the query that it concerns, if any.
pub trait WithIndex: Sized {
    type T;

    type E;

    spec fn as_result(self) -> Result<Self::T, Self::E>;

    fn with_index(self, index: Option<usize>) -> (indexed: Result<
        Self::T,
        (RetrievalError<Self::E>, Option<usize>),
    >)
        ensures
            indexed == indexed_error(self.as_result(), index),
    ;
}

/// A search error with the position of the query that it concerns, if any.
pub open spec fn indexed_error<T, E>(result: Result<T, E>, index: Option<usize>) -> Result<
    T,
    (RetrievalError<E>, Option<usize>),
> {
    match result {
        Ok(value) => Ok(value),
        Err(error) => Err((RetrievalError::Search(error), index)),
    }
}

impl<T, E> WithIndex for Result<T, E> {
    type T = T;

    type E = E;

    open spec fn as_result(self) -> Result<T, E> {
        self
    }

    fn with_index(self, index: Option<usize>) -> (indexed: Result<
        T,
        (RetrievalError<E>, Option<usize>),
    >) {
        match self {
            Ok(value) => Ok(value),
            Err(error) => Err((RetrievalError::Search(error), index)),
        }
    }
}

impl<O, P, M> DocumentsRetrieval<O, P, M> {
    /// A request that is not federated, comes from no proxy, and asks for no metadata.
    pub fn new(request_uid: Uuid, queries: Vec<SearchQueryWithIndex<O, P>>) -> (retrieval: Self)
        ensures
            retrieval.queries == queries,
            retrieval.federation is None,
            !retrieval.is_proxy,
            !retrieval.include_metadata,
            retrieval.request_uid == request_uid,
    {
        DocumentsRetrieval {
            queries,
            federation: None,
            is_proxy: false,
            include_metadata: false,
            request_uid,
        }
    }

    /// Makes the request a federated one.
    pub fn with_federation(&mut self, federation: Federation<M>) -> (this: &mut Self)
        ensures
            *this == (DocumentsRetrieval { federation: Some(federation), ..*old(self) }),
            *final(self) == *final(this),
    {
        self.federation = Some(federation);
        self
    }

    /// Tells whether the request comes from a proxy.
    pub fn is_proxy(&mut self, is_proxy: bool) -> (this: &mut Self)
        ensures
            *this == (DocumentsRetrieval { is_proxy, ..*old(self) }),
            *final(self) == *final(this),
    {
        self.is_proxy = is_proxy;
        self
    }

    /// Tells whether the response shall hold metadata.
    pub fn include_metadata(&mut self, include_metadata: bool) -> (this: &mut Self)
        ensures
            *this == (DocumentsRetrieval { include_metadata, ..*old(self) }),
            *final(self) == *final(this),
    {
        self.include_metadata = include_metadata;
        self
    }

    /// A federated request is one search over all its queries; any other is one search per query.
    pub fn execute<S>(self) -> (execution: Execution<O, P, M, S>)
        ensures
            self.federation matches Some(federation) ==> execution == Execution::<
                O,
                P,
                M,
                S,
            >::Federated(
                SearchRequest {
                    queries: self.queries,
                    federation,
                    is_proxy: self.is_proxy,
                    request_uid: self.request_uid,
                    include_metadata: self.include_metadata,
                },
            ),
            self.federation is None ==> {
                &&& execution matches Execution::Multi(multi)
                &&& multi.wf()
                &&& multi.queries == self.queries
                &&& multi.is_proxy == self.is_proxy
                &&& multi.include_metadata == self.include_metadata
                &&& multi.request_uid == self.request_uid
                &&& multi.results@.len() == 0
            },
    {
        match self.federation {
            Some(federation) => Execution::Federated(
                SearchRequest {
                    queries: self.queries,
                    federation,
                    is_proxy: self.is_proxy,
                    request_uid: self.request_uid,
                    include_metadata: self.include_metadata,
                },
            ),
            None => Execution::Multi(
                MultiSearch {
                    queries: self.queries,
                    is_proxy: self.is_proxy,
                    include_metadata: self.include_metadata,
                    request_uid: self.request_uid,
                    results: Vec::new(),
                },
            ),
        }
    }
}

/// The outcome of a federated request, given the reply to its search. The error of a federated
/// search concerns no query in particular.
pub fn federated_outcome<F, S, E>(reply: Result<F, E>) -> (outcome: Result<
    DocumentsRetrievalResult<F, S>,
    (RetrievalError<E>, Option<usize>),
>)
    ensures
        outcome == (match reply {
            Ok(result) => Ok::<_, (RetrievalError<E>, Option<usize>)>(
                DocumentsRetrievalResult::<F, S>::Federated(result),
            ),
            Err(error) => Err((RetrievalError::Search(error), None)),
        }),
{
    match reply.with_index(None) {
        Ok(result) => Ok(DocumentsRetrievalResult::Federated(result)),
        Err(error) => Err(error),
    }
}

impl<O, P, S> MultiSearch<O, P, S> {
    /// There is at most one result per query, and it names the index of its query.
    pub open spec fn wf(self) -> bool {
        &&& self.results@.len() <= self.queries@.len()
        &&& forall|i: int|
            0 <= i < self.results@.len() ==> (#[trigger] self.results@[i]).index_uid@
                == self.queries@[i].index_uid@
    }

    /// This is `before` with one more result.
    pub open spec fn follows(self, before: Self, result: S) -> bool {
        &&& self.queries == before.queries
        &&& self.is_proxy == before.is_proxy
        &&& self.include_metadata == before.include_metadata
        &&& self.request_uid == before.request_uid
        &&& self.results@.len() == before.results@.len() + 1
        &&& self.results@.drop_last() == before.results@
        &&& self.results@.last().result == result
    }

    /// What `next` shall return.
    pub open spec fn is_next<M>(
        self,
        base: Federation<M>,
        action: MultiSearchAction<O, P, M>,
    ) -> bool where O: Clone, P: Clone {
        let i = self.results@.len() as int;
        if i == self.queries@.len() {
            action is Finish
        } else if self.queries@[i].federation_options is Some {
            action == MultiSearchAction::<O, P, M>::Reject { query_index: i as usize }
        } else {
            &&& action matches MultiSearchAction::Search { request, q, index_uid }
            &&& request.queries@.len() == 1
            &&& without_federated_parameters(self.queries@[i], request.queries@[0])
            &&& with_federated_parameters(self.queries@[i], base, request.federation)
            &&& request.is_proxy == self.is_proxy
            &&& request.request_uid == self.request_uid
            &&& request.include_metadata == self.include_metadata
            &&& q@ == (match self.queries@[i].q {
                Some(q) => q@,
                None => Seq::<char>::empty(),
            })
            &&& index_uid@ == self.queries@[i].index_uid@
        }
    }

    /// What to do next: the queries are searched in order, each as a federated search over it
    /// alone, and the first that has federation options ends the multi-search. `federation` holds
    /// the parameters of a federation that sets none.
    pub fn next<M>(&self, federation: Federation<M>) -> (action: MultiSearchAction<O, P, M>) where
        O: Clone,
        P: Clone,

        requires
            self.wf(),
        ensures
            self.is_next(federation, action),
    {
        let query_index: usize = self.results.len();
        if query_index == self.queries.len() {
            return MultiSearchAction::Finish;
        }
        let query = &self.queries[query_index];
        if query.federation_options.is_some() {
            return MultiSearchAction::Reject { query_index };
        }
        let (fixed_query, federation) = fixup_query_federation(query, federation);
        let mut queries: Vec<SearchQueryWithIndex<O, P>> = Vec::new();
        queries.push(fixed_query);
        let q: String = match &query.q {
            Some(q) => q.clone(),
            None => String::new(),
        };
        MultiSearchAction::Search {
            request: SearchRequest {
                queries,
                federation,
                is_proxy: self.is_proxy,
                request_uid: self.request_uid,
                include_metadata: self.include_metadata,
            },
            q,
            index_uid: query.index_uid.clone(),
        }
    }

    /// Takes the reply to the search of the next query. A result is kept; an error ends the
    /// multi-search and names the position of the query.
    pub fn record<E>(&mut self, reply: Result<S, E>) -> (outcome: Result<
        (),
        (RetrievalError<E>, Option<usize>),
    >)
        requires
            old(self).wf(),
            old(self).results@.len() < old(self).queries@.len(),
        ensures
            final(self).wf(),
            match reply {
                Ok(result) => outcome is Ok && final(self).follows(*old(self), result),
                Err(error) => {
                    &&& outcome == Err::<(), (RetrievalError<E>, Option<usize>)>(
                        (RetrievalError::Search(error), Some(old(self).results@.len() as usize)),
                    )
                    &&& *final(self) == *old(self)
                },
            },
    {
        let query_index: usize = self.results.len();
        match reply.with_index(Some(query_index)) {
            Ok(result) => {
                let index_uid = self.queries[query_index].index_uid.clone();
                self.results.push(SearchResultWithIndex { index_uid, result });
                assert(self.results@.drop_last() =~= old(self).results@);
                Ok(())
            },
            Err(error) => Err(error),
        }
    }

    /// The outcome once every query was searched: the results, in the order of the queries.
    pub fn finish<F>(self) -> (retrieved: DocumentsRetrievalResult<F, S>)
        requires
            self.wf(),
            self.results@.len() == self.queries@.len(),
        ensures
            retrieved == DocumentsRetrievalResult::<F, S>::Multi(self.results),
    {
        DocumentsRetrievalResult::Multi(self.results)
    }
}

/// The error of a multi-search that was given up at the query at this position.
pub fn rejection<E>(query_index: usize) -> (error: (RetrievalError<E>, Option<usize>))
    ensures
        error == (
            RetrievalError::<E>::FederationOptionsInNonFederatedRequest(query_index),
            Some(query_index),
        ),
{
    (RetrievalError::FederationOptionsInNonFederatedRequest(query_index), Some(query_index))
}

/// However many searches of a multi-search succeeded, its results are what the searches found, in
/// the order of the queries, each under the index of its query. `states[i]` is the multi-search
/// after `i` replies.
pub proof fn law_results_in_query_order<O, P, S>(states: Seq<MultiSearch<O, P, S>>, found: Seq<S>)
    requires
        states.len() == found.len() + 1,
        forall|i: int| 0 <= i < states.len() ==> (#[trigger] states[i]).wf(),
        states[0].results@.len() == 0,
        forall|i: int|
            0 <= i < found.len() ==> (#[trigger] states[i + 1]).follows(states[i], found[i]),
    ensures
        states.last().queries == states[0].queries,
        states.last().results@.len() == found.len(),
        forall|i: int|
            0 <= i < found.len() ==> {
                &&& (#[trigger] states.last().results@[i]).result == found[i]
                &&& states.last().results@[i].index_uid@ == states[0].queries@[i].index_uid@
            },
    decreases found.len(),
{
    if found.len() > 0 {
        let k = found.len() - 1;
        law_results_in_query_order(states.drop_last(), found.drop_last());
        let before = states[k];
        assert(states.drop_last().last() == before);
        assert(states[k + 1].follows(before, found[k]));
        assert forall|i: int| 0 <= i < found.len() implies {
            &&& (#[trigger] states.last().results@[i]).result == found[i]
            &&& states.last().results@[i].index_uid@ == states[0].queries@[i].index_uid@
        } by {
            if i < k {
                assert(states.last().results@.drop_last()[i] == before.results@[i]);
                assert(found.drop_last()[i] == found[i]);
            }
        }
    }
}

/// A multi-search in which every action was carried out ends in one of two ways. It finishes with a
/// result for every query, and no query has federation options; or it rejects the first query that
/// has. `states[i]` is the multi-search after `i` replies, `actions[i]` what it asked for there, and
/// `bases[i]` the federation that it was given.
pub proof fn law_first_offender_is_rejected<O: Clone, P: Clone, S, M>(
    states: Seq<MultiSearch<O, P, S>>,
    bases: Seq<Federation<M>>,
    actions: Seq<MultiSearchAction<O, P, M>>,
    found: Seq<S>,
)
    requires
        states.len() == found.len() + 1,
        bases.len() == states.len(),
        actions.len() == states.len(),
        states[0].results@.len() == 0,
        states[0].queries@.len() <= usize::MAX,
        forall|i: int| 0 <= i < states.len() ==> (#[trigger] states[i]).wf(),
        forall|i: int|
            0 <= i < states.len() ==> (#[trigger] states[i]).is_next(bases[i], actions[i]),
        forall|i: int| 0 <= i < found.len() ==> #[trigger] actions[i] is Search,
        forall|i: int|
            0 <= i < found.len() ==> (#[trigger] states[i + 1]).follows(states[i], found[i]),
    ensures
        forall|i: int|
            0 <= i < found.len() ==> i < states[0].queries@.len() && (
            #[trigger] states[0].queries@[i]).federation_options is None,
        actions.last() is Finish == (found.len() == states[0].queries@.len()),
        actions.last() is Reject == (found.len() < states[0].queries@.len()
            && states[0].queries@[found.len() as int].federation_options is Some),
        actions.last() matches MultiSearchAction::Reject { query_index } ==> query_index
            == found.len(),
{
    assert forall|i: int| 0 <= i < states.len() implies (#[trigger] states[i]).queries
        == states[0].queries && states[i].results@.len() == i by {
        law_results_in_query_order(states.take(i + 1), found.take(i));
        assert(states.take(i + 1).last() == states[i]);
        assert(states.take(i + 1)[0] == states[0]);
    }
    assert forall|i: int| 0 <= i < found.len() implies i < states[0].queries@.len() && (
    #[trigger] states[0].queries@[i]).federation_options is None by {
        assert(states[i].is_next(bases[i], actions[i]));
        assert(actions[i] is Search);
        assert(states[i].wf());
    }
    let k = found.len() as int;
    assert(states[k].is_next(bases[k], actions[k]));
    assert(states[k].wf());
}

/// What a multi-search asks for next. Where the next query may be searched, that is a search over it
/// alone, under the parameters that it sets, with its text and its index, on the terms of the
/// request.
pub proof fn law_next_search_is_that_of_the_query<O: Clone, P: Clone, S, M>(
    state: MultiSearch<O, P, S>,
    base: Federation<M>,
    action: MultiSearchAction<O, P, M>,
)
    requires
        state.results@.len() < state.queries@.len() <= usize::MAX,
        state.is_next(base, action),
    ensures
        state.queries@[state.results@.len() as int].federation_options is Some
            ==> (action matches MultiSearchAction::Reject { query_index } && query_index
            == state.results@.len()),
        state.queries@[state.results@.len() as int].federation_options is None ==> {
            let query = state.queries@[state.results@.len() as int];
            &&& action matches MultiSearchAction::Search { request, q, index_uid }
            &&& request.queries@.len() == 1
            &&& request.queries@[0].index_uid@ == query.index_uid@
            &&& (request.queries@[0].q is Some) == (query.q is Some)
            &&& query.q is Some ==> request.queries@[0].q.unwrap()@ == query.q.unwrap()@
            &&& request.queries@[0].federation_options is None
            &&& cloned(query.parameters, request.queries@[0].parameters)
            &&& query.offset is Some ==> request.federation.offset == query.offset.unwrap()
            &&& query.offset is None ==> request.federation.offset == base.offset
            &&& query.limit is Some ==> request.federation.limit == query.limit.unwrap()
            &&& query.limit is None ==> request.federation.limit == base.limit
            &&& query.page is Some ==> request.federation.page == query.page
            &&& query.page is None ==> request.federation.page == base.page
            &&& query.hits_per_page is Some ==> request.federation.hits_per_page
                == query.hits_per_page
            &&& query.hits_per_page is None ==> request.federation.hits_per_page
                == base.hits_per_page
            &&& query.show_performance_details is Some
                ==> request.federation.show_performance_details
                == query.show_performance_details.unwrap()
            &&& query.show_performance_details is None
                ==> request.federation.show_performance_details == base.show_performance_details
            &&& query.distinct is Some ==> request.federation.distinct is Some
                && request.federation.distinct.unwrap()@ == query.distinct.unwrap()@
            &&& request.federation.merge_facets == base.merge_facets
            &&& request.is_proxy == state.is_proxy
            &&& request.include_metadata == state.include_metadata
            &&& request.request_uid == state.request_uid
            &&& query.q is Some ==> q@ == query.q.unwrap()@
            &&& query.q is None ==> q@.len() == 0
            &&& index_uid@ == query.index_uid@
        },
{
    let query = state.queries@[state.results@.len() as int];
    if query.federation_options is None {
        let request = action->request;
        law_each_parameter_is_moved(query, base, request.federation);
        law_fixed_query(query, request.queries@[0]);
    }
}

/// An error of a search is handed on with the position of the query, and a result as it is.
pub proof fn law_errors_keep_their_position<T, E>(result: Result<T, E>, index: Option<usize>)
    ensures
        result matches Ok(value) ==> (indexed_error(result, index) matches Ok(kept) && kept
            == value),
        result matches Err(error) ==> (indexed_error(result, index) matches Err(kept) && kept.1
            == index && (kept.0 matches RetrievalError::Search(cause) && cause == error)),
{
}

} // verus!
