//! Planning of document retrieval.

use spectral_intelligence::documents_retrieval::{
    federated_outcome, rejection, DocumentsRetrieval, DocumentsRetrievalResult, Execution,
    MultiSearch, MultiSearchAction, RetrievalError, WithIndex,
};
use spectral_intelligence::federation::{
    fixup_query_federation, FacetsByIndex, Federation, SearchQueryWithIndex,
};
use uuid::Uuid;

type Query = SearchQueryWithIndex<u32, String>;
type Outcome = Result<DocumentsRetrievalResult<&'static str, String>, (RetrievalError<String>, Option<usize>)>;

fn query(index_uid: &str) -> Query {
    SearchQueryWithIndex {
        index_uid: index_uid.to_string(),
        q: Some(format!("text of {}", index_uid)),
        offset: None,
        limit: None,
        page: None,
        hits_per_page: None,
        show_performance_details: None,
        distinct: None,
        facets: None,
        federation_options: None,
        parameters: "filter".to_string(),
    }
}

fn base() -> Federation<u8> {
    Federation {
        limit: 20,
        offset: 0,
        page: None,
        hits_per_page: None,
        facets_by_index: FacetsByIndex::new(),
        merge_facets: Some(7),
        show_performance_details: false,
        distinct: None,
    }
}

fn multi(queries: Vec<Query>) -> MultiSearch<u32, String, String> {
    let retrieval: DocumentsRetrieval<u32, String, u8> =
        DocumentsRetrieval::new(Uuid::from_u128(5), queries);
    match retrieval.execute() {
        Execution::Multi(multi) => multi,
        Execution::Federated(_) => panic!("the request is not federated"),
    }
}

#[test]
fn parameters_move_to_the_federation() {
    let mut query = query("movies");
    query.offset = Some(3);
    query.limit = Some(5);
    query.page = Some(2);
    query.hits_per_page = Some(9);
    query.show_performance_details = Some(true);
    query.distinct = Some("sku".to_string());
    query.facets = Some(vec!["genre".to_string(), "year".to_string()]);
    let (fixed, federation) = fixup_query_federation(&query, base());

    assert_eq!(fixed.index_uid, "movies");
    assert_eq!(fixed.q, Some("text of movies".to_string()));
    assert_eq!(fixed.parameters, "filter");
    assert!(fixed.offset.is_none() && fixed.limit.is_none() && fixed.page.is_none());
    assert!(fixed.hits_per_page.is_none() && fixed.show_performance_details.is_none());
    assert!(fixed.distinct.is_none() && fixed.facets.is_none());
    assert!(fixed.federation_options.is_none());

    assert_eq!((federation.offset, federation.limit), (3, 5));
    assert_eq!((federation.page, federation.hits_per_page), (Some(2), Some(9)));
    assert!(federation.show_performance_details);
    assert_eq!(federation.distinct, Some("sku".to_string()));
    assert_eq!(federation.merge_facets, Some(7));
    assert_eq!(
        federation.facets_by_index.into_entries(),
        vec![("movies".to_string(), Some(vec!["genre".to_string(), "year".to_string()]))]
    );
}

#[test]
fn what_a_query_does_not_set_stays_as_it_is() {
    let (_, federation) = fixup_query_federation(&query("movies"), base());
    assert_eq!((federation.offset, federation.limit), (0, 20));
    assert_eq!((federation.page, federation.hits_per_page), (None, None));
    assert!(!federation.show_performance_details);
    assert!(federation.distinct.is_none());
    assert!(federation.facets_by_index.into_entries().is_empty());
}

#[test]
fn an_empty_list_of_facets_is_dropped() {
    let mut query = query("movies");
    query.facets = Some(vec![]);
    let (fixed, federation) = fixup_query_federation(&query, base());
    assert!(fixed.facets.is_none());
    assert!(federation.facets_by_index.into_entries().is_empty());
}

#[test]
fn fixing_twice_changes_nothing() {
    let mut query = query("movies");
    query.limit = Some(5);
    query.facets = Some(vec!["genre".to_string()]);
    let (fixed, _) = fixup_query_federation(&query, base());
    let (again, federation) = fixup_query_federation(&fixed, base());
    assert_eq!(again.q, fixed.q);
    assert_eq!(federation.limit, 20);
    assert!(federation.facets_by_index.into_entries().is_empty());
}

#[test]
fn facets_of_an_index_are_set_once() {
    let facets = FacetsByIndex::new()
        .set("a".to_string(), None)
        .set("b".to_string(), Some(vec!["x".to_string()]))
        .set("a".to_string(), Some(vec![]));
    assert_eq!(
        facets.into_entries(),
        vec![("a".to_string(), Some(vec![])), ("b".to_string(), Some(vec!["x".to_string()]))]
    );
}

#[test]
fn a_federated_request_is_one_search() {
    let mut retrieval = DocumentsRetrieval::new(Uuid::from_u128(9), vec![query("a"), query("b")]);
    retrieval.with_federation(base()).is_proxy(true).include_metadata(true);
    match retrieval.execute::<String>() {
        Execution::Federated(request) => {
            assert_eq!(request.queries.len(), 2);
            assert_eq!(request.federation.limit, 20);
            assert!(request.is_proxy && request.include_metadata);
            assert_eq!(request.request_uid, Uuid::from_u128(9));
        }
        Execution::Multi(_) => panic!("the request is federated"),
    }
    let outcome: Outcome = federated_outcome(Ok("found"));
    assert!(matches!(outcome, Ok(DocumentsRetrievalResult::Federated("found"))));
    let outcome: Outcome = federated_outcome(Err("down".to_string()));
    assert!(matches!(outcome, Err((RetrievalError::Search(error), None)) if error == "down"));
}

#[test]
fn a_multi_search_runs_query_by_query() {
    let mut second = query("b");
    second.q = None;
    second.limit = Some(1);
    let mut multi = multi(vec![query("a"), second]);
    for expected in ["a", "b"] {
        match multi.next(base()) {
            MultiSearchAction::Search { request, q, index_uid } => {
                assert_eq!(index_uid, expected);
                assert_eq!(request.queries.len(), 1);
                assert_eq!(request.queries[0].index_uid, expected);
                assert_eq!(request.federation.limit, if expected == "a" { 20 } else { 1 });
                assert_eq!(q, if expected == "a" { "text of a" } else { "" });
                assert!(!request.is_proxy && !request.include_metadata);
                assert_eq!(request.request_uid, Uuid::from_u128(5));
            }
            _ => panic!("there is a query to search"),
        }
        assert!(multi.record::<String>(Ok(format!("hits in {}", expected))).is_ok());
    }
    assert!(matches!(multi.next(base()), MultiSearchAction::Finish));
    match multi.finish::<&'static str>() {
        DocumentsRetrievalResult::Multi(results) => {
            assert_eq!(results.len(), 2);
            assert_eq!((results[0].index_uid.as_str(), results[0].result.as_str()), ("a", "hits in a"));
            assert_eq!((results[1].index_uid.as_str(), results[1].result.as_str()), ("b", "hits in b"));
        }
        DocumentsRetrievalResult::Federated(_) => panic!("the request is not federated"),
    }
}

#[test]
fn federation_options_end_a_multi_search() {
    let mut second = query("b");
    second.federation_options = Some(1);
    let mut multi = multi(vec![query("a"), second]);
    assert!(matches!(multi.next(base()), MultiSearchAction::Search { .. }));
    assert!(multi.record::<String>(Ok("hits".to_string())).is_ok());
    assert!(matches!(multi.next(base()), MultiSearchAction::Reject { query_index: 1 }));
    assert!(matches!(
        rejection::<String>(1),
        (RetrievalError::FederationOptionsInNonFederatedRequest(1), Some(1))
    ));
}

#[test]
fn a_failed_search_names_its_query() {
    let mut multi = multi(vec![query("a"), query("b")]);
    assert!(multi.record::<String>(Ok("hits".to_string())).is_ok());
    match multi.record(Err("down".to_string())) {
        Err((RetrievalError::Search(error), Some(1))) => assert_eq!(error, "down"),
        _ => panic!("the second search failed"),
    }
}

#[test]
fn errors_get_an_index() {
    let found: Result<u8, u8> = Ok(3);
    assert!(matches!(found.with_index(Some(4)), Ok(3)));
    let failed: Result<u8, u8> = Err(3);
    assert!(matches!(failed.with_index(Some(4)), Err((RetrievalError::Search(3), Some(4)))));
}
