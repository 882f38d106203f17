use scylla_codec::encode::EncodedValuesWrapper;
use scylla_codec::paging::{
    paginate, PagedQuery, PagingPhase, PagingSession, PagingStateWrapper,
};

#[test]
fn token_bytes_survive_the_round_trip() {
    // Continuation tokens are preserved byte for byte.
    let token = vec![7u8, 0, 255, 42, 1];
    let wrapper = PagingStateWrapper::from_buffer(&token);
    assert_eq!(wrapper.get_raw_page_state(), token);
}

#[test]
fn pagination_splits_into_ceiling_many_pages() {
    // Ten rows with page size three yield four pages, the last short, and
    // their concatenation is the original row order.
    let rows: Vec<i64> = (0..10).collect();
    let pages = paginate(rows.clone(), 3);
    assert_eq!(pages.len(), 4);
    assert_eq!(pages[0], vec![0, 1, 2]);
    assert_eq!(pages[1], vec![3, 4, 5]);
    assert_eq!(pages[2], vec![6, 7, 8]);
    assert_eq!(pages[3], vec![9]);
    let rebuilt: Vec<i64> = pages.into_iter().flatten().collect();
    assert_eq!(rebuilt, rows);

    // An exact multiple has no short page; an empty set has no pages.
    assert_eq!(paginate((0..6).collect::<Vec<i64>>(), 3).len(), 2);
    assert_eq!(paginate(Vec::<i64>::new(), 3).len(), 0);
    assert_eq!(paginate(vec![1i64], 5), vec![vec![1i64]]);
}

#[test]
fn session_walks_its_phases_in_order() {
    let query = PagedQuery {
        statement: String::from("SELECT x FROM t"),
        prepared: true,
        params: vec![EncodedValuesWrapper::null()],
    };
    let mut session = PagingSession::start(query);
    assert!(matches!(session.phase, PagingPhase::NotStarted));
    // First fetch starts from the beginning.
    assert_eq!(session.next_request(), Some(None));

    // A page with a continuation keeps the sequence alive.
    session.record_page(Some(vec![9, 9]));
    assert!(matches!(session.phase, PagingPhase::HasPage(_)));
    assert_eq!(session.next_request(), Some(Some(vec![9, 9])));
    assert_eq!(session.query().statement, "SELECT x FROM t");
    assert!(session.query().prepared);

    // The final page exhausts the sequence; no further fetch is issued.
    session.record_page(None);
    assert!(matches!(session.phase, PagingPhase::Exhausted));
    assert_eq!(session.next_request(), None);
}
