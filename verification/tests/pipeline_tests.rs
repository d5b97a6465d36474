use order_pipeline::codec::QueryReply;
use order_pipeline::codec::encode_order;
use order_pipeline::codec::encode_query;
use order_pipeline::codec::parse_reply;
use order_pipeline::pipeline::PipelineState;
use order_pipeline::time::day_bounds;
use order_pipeline::time::parse_date;
use order_pipeline::types::Data;
use order_pipeline::types::OrderDetailFromInventory;
use order_pipeline::types::OrderPayload;
use order_pipeline::types::OrderQuery;

fn payload(location: &str) -> OrderPayload {
    OrderPayload {
        location: String::from(location),
        timestamp: String::from("2023-01-01T00:00:00+08:00"),
        data: Data { a: 1, b: 2, c: 3, d: 4 },
    }
}

/// The enrichment the collaborator would return for a payload: the same
/// fields plus a signature and a material figure.
fn enrich(p: &OrderPayload) -> OrderDetailFromInventory {
    OrderDetailFromInventory {
        location: p.location.clone(),
        timestamp: p.timestamp.clone(),
        signature: String::from("signed"),
        material: 42,
        data: p.data,
    }
}

#[test]
fn one_order_becomes_exactly_one_stored_record() {
    let mut state = PipelineState::new(2);
    let p = payload("taipei");
    let part = state.submit(&p);
    assert!(part < 2);
    let pending = state.pending_order(part).expect("the submitted order is pending");
    assert_eq!(pending.location, "taipei");
    state.enrichment_step(part, Some(enrich(&pending)));
    let committed = state.persist_step(part, true);
    assert_eq!(committed, Some(0), "the confirmation carries the assigned identifier");
    assert_eq!(state.store.records.len(), 1);
    let stored = &state.store.records[0];
    assert_eq!(stored.id, 0);
    assert_eq!(stored.location, "taipei");
    assert_eq!(stored.signature, "signed");
    assert_eq!(stored.material, 42);
    assert_eq!((stored.a, stored.b, stored.c, stored.d), (1, 2, 3, 4));
    // local midnight +08:00 on 2023-01-01
    assert_eq!(stored.timestamp, 1_672_531_200 - 28_800);
    // the queues drained
    assert!(state.partitions[part].enrich_queue.is_empty());
    assert!(state.partitions[part].persist_queue.is_empty());
}

#[test]
fn retries_leave_the_same_final_record_as_an_immediate_success() {
    let p = payload("retry-town");

    let mut direct = PipelineState::new(1);
    direct.submit(&p);
    let pend = direct.pending_order(0).unwrap();
    direct.enrichment_step(0, Some(enrich(&pend)));
    direct.persist_step(0, true);

    let mut retried = PipelineState::new(1);
    retried.submit(&p);
    for _ in 0..5 {
        retried.enrichment_step(0, None); // five transient inventory failures
    }
    let pend2 = retried.pending_order(0).unwrap();
    retried.enrichment_step(0, Some(enrich(&pend2)));
    for _ in 0..7 {
        retried.persist_step(0, false); // seven transient store failures
    }
    retried.persist_step(0, true);

    assert_eq!(direct.store.records.len(), 1);
    assert_eq!(retried.store.records.len(), 1);
    let a = &direct.store.records[0];
    let b = &retried.store.records[0];
    assert_eq!(a.id, b.id);
    assert_eq!(a.location, b.location);
    assert_eq!(a.timestamp, b.timestamp);
    assert_eq!(a.signature, b.signature);
    assert_eq!(a.material, b.material);
    assert_eq!((a.a, a.b, a.c, a.d), (b.a, b.b, b.c, b.d));
}

#[test]
fn a_stuck_partition_does_not_block_the_others() {
    let mut state = PipelineState::new(2);
    // Feed each lane directly so the test controls which partition holds what.
    state.partitions[0].enrich_queue.push(encode_order(&payload("stuck")));
    state.partitions[1].enrich_queue.push(encode_order(&payload("healthy")));

    // Partition 0's inventory collaborator fails permanently.
    for _ in 0..10 {
        state.enrichment_step(0, None);
    }
    // Partition 1 completes regardless.
    let pend = state.pending_order(1).unwrap();
    state.enrichment_step(1, Some(enrich(&pend)));
    state.persist_step(1, true);

    assert_eq!(state.store.records.len(), 1);
    assert_eq!(state.store.records[0].location, "healthy");
    // The stuck message is still waiting, untouched.
    assert_eq!(state.partitions[0].enrich_queue.len(), 1);
}

#[test]
fn malformed_payloads_are_dropped_and_the_worker_lives_on() {
    let mut state = PipelineState::new(1);
    state.partitions[0].enrich_queue.push(b"definitely not json".to_vec());
    state.partitions[0].enrich_queue.push(encode_order(&payload("after-bad")));

    // The malformed message is dropped on this turn, whatever the collaborator says.
    state.enrichment_step(0, None);
    assert_eq!(state.partitions[0].enrich_queue.len(), 1);

    // The well-formed message behind it is still processed.
    let pend = state.pending_order(0).unwrap();
    assert_eq!(pend.location, "after-bad");
    state.enrichment_step(0, Some(enrich(&pend)));
    state.persist_step(0, true);
    assert_eq!(state.store.records.len(), 1);
    assert_eq!(state.store.records[0].location, "after-bad");

    // Same on the persist subject.
    let mut state2 = PipelineState::new(1);
    state2.partitions[0].persist_queue.push(b"{broken".to_vec());
    state2.persist_step(0, true);
    assert!(state2.partitions[0].persist_queue.is_empty());
    assert!(state2.store.records.is_empty());
}

#[test]
fn queries_never_observe_an_uncommitted_write() {
    let mut state = PipelineState::new(1);
    let p = payload("visible-later");
    let date = parse_date("2023-01-01").unwrap();
    let (start, _) = day_bounds(date);
    assert_eq!(start, 1_672_531_200 - 28_800);
    let req = encode_query(&OrderQuery {
        location: String::from("visible-later"),
        date: String::from("2023-01-01"),
    });

    state.submit(&p);
    let reply = state.respond_query(&req, true).expect("well-formed request");
    match parse_reply(&reply) {
        Some(QueryReply::Records(rs)) => assert!(rs.is_empty(), "submitted but not committed"),
        other => panic!("expected records, got {other:?}"),
    }

    let pend = state.pending_order(0).unwrap();
    state.enrichment_step(0, Some(enrich(&pend)));
    let reply = state.respond_query(&req, true).expect("well-formed request");
    match parse_reply(&reply) {
        Some(QueryReply::Records(rs)) => assert!(rs.is_empty(), "enriched but not committed"),
        other => panic!("expected records, got {other:?}"),
    }

    state.persist_step(0, true);
    let reply = state.respond_query(&req, true).expect("well-formed request");
    match parse_reply(&reply) {
        Some(QueryReply::Records(rs)) => {
            assert_eq!(rs.len(), 1, "committed writes are visible");
            assert_eq!(rs[0].location, "visible-later");
            assert_eq!(rs[0].timestamp, "2023-01-01T00:00:00+08:00");
        }
        other => panic!("expected records, got {other:?}"),
    }
}

#[test]
fn query_responder_answers_failures_with_the_error_sentinel() {
    let state = PipelineState::new(1);
    let good = encode_query(&OrderQuery {
        location: String::from("x"),
        date: String::from("2023-01-01"),
    });
    // A failed store read gets an explicit error, never an empty result.
    let reply = state.respond_query(&good, false).expect("a reply is owed");
    assert!(matches!(parse_reply(&reply), Some(QueryReply::Failed)));
    // A malformed date inside the query is a failure too.
    let bad_date = encode_query(&OrderQuery {
        location: String::from("x"),
        date: String::from("yesterday"),
    });
    let reply = state.respond_query(&bad_date, true).expect("a reply is owed");
    assert!(matches!(parse_reply(&reply), Some(QueryReply::Failed)));
    // A malformed request is dropped without a reply.
    assert!(state.respond_query(&b"nonsense".to_vec(), true).is_none());
}

#[test]
fn an_undecodable_enrichment_response_is_retried_not_dropped() {
    let mut state = PipelineState::new(1);
    state.submit(&OrderPayload {
        location: String::from("x"),
        timestamp: String::from("2023-01-01T00:00:00Z"),
        data: Data { a: 1, b: 2, c: 3, d: 4 },
    });
    // The collaborator answered, but with a timestamp that does not parse:
    // a decode failure of the response, so the worker keeps the message.
    let broken = OrderDetailFromInventory {
        location: String::from("x"),
        timestamp: String::from("not a timestamp"),
        signature: String::from("s"),
        material: 1,
        data: Data { a: 1, b: 2, c: 3, d: 4 },
    };
    state.enrichment_step(0, Some(broken));
    assert_eq!(state.partitions[0].enrich_queue.len(), 1);
    assert!(state.partitions[0].persist_queue.is_empty());
}
