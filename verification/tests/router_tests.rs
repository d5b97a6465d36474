use order_pipeline::router::Stage;
use order_pipeline::types::Data;
use order_pipeline::types::OrderDetail;
use order_pipeline::types::OrderDetailFromInventory;
use order_pipeline::types::OrderDetailPayload;
use order_pipeline::types::OrderRecord;
use order_pipeline::router::choose_partitions;
use order_pipeline::router::decide_partitions;
use order_pipeline::router::route;
use order_pipeline::router::startup_subjects;
use order_pipeline::router::subject_for;

#[test]
fn routing_stays_inside_the_partition_range() {
    for p in [1usize, 2, 3, 7, 16] {
        for _ in 0..64 {
            assert!(route(p) < p);
        }
    }
}

#[test]
fn routing_with_one_partition_is_constant() {
    for _ in 0..16 {
        assert_eq!(route(1), 0);
    }
}

#[test]
fn partition_count_prefers_the_configuration() {
    assert_eq!(choose_partitions(Some(4), 8), 4);
    assert_eq!(choose_partitions(Some(1), 8), 1);
    assert_eq!(choose_partitions(None, 8), 8);
    // a configured zero cannot stand: fall back to the processor count
    assert_eq!(choose_partitions(Some(0), 8), 8);
}

#[test]
fn deciding_partitions_respects_the_configuration() {
    assert_eq!(decide_partitions(Some(4)), 4);
    assert!(decide_partitions(None) >= 1);
    assert!(decide_partitions(Some(0)) >= 1);
}

#[test]
fn subjects_name_prefix_stage_and_partition() {
    assert_eq!(subject_for("orders", Stage::Enrichment, 0), "orders:enrichment:0");
    assert_eq!(subject_for("orders", Stage::Persist, 7), "orders:persist:7");
    assert_eq!(subject_for("orders", Stage::Query, 12), "orders:query:12");
    assert_eq!(subject_for("p", Stage::Enrichment, 105), "p:enrichment:105");
}

#[test]
fn startup_plans_all_three_subscriptions_per_partition() {
    let subjects = startup_subjects("pipe", 3);
    assert_eq!(subjects.len(), 9);
    assert_eq!(subjects[0], "pipe:enrichment:0");
    assert_eq!(subjects[1], "pipe:persist:0");
    assert_eq!(subjects[2], "pipe:query:0");
    assert_eq!(subjects[6], "pipe:enrichment:2");
    assert_eq!(subjects[7], "pipe:persist:2");
    assert_eq!(subjects[8], "pipe:query:2");
}

#[test]
fn normalization_parses_the_enriched_timestamp() {
    let e = OrderDetailFromInventory {
        location: String::from("x"),
        timestamp: String::from("2023-01-01T08:00:00+08:00"),
        signature: String::from("s"),
        material: 9,
        data: Data { a: 1, b: 2, c: 3, d: 4 },
    };
    let n = OrderDetailPayload::from_inventory(e).expect("well-formed timestamp");
    assert_eq!(n.timestamp, 1_672_531_200);
    assert_eq!(n.location, "x");
    assert_eq!((n.a, n.b, n.c, n.d), (1, 2, 3, 4));

    let broken = OrderDetailFromInventory {
        location: String::from("x"),
        timestamp: String::from("tomorrow-ish"),
        signature: String::from("s"),
        material: 9,
        data: Data { a: 1, b: 2, c: 3, d: 4 },
    };
    assert!(OrderDetailPayload::from_inventory(broken).is_none());
}

#[test]
fn rendering_a_stored_order_uses_the_display_timezone() {
    let d = OrderDetail {
        id: 3,
        location: String::from("x"),
        timestamp: 0,
        signature: String::from("s"),
        material: 9,
        a: 1,
        b: 2,
        c: 3,
        d: 4,
    };
    let r = OrderRecord::from_detail(&d).expect("in range");
    assert_eq!(r.timestamp, "1970-01-01T08:00:00+08:00");
    assert_eq!(r.location, "x");
    assert_eq!(r.material, 9);
}
