use order_pipeline::store::Store;
use order_pipeline::store::query_records;
use order_pipeline::store::records_in;
use order_pipeline::store::try_report;
use order_pipeline::time::DateYmd;
use order_pipeline::time::day_bounds;
use order_pipeline::time::days_from_civil;
use order_pipeline::time::is_leap_year;
use order_pipeline::time::parse_date;
use order_pipeline::types::Data;
use order_pipeline::types::OrderDetail;
use order_pipeline::types::OrderDetailFromInventory;
use order_pipeline::types::OrderDetailPayload;
use order_pipeline::types::OrderQuery;
use order_pipeline::types::OrderRecord;

#[test]
fn date_parsing_accepts_valid_days() {
    assert_eq!(
        parse_date("2023-01-01"),
        Some(DateYmd { year: 2023, month: 1, day: 1 })
    );
    assert_eq!(
        parse_date("2024-02-29"),
        Some(DateYmd { year: 2024, month: 2, day: 29 })
    );
    assert_eq!(
        parse_date("9999-12-31"),
        Some(DateYmd { year: 9999, month: 12, day: 31 })
    );
}

#[test]
fn date_parsing_rejects_malformed_and_impossible_days() {
    assert_eq!(parse_date(""), None);
    assert_eq!(parse_date("2023-1-1"), None);
    assert_eq!(parse_date("2023/01/01"), None);
    assert_eq!(parse_date("2023-02-29"), None); // not a leap year
    assert_eq!(parse_date("2023-13-01"), None);
    assert_eq!(parse_date("2023-00-10"), None);
    assert_eq!(parse_date("2023-04-31"), None);
    assert_eq!(parse_date("0000-01-01"), None);
    assert_eq!(parse_date("20230101xx"), None);
    assert_eq!(parse_date("2023-01-015"), None);
}

#[test]
fn leap_year_rule() {
    assert!(is_leap_year(2024));
    assert!(is_leap_year(2000));
    assert!(!is_leap_year(1900));
    assert!(!is_leap_year(2023));
}

#[test]
fn epoch_day_numbers() {
    assert_eq!(days_from_civil(DateYmd { year: 1970, month: 1, day: 1 }), 0);
    assert_eq!(days_from_civil(DateYmd { year: 1970, month: 1, day: 2 }), 1);
    assert_eq!(days_from_civil(DateYmd { year: 1969, month: 12, day: 31 }), -1);
    assert_eq!(days_from_civil(DateYmd { year: 2000, month: 3, day: 1 }), 11017);
    assert_eq!(days_from_civil(DateYmd { year: 2023, month: 1, day: 1 }), 19358);
}

#[test]
fn day_bounds_in_display_timezone() {
    // Local midnight in UTC+8 is eight hours before midnight UTC.
    let (start, end) = day_bounds(DateYmd { year: 2023, month: 1, day: 1 });
    assert_eq!(start, 1_672_531_200 - 28_800);
    assert_eq!(end, start + 86_399);
}

fn enriched(ts: &str) -> OrderDetailFromInventory {
    OrderDetailFromInventory {
        location: String::from("x"),
        timestamp: String::from(ts),
        signature: String::from("s"),
        material: 1,
        data: Data { a: 1, b: 2, c: 3, d: 4 },
    }
}

#[test]
fn rfc3339_parsing_reaches_the_collaborator() {
    let n = OrderDetailPayload::from_inventory(enriched("2023-01-01T00:00:00Z")).unwrap();
    assert_eq!(n.timestamp, 1_672_531_200);
    let n = OrderDetailPayload::from_inventory(enriched("2023-01-01T08:00:00+08:00")).unwrap();
    assert_eq!(n.timestamp, 1_672_531_200);
    let n = OrderDetailPayload::from_inventory(enriched("1970-01-01T00:00:00Z")).unwrap();
    assert_eq!(n.timestamp, 0);
    assert!(OrderDetailPayload::from_inventory(enriched("not a timestamp")).is_none());
    assert!(OrderDetailPayload::from_inventory(enriched("2023-01-01 00:00:00")).is_none());
}

fn detail_at(ts: i64) -> OrderDetail {
    OrderDetail {
        id: 1,
        location: String::from("x"),
        timestamp: ts,
        signature: String::from("s"),
        material: 1,
        a: 1,
        b: 2,
        c: 3,
        d: 4,
    }
}

#[test]
fn display_rendering_reaches_the_collaborator() {
    let r = OrderRecord::from_detail(&detail_at(0)).expect("in range");
    assert_eq!(r.timestamp, "1970-01-01T08:00:00+08:00");
    let r = OrderRecord::from_detail(&detail_at(1_672_531_200)).expect("in range");
    assert_eq!(r.timestamp, "2023-01-01T08:00:00+08:00");
}

fn normalized(location: &str, timestamp: i64, a: i32) -> OrderDetailPayload {
    OrderDetailPayload {
        location: String::from(location),
        timestamp,
        signature: String::from("sig"),
        material: 5,
        a,
        b: 2,
        c: 3,
        d: 4,
    }
}

#[test]
fn store_assigns_increasing_identifiers() {
    let mut store = Store::new();
    let first = store.insert(&normalized("x", 0, 1)).expect("insert");
    let second = store.insert(&normalized("x", 1, 2)).expect("insert");
    assert_eq!(first, 0);
    assert_eq!(second, 1);
    assert_eq!(store.records.len(), 2);
    assert_eq!(store.records[0].id, 0);
    assert_eq!(store.records[1].id, 1);
}

#[test]
fn query_includes_both_day_bounds_and_excludes_the_next_day() {
    let date = parse_date("2023-01-01").unwrap();
    let (start, end) = day_bounds(date);
    let mut store = Store::new();
    store.insert(&normalized("here", start, 1)).unwrap();
    store.insert(&normalized("here", end, 2)).unwrap();
    store.insert(&normalized("here", end + 1, 3)).unwrap(); // 00:00:00 of the next day
    store.insert(&normalized("elsewhere", start, 4)).unwrap();
    store.insert(&normalized("here", start - 1, 5)).unwrap(); // last second of the prior day

    let hits = records_in(&store, &String::from("here"), date);
    assert_eq!(hits.len(), 2);
    assert_eq!(hits[0].a, 1);
    assert_eq!(hits[1].a, 2);

    let q = OrderQuery { location: String::from("here"), date: String::from("2023-01-01") };
    let views = query_records(&store, &q).expect("query succeeds");
    assert_eq!(views.len(), 2);
    assert_eq!(views[0].timestamp, "2023-01-01T00:00:00+08:00");
    assert_eq!(views[1].timestamp, "2023-01-01T23:59:59+08:00");
    assert_eq!(views[0].signature, "sig");
}

#[test]
fn query_rejects_a_malformed_date() {
    let store = Store::new();
    let q = OrderQuery { location: String::from("x"), date: String::from("01/01/2023") };
    assert!(query_records(&store, &q).is_none());
}

#[test]
fn empty_query_result_is_not_a_failure() {
    let store = Store::new();
    let q = OrderQuery { location: String::from("x"), date: String::from("2023-01-01") };
    let views = query_records(&store, &q).expect("empty result is a success");
    assert!(views.is_empty());
}

fn record(a: i32, b: i32, c: i32, d: i32, material: i32) -> OrderRecord {
    OrderRecord {
        location: String::from("here"),
        timestamp: String::from("2023-01-01T00:00:00+08:00"),
        signature: String::from("sig"),
        material,
        a,
        b,
        c,
        d,
    }
}

#[test]
fn report_sums_every_field_and_counts_records() {
    let records = vec![record(1, 10, 100, -1, 7), record(2, 20, 200, -2, 8), record(3, 30, 300, -3, 9)];
    let rep = try_report(
        &String::from("here"),
        &String::from("2023-01-01"),
        &records,
    )
    .expect("sums fit");
    assert_eq!(rep.count, 3);
    assert_eq!(rep.a, 6);
    assert_eq!(rep.b, 60);
    assert_eq!(rep.c, 600);
    assert_eq!(rep.d, -6);
    assert_eq!(rep.material, 24);
    assert_eq!(rep.location, "here");
    assert_eq!(rep.date, "2023-01-01");
}

#[test]
fn report_of_no_records_is_all_zero() {
    let rep = try_report(&String::from("x"), &String::from("2023-01-01"), &Vec::new())
        .expect("empty sums fit");
    assert_eq!(rep.count, 0);
    assert_eq!((rep.a, rep.b, rep.c, rep.d, rep.material), (0, 0, 0, 0, 0));
}

#[test]
fn report_refuses_a_sum_that_leaves_the_range() {
    let records = vec![record(i32::MAX, 0, 0, 0, 0), record(1, 0, 0, 0, 0)];
    assert!(try_report(&String::from("x"), &String::from("2023-01-01"), &records).is_none());
}
