//! The durable store model and the read paths over it.
//!
//! The store is the durability boundary of the pipeline: an append-only
//! record list with a store-assigned, strictly increasing identifier. Reads
//! are day-bucketed and location-scoped: a query names a local calendar day,
//! whose absolute bounds come from the display timezone, and receives every
//! record of that location whose instant lies between the day's first and
//! last second — never a record of the following day. A report aggregates
//! the same record set, summing each quantity.

use vstd::prelude::*;

use crate::time::DateYmd;
use crate::time::day_bounds;
use crate::time::parse_date;
use crate::time::spec_day_end;
use crate::time::spec_day_start;
use crate::time::spec_in_day;
use crate::time::spec_parse_date;
use crate::types::OrderDetail;
use crate::types::OrderDetailModel;
use crate::types::OrderDetailPayload;
use crate::types::OrderDetailPayloadModel;
use crate::types::OrderQuery;
use crate::types::OrderQueryModel;
use crate::types::OrderRecord;
use crate::types::OrderRecordModel;
use crate::types::OrderReport;
use crate::types::spec_record_of;

verus! {

/// The durable store: the committed records and the next free identifier.
#[derive(Debug)]
pub struct Store {
    pub records: Vec<OrderDetail>,
    pub next_id: i32,
}

/// What the mathematical model of a [`Store`] holds.
#[verifier::ext_equal]
pub struct StoreModel {
    pub records: Seq<OrderDetailModel>,
    pub next_id: i32,
}

impl View for Store {
    type V = StoreModel;

    open spec fn view(&self) -> StoreModel {
        StoreModel {
            records: self.records@.map_values(|d: OrderDetail| d@),
            next_id: self.next_id,
        }
    }
}

impl StoreModel {
    /// Well-formedness: identifiers are assigned in strictly increasing
    /// order, so every committed record has a distinct identifier below the
    /// next free one.
    pub open spec fn wf(self) -> bool {
        &&& 0 <= self.next_id
        &&& forall|k: int|
            0 <= k < self.records.len() ==> 0 <= (#[trigger] self.records[k]).id < self.next_id
        &&& forall|j: int, k: int|
            0 <= j < k < self.records.len() ==> self.records[j].id < self.records[k].id
    }
}

/// The record committed for a normalized order under a given identifier.
pub open spec fn spec_detail_of(n: OrderDetailPayloadModel, id: i32) -> OrderDetailModel {
    OrderDetailModel {
        id: id,
        location: n.location,
        timestamp: n.timestamp,
        signature: n.signature,
        material: n.material,
        a: n.a,
        b: n.b,
        c: n.c,
        d: n.d,
    }
}

/// The store after a successful insert: the committed record appended, the
/// next identifier advanced.
pub open spec fn spec_store_insert(s: StoreModel, n: OrderDetailPayloadModel) -> StoreModel {
    StoreModel {
        records: s.records.push(spec_detail_of(n, s.next_id)),
        next_id: (s.next_id + 1) as i32,
    }
}

impl Store {
    /// An empty store, before anything has been committed.
    pub fn new() -> (r: Store)
        ensures
            r@.records.len() == 0,
            r@.next_id == 0,
            r@.wf(),
    {
        Store { records: Vec::new(), next_id: 0 }
    }

    /// Commits a normalized order, assigning it the next identifier.
    /// Fails exactly when the identifier space is exhausted; a failed
    /// insert leaves the store unchanged and is retried by the caller.
    pub fn insert(&mut self, n: &OrderDetailPayload) -> (r: Option<i32>)
        ensures
            match r {
                Some(id) => old(self)@.next_id < i32::MAX && id == old(self)@.next_id
                    && final(self)@ == spec_store_insert(old(self)@, n@),
                None => old(self)@.next_id == i32::MAX && final(self)@ == old(self)@,
            },
            old(self)@.wf() ==> final(self)@.wf(),
    {
        if self.next_id == i32::MAX {
            proof {
                assert(self@ =~= old(self)@);
            }
            return None;
        }
        let id = self.next_id;
        let detail = OrderDetail {
            id,
            location: n.location.clone(),
            timestamp: n.timestamp,
            signature: n.signature.clone(),
            material: n.material,
            a: n.a,
            b: n.b,
            c: n.c,
            d: n.d,
        };
        let ghost before = self@;
        self.records.push(detail);
        self.next_id = id + 1;
        proof {
            assert(self@.records =~= before.records.push(spec_detail_of(n@, id)));
            assert(self@ =~= spec_store_insert(before, n@));
            if before.wf() {
                assert forall|k: int|
                    0 <= k < self@.records.len() implies 0 <= (#[trigger] self@.records[k]).id
                    < self@.next_id by {
                    if k < before.records.len() {
                        assert(self@.records[k] == before.records[k]);
                    }
                }
                assert forall|j: int, k: int|
                    0 <= j < k < self@.records.len() implies self@.records[j].id
                    < self@.records[k].id by {
                    if k < before.records.len() {
                        assert(before.records[j].id < before.records[k].id);
                    } else {
                        assert(before.records[j].id < before.next_id);
                    }
                }
            }
        }
        Some(id)
    }
}

/// Whether a committed record answers a query for a location and day.
pub open spec fn spec_day_matches(d: OrderDetailModel, loc: Seq<char>, date: DateYmd) -> bool {
    d.location == loc && spec_in_day(d.timestamp as int, date)
}

/// The records of one location whose instants fall on one local day, in
/// store order.
pub open spec fn spec_records_in(
    records: Seq<OrderDetailModel>,
    loc: Seq<char>,
    date: DateYmd,
) -> Seq<OrderDetailModel> {
    records.filter(|d: OrderDetailModel| spec_day_matches(d, loc, date))
}

/// The range-filtered read: every record at the queried location whose
/// instant lies between the day's first and last second, both included.
pub fn records_in(store: &Store, loc: &String, date: DateYmd) -> (r: Vec<OrderDetail>)
    requires
        date.valid(),
    ensures
        r@.map_values(|d: OrderDetail| d@) == spec_records_in(store@.records, loc@, date),
{
    let (start, end) = day_bounds(date);
    let mut out: Vec<OrderDetail> = Vec::new();
    let mut k: usize = 0;
    let ghost pred = |d: OrderDetailModel| spec_day_matches(d, loc@, date);
    proof {
        reveal(Seq::filter);
        assert(store@.records.take(0) =~= Seq::<OrderDetailModel>::empty());
    }
    while k < store.records.len()
        invariant
            k <= store.records@.len(),
            date.valid(),
            start == spec_day_start(date),
            end == spec_day_end(date),
            pred == (|d: OrderDetailModel| spec_day_matches(d, loc@, date)),
            out@.map_values(|d: OrderDetail| d@) == store@.records.take(k as int).filter(pred),
        decreases store.records@.len() - k,
    {
        let d = &store.records[k];
        let ghost taken = store@.records.take(k as int);
        let ghost dm = store@.records[k as int];
        proof {
            broadcast use vstd::seq_lib::group_seq_properties;

            assert(store@.records[k as int] == store.records@[k as int]@);
            assert(store@.records.take(k as int + 1) =~= taken.push(dm));
            reveal(Seq::filter);
            assert(taken.push(dm).drop_last() =~= taken);
            assert(taken.push(dm).last() == dm);
            assert(taken.push(dm).filter(pred) == if pred(dm) {
                taken.filter(pred).push(dm)
            } else {
                taken.filter(pred)
            });
        }
        if d.location == *loc && start <= d.timestamp && d.timestamp <= end {
            out.push(d.duplicate());
            proof {
                assert(pred(dm));
                assert(out@.map_values(|x: OrderDetail| x@) =~= taken.filter(pred).push(dm));
            }
        } else {
            proof {
                assert(!pred(dm));
            }
        }
        k += 1;
    }
    proof {
        assert(store@.records.take(store@.records.len() as int) =~= store@.records);
    }
    out
}

/// Every record of the store at the queried location whose instant falls on
/// the queried day — its first and its last second included — is returned,
/// and everything returned is such a record; in particular an instant one
/// second past the day's last one, the first second of the next day, is
/// never returned.
pub proof fn lemma_query_day_membership(
    records: Seq<OrderDetailModel>,
    loc: Seq<char>,
    date: DateYmd,
)
    requires
        date.valid(),
    ensures
        forall|k: int|
            0 <= k < records.len() && (#[trigger] records[k]).location == loc && spec_day_start(
                date,
            ) <= records[k].timestamp <= spec_day_end(date) ==> spec_records_in(
                records,
                loc,
                date,
            ).contains(records[k]),
        forall|j: int|
            0 <= j < spec_records_in(records, loc, date).len() ==> {
                let d = #[trigger] spec_records_in(records, loc, date)[j];
                d.location == loc && spec_day_start(date) <= d.timestamp <= spec_day_end(date)
            },
{
    let pred = |d: OrderDetailModel| spec_day_matches(d, loc, date);
    assert forall|k: int|
        0 <= k < records.len() && (#[trigger] records[k]).location == loc && spec_day_start(date)
            <= records[k].timestamp <= spec_day_end(date) implies spec_records_in(
        records,
        loc,
        date,
    ).contains(records[k]) by {
        assert(pred(records[k]));
        records.lemma_filter_contains(pred, k);
    }
    assert forall|j: int| 0 <= j < spec_records_in(records, loc, date).len() implies {
        let d = #[trigger] spec_records_in(records, loc, date)[j];
        d.location == loc && spec_day_start(date) <= d.timestamp <= spec_day_end(date)
    } by {
        records.lemma_filter_pred(pred, j);
    }
}

/// No record of the following calendar day is ever returned: the first
/// second of the successor day lies outside every returned record's
/// instant.
pub proof fn lemma_next_day_excluded(
    records: Seq<OrderDetailModel>,
    loc: Seq<char>,
    date: DateYmd,
)
    requires
        date.valid(),
        date.year < 9999 || !(date.month == 12 && date.day == 31),
    ensures
        forall|j: int|
            0 <= j < spec_records_in(records, loc, date).len() ==> (#[trigger] spec_records_in(
                records,
                loc,
                date,
            )[j]).timestamp < crate::time::spec_day_start(crate::time::spec_next_day(date)),
{
    crate::time::lemma_next_day(date);
    lemma_query_day_membership(records, loc, date);
}

/// All committed records rendered for a client, or nothing if any instant
/// cannot be rendered.
pub open spec fn spec_render_all(rs: Seq<OrderDetailModel>) -> Option<Seq<OrderRecordModel>>
    decreases rs.len(),
{
    if rs.len() == 0 {
        Some(Seq::empty())
    } else {
        match (spec_record_of(rs[0]), spec_render_all(rs.skip(1))) {
            (Some(r), Some(rest)) => Some(seq![r] + rest),
            _ => None,
        }
    }
}

/// Renders a record set for a client, in store order.
pub fn render_all(rs: &Vec<OrderDetail>) -> (r: Option<Vec<OrderRecord>>)
    ensures
        match r {
            Some(v) => spec_render_all(rs@.map_values(|d: OrderDetail| d@)) == Some(
                v@.map_values(|x: OrderRecord| x@),
            ),
            None => spec_render_all(rs@.map_values(|d: OrderDetail| d@)) is None,
        },
{
    let ghost models = rs@.map_values(|d: OrderDetail| d@);
    let mut out: Vec<OrderRecord> = Vec::new();
    let mut k: usize = 0;
    proof {
        assert(models.skip(0) =~= models);
    }
    while k < rs.len()
        invariant
            k <= rs@.len(),
            models == rs@.map_values(|d: OrderDetail| d@),
            spec_render_all(models.skip(k as int)) matches Some(rest) ==> spec_render_all(models)
                == Some(out@.map_values(|x: OrderRecord| x@) + rest),
            spec_render_all(models.skip(k as int)) is None ==> spec_render_all(models) is None,
        decreases rs@.len() - k,
    {
        let ghost tail = models.skip(k as int);
        proof {
            assert(tail[0] == models[k as int]);
            assert(tail.skip(1) =~= models.skip(k as int + 1));
        }
        match OrderRecord::from_detail(&rs[k]) {
            Some(rec) => {
                let ghost accm = out@.map_values(|x: OrderRecord| x@);
                proof {
                    match spec_render_all(models.skip(k as int + 1)) {
                        Some(rest2) => {
                            assert(spec_render_all(tail) == Some(seq![rec@] + rest2));
                            assert(accm + (seq![rec@] + rest2) =~= (accm + seq![rec@]) + rest2);
                        },
                        None => {},
                    }
                }
                out.push(rec);
                proof {
                    assert(out@.map_values(|x: OrderRecord| x@) =~= accm + seq![rec@]);
                }
            },
            None => {
                return None;
            },
        }
        k += 1;
    }
    proof {
        assert(models.skip(models.len() as int) =~= Seq::<OrderDetailModel>::empty());
        assert(out@.map_values(|x: OrderRecord| x@) + Seq::<OrderRecordModel>::empty()
            =~= out@.map_values(|x: OrderRecord| x@));
    }
    Some(out)
}

/// The result of one read query: what the client sees for a location and
/// calendar day, or nothing if the date is malformed or a record cannot be
/// rendered — a failure, never silently an empty result.
pub open spec fn spec_query_records(s: StoreModel, q: OrderQueryModel) -> Option<
    Seq<OrderRecordModel>,
> {
    match spec_parse_date(q.date) {
        None => None,
        Some(date) => spec_render_all(spec_records_in(s.records, q.location, date)),
    }
}

/// Executes one read query against the store: parses the day, filters the
/// records, and renders them for the client.
pub fn query_records(store: &Store, q: &OrderQuery) -> (r: Option<Vec<OrderRecord>>)
    ensures
        match r {
            Some(v) => spec_query_records(store@, q@) == Some(v@.map_values(|x: OrderRecord| x@)),
            None => spec_query_records(store@, q@) is None,
        },
{
    let date = match parse_date(q.date.as_str()) {
        Some(d) => d,
        None => {
            return None;
        },
    };
    let filtered = records_in(store, &q.location, date);
    render_all(&filtered)
}

/// Sum of the material figures of a record set.
pub open spec fn spec_sum_material(rs: Seq<OrderRecordModel>) -> int
    decreases rs.len(),
{
    if rs.len() == 0 {
        0
    } else {
        spec_sum_material(rs.drop_last()) + rs.last().material
    }
}

/// Sum of quantity `a` across a record set.
pub open spec fn spec_sum_a(rs: Seq<OrderRecordModel>) -> int
    decreases rs.len(),
{
    if rs.len() == 0 {
        0
    } else {
        spec_sum_a(rs.drop_last()) + rs.last().a
    }
}

/// Sum of quantity `b` across a record set.
pub open spec fn spec_sum_b(rs: Seq<OrderRecordModel>) -> int
    decreases rs.len(),
{
    if rs.len() == 0 {
        0
    } else {
        spec_sum_b(rs.drop_last()) + rs.last().b
    }
}

/// Sum of quantity `c` across a record set.
pub open spec fn spec_sum_c(rs: Seq<OrderRecordModel>) -> int
    decreases rs.len(),
{
    if rs.len() == 0 {
        0
    } else {
        spec_sum_c(rs.drop_last()) + rs.last().c
    }
}

/// Sum of quantity `d` across a record set.
pub open spec fn spec_sum_d(rs: Seq<OrderRecordModel>) -> int
    decreases rs.len(),
{
    if rs.len() == 0 {
        0
    } else {
        spec_sum_d(rs.drop_last()) + rs.last().d
    }
}

/// Builds the aggregate report over a record set: the count is the number
/// of records, and every summed field is the arithmetic sum of that field
/// across the set. Fails exactly when a sum leaves the `i32` range.
pub fn try_report(location: &String, date: &String, records: &Vec<OrderRecord>) -> (r: Option<
    OrderReport,
>)
    ensures
        match r {
            Some(rep) => {
                let ms = records@.map_values(|x: OrderRecord| x@);
                &&& rep@.location == location@
                &&& rep@.date == date@
                &&& rep@.count == records@.len()
                &&& rep@.material == spec_sum_material(ms)
                &&& rep@.a == spec_sum_a(ms)
                &&& rep@.b == spec_sum_b(ms)
                &&& rep@.c == spec_sum_c(ms)
                &&& rep@.d == spec_sum_d(ms)
            },
            None => {
                let ms = records@.map_values(|x: OrderRecord| x@);
                ||| !(i32::MIN <= spec_sum_material(ms) <= i32::MAX)
                ||| !(i32::MIN <= spec_sum_a(ms) <= i32::MAX)
                ||| !(i32::MIN <= spec_sum_b(ms) <= i32::MAX)
                ||| !(i32::MIN <= spec_sum_c(ms) <= i32::MAX)
                ||| !(i32::MIN <= spec_sum_d(ms) <= i32::MAX)
            },
        },
{
    let ghost ms = records@.map_values(|x: OrderRecord| x@);
    let mut sm: i128 = 0;
    let mut sa: i128 = 0;
    let mut sb: i128 = 0;
    let mut sc: i128 = 0;
    let mut sd: i128 = 0;
    let mut k: usize = 0;
    proof {
        assert(ms.take(0) =~= Seq::<OrderRecordModel>::empty());
    }
    while k < records.len()
        invariant
            k <= records@.len(),
            ms == records@.map_values(|x: OrderRecord| x@),
            sm == spec_sum_material(ms.take(k as int)),
            sa == spec_sum_a(ms.take(k as int)),
            sb == spec_sum_b(ms.take(k as int)),
            sc == spec_sum_c(ms.take(k as int)),
            sd == spec_sum_d(ms.take(k as int)),
            -0x8000_0000 * (k as int) <= sm as int <= 0x7fff_ffff * (k as int),
            -0x8000_0000 * (k as int) <= sa as int <= 0x7fff_ffff * (k as int),
            -0x8000_0000 * (k as int) <= sb as int <= 0x7fff_ffff * (k as int),
            -0x8000_0000 * (k as int) <= sc as int <= 0x7fff_ffff * (k as int),
            -0x8000_0000 * (k as int) <= sd as int <= 0x7fff_ffff * (k as int),
        decreases records@.len() - k,
    {
        let rec = &records[k];
        proof {
            assert(ms[k as int] == records@[k as int]@);
            assert(ms.take(k as int + 1).drop_last() =~= ms.take(k as int));
            assert(ms.take(k as int + 1).last() == ms[k as int]);
        }
        sm = sm + rec.material as i128;
        sa = sa + rec.a as i128;
        sb = sb + rec.b as i128;
        sc = sc + rec.c as i128;
        sd = sd + rec.d as i128;
        k += 1;
    }
    proof {
        assert(ms.take(ms.len() as int) =~= ms);
    }
    if sm < -0x8000_0000i128 || sm > 0x7fff_ffffi128 || sa < -0x8000_0000i128 || sa
        > 0x7fff_ffffi128 || sb < -0x8000_0000i128 || sb > 0x7fff_ffffi128 || sc
        < -0x8000_0000i128 || sc > 0x7fff_ffffi128 || sd < -0x8000_0000i128 || sd
        > 0x7fff_ffffi128 {
        return None;
    }
    Some(
        OrderReport {
            location: location.clone(),
            date: date.clone(),
            count: records.len(),
            material: sm as i32,
            a: sa as i32,
            b: sb as i32,
            c: sc as i32,
            d: sd as i32,
        },
    )
}

} // verus!
