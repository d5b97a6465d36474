//! The data model of the pipeline.
//!
//! An `OrderPayload` is what a client submits; the inventory collaborator
//! turns it into an `OrderDetailFromInventory`; normalization parses its
//! timestamp into an absolute instant, giving an `OrderDetailPayload`; the
//! persistence worker commits it as an `OrderDetail` with a store-assigned
//! identifier; reads project it to an `OrderRecord` with the timestamp
//! rendered in the display timezone, or aggregate it into an `OrderReport`.

use vstd::prelude::*;

use crate::time::display_of;
use crate::time::parse_rfc3339;
use crate::time::render_display;
use crate::time::rfc3339_of;

verus! {

/// Per-order quantities, carried unchanged through the whole pipeline.
#[derive(Debug, Clone, Copy, PartialEq, Eq, Structural)]
pub struct Data {
    pub a: i32,
    pub b: i32,
    pub c: i32,
    pub d: i32,
}

/// A client-submitted order, as it travels to an enrichment subject.
#[derive(Debug, Clone)]
pub struct OrderPayload {
    pub location: String,
    pub timestamp: String,
    pub data: Data,
}

/// What the mathematical model of an [`OrderPayload`] holds.
#[verifier::ext_equal]
pub struct OrderPayloadModel {
    pub location: Seq<char>,
    pub timestamp: Seq<char>,
    pub data: Data,
}

impl View for OrderPayload {
    type V = OrderPayloadModel;

    open spec fn view(&self) -> OrderPayloadModel {
        OrderPayloadModel {
            location: self.location@,
            timestamp: self.timestamp@,
            data: self.data,
        }
    }
}

/// An order enriched by the inventory collaborator: the submitted fields plus
/// an authenticity signature and a material figure.
#[derive(Debug, Clone)]
pub struct OrderDetailFromInventory {
    pub location: String,
    pub timestamp: String,
    pub signature: String,
    pub material: i32,
    pub data: Data,
}

/// What the mathematical model of an [`OrderDetailFromInventory`] holds.
#[verifier::ext_equal]
pub struct OrderDetailFromInventoryModel {
    pub location: Seq<char>,
    pub timestamp: Seq<char>,
    pub signature: Seq<char>,
    pub material: i32,
    pub data: Data,
}

impl View for OrderDetailFromInventory {
    type V = OrderDetailFromInventoryModel;

    open spec fn view(&self) -> OrderDetailFromInventoryModel {
        OrderDetailFromInventoryModel {
            location: self.location@,
            timestamp: self.timestamp@,
            signature: self.signature@,
            material: self.material,
            data: self.data,
        }
    }
}

/// An enriched order with its timestamp normalized to an absolute instant:
/// the representation handed to the store.
#[derive(Debug, Clone)]
pub struct OrderDetailPayload {
    pub location: String,
    pub timestamp: i64,
    pub signature: String,
    pub material: i32,
    pub a: i32,
    pub b: i32,
    pub c: i32,
    pub d: i32,
}

/// What the mathematical model of an [`OrderDetailPayload`] holds.
#[verifier::ext_equal]
pub struct OrderDetailPayloadModel {
    pub location: Seq<char>,
    pub timestamp: i64,
    pub signature: Seq<char>,
    pub material: i32,
    pub a: i32,
    pub b: i32,
    pub c: i32,
    pub d: i32,
}

impl View for OrderDetailPayload {
    type V = OrderDetailPayloadModel;

    open spec fn view(&self) -> OrderDetailPayloadModel {
        OrderDetailPayloadModel {
            location: self.location@,
            timestamp: self.timestamp,
            signature: self.signature@,
            material: self.material,
            a: self.a,
            b: self.b,
            c: self.c,
            d: self.d,
        }
    }
}

/// The normalization of an enriched order: its quantities are flattened and
/// its timestamp string is parsed into an instant, or nothing if the string
/// is not a well-formed RFC 3339 timestamp.
pub open spec fn spec_normalize(e: OrderDetailFromInventoryModel) -> Option<
    OrderDetailPayloadModel,
> {
    match rfc3339_of(e.timestamp) {
        Some(ts) => Some(
            OrderDetailPayloadModel {
                location: e.location,
                timestamp: ts,
                signature: e.signature,
                material: e.material,
                a: e.data.a,
                b: e.data.b,
                c: e.data.c,
                d: e.data.d,
            },
        ),
        None => None,
    }
}

impl OrderDetailPayload {
    /// Normalizes an enriched order, parsing its timestamp into an absolute
    /// instant. Fails exactly when the timestamp string is malformed.
    pub fn from_inventory(e: OrderDetailFromInventory) -> (r: Option<OrderDetailPayload>)
        ensures
            match r {
                Some(n) => spec_normalize(e@) == Some(n@),
                None => spec_normalize(e@) is None,
            },
    {
        match parse_rfc3339(e.timestamp.as_str()) {
            Some(ts) => Some(
                OrderDetailPayload {
                    location: e.location,
                    timestamp: ts,
                    signature: e.signature,
                    material: e.material,
                    a: e.data.a,
                    b: e.data.b,
                    c: e.data.c,
                    d: e.data.d,
                },
            ),
            None => None,
        }
    }
}

/// A durable order: a normalized order plus the store-assigned identifier.
#[derive(Debug, Clone)]
pub struct OrderDetail {
    pub id: i32,
    pub location: String,
    pub timestamp: i64,
    pub signature: String,
    pub material: i32,
    pub a: i32,
    pub b: i32,
    pub c: i32,
    pub d: i32,
}

/// What the mathematical model of an [`OrderDetail`] holds.
#[verifier::ext_equal]
pub struct OrderDetailModel {
    pub id: i32,
    pub location: Seq<char>,
    pub timestamp: i64,
    pub signature: Seq<char>,
    pub material: i32,
    pub a: i32,
    pub b: i32,
    pub c: i32,
    pub d: i32,
}

impl View for OrderDetail {
    type V = OrderDetailModel;

    open spec fn view(&self) -> OrderDetailModel {
        OrderDetailModel {
            id: self.id,
            location: self.location@,
            timestamp: self.timestamp,
            signature: self.signature@,
            material: self.material,
            a: self.a,
            b: self.b,
            c: self.c,
            d: self.d,
        }
    }
}

impl OrderDetail {
    /// A copy of this record whose model is identical.
    pub fn duplicate(&self) -> (r: OrderDetail)
        ensures
            r@ == self@,
    {
        OrderDetail {
            id: self.id,
            location: self.location.clone(),
            timestamp: self.timestamp,
            signature: self.signature.clone(),
            material: self.material,
            a: self.a,
            b: self.b,
            c: self.c,
            d: self.d,
        }
    }
}

/// The client-facing projection of a stored order, with the timestamp
/// rendered in the display timezone.
#[derive(Debug, Clone)]
pub struct OrderRecord {
    pub location: String,
    pub timestamp: String,
    pub signature: String,
    pub material: i32,
    pub a: i32,
    pub b: i32,
    pub c: i32,
    pub d: i32,
}

/// What the mathematical model of an [`OrderRecord`] holds.
#[verifier::ext_equal]
pub struct OrderRecordModel {
    pub location: Seq<char>,
    pub timestamp: Seq<char>,
    pub signature: Seq<char>,
    pub material: i32,
    pub a: i32,
    pub b: i32,
    pub c: i32,
    pub d: i32,
}

impl View for OrderRecord {
    type V = OrderRecordModel;

    open spec fn view(&self) -> OrderRecordModel {
        OrderRecordModel {
            location: self.location@,
            timestamp: self.timestamp@,
            signature: self.signature@,
            material: self.material,
            a: self.a,
            b: self.b,
            c: self.c,
            d: self.d,
        }
    }
}

/// The read projection of a stored order: every field carried over, with the
/// timestamp rendered in the display timezone, or nothing if the instant
/// cannot be rendered.
pub open spec fn spec_record_of(d: OrderDetailModel) -> Option<OrderRecordModel> {
    match display_of(d.timestamp) {
        Some(ts) => Some(
            OrderRecordModel {
                location: d.location,
                timestamp: ts,
                signature: d.signature,
                material: d.material,
                a: d.a,
                b: d.b,
                c: d.c,
                d: d.d,
            },
        ),
        None => None,
    }
}

impl OrderRecord {
    /// Projects a stored order for a client, rendering its timestamp in the
    /// display timezone. Fails exactly when the instant cannot be rendered.
    pub fn from_detail(d: &OrderDetail) -> (r: Option<OrderRecord>)
        ensures
            match r {
                Some(rec) => spec_record_of(d@) == Some(rec@),
                None => spec_record_of(d@) is None,
            },
    {
        match render_display(d.timestamp) {
            Some(ts) => Some(
                OrderRecord {
                    location: d.location.clone(),
                    timestamp: ts,
                    signature: d.signature.clone(),
                    material: d.material,
                    a: d.a,
                    b: d.b,
                    c: d.c,
                    d: d.d,
                },
            ),
            None => None,
        }
    }
}

/// The aggregate over one location and day: how many orders were stored and
/// the sum of each summed field.
#[derive(Debug, Clone)]
pub struct OrderReport {
    pub location: String,
    pub date: String,
    pub count: usize,
    pub material: i32,
    pub a: i32,
    pub b: i32,
    pub c: i32,
    pub d: i32,
}

/// What the mathematical model of an [`OrderReport`] holds.
#[verifier::ext_equal]
pub struct OrderReportModel {
    pub location: Seq<char>,
    pub date: Seq<char>,
    pub count: usize,
    pub material: i32,
    pub a: i32,
    pub b: i32,
    pub c: i32,
    pub d: i32,
}

impl View for OrderReport {
    type V = OrderReportModel;

    open spec fn view(&self) -> OrderReportModel {
        OrderReportModel {
            location: self.location@,
            date: self.date@,
            count: self.count,
            material: self.material,
            a: self.a,
            b: self.b,
            c: self.c,
            d: self.d,
        }
    }
}

/// A day-bucketed, location-scoped read filter.
#[derive(Debug, Clone)]
pub struct OrderQuery {
    pub location: String,
    pub date: String,
}

/// What the mathematical model of an [`OrderQuery`] holds.
#[verifier::ext_equal]
pub struct OrderQueryModel {
    pub location: Seq<char>,
    pub date: Seq<char>,
}

impl View for OrderQuery {
    type V = OrderQueryModel;

    open spec fn view(&self) -> OrderQueryModel {
        OrderQueryModel { location: self.location@, date: self.date@ }
    }
}

} // verus!
