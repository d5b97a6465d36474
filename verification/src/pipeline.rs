//! The partitioned pipeline as a state machine.
//!
//! The state holds P independent partitions — each an ordered enrichment
//! queue and an ordered persist queue of wire payloads — and the shared
//! store. Every outside event is an argument of a step: the inventory
//! collaborator's response (or its failure), and the store's acceptance of a
//! write (or its failure). A failed call leaves the state unchanged, which
//! is exactly the unbounded-retry policy: the worker holds its message and
//! asks again. A malformed payload is dropped and the worker goes on. The
//! laws at the end state delivery, retry idempotence, partition isolation,
//! malformed-message tolerance, and the absence of dirty reads.

use vstd::prelude::*;
use vstd::pervasive::VecAdditionalExecFns;

use crate::codec::QueryReply;
use crate::codec::QueryReplyModel;
use crate::codec::encode_normalized;
use crate::codec::encode_order;
use crate::codec::encode_reply;
use crate::codec::parse_normalized;
use crate::codec::parse_order;
use crate::codec::parse_query;
use crate::codec::spec_encode_normalized;
use crate::codec::spec_encode_payload;
use crate::codec::spec_encode_query;
use crate::codec::spec_encode_reply;
use crate::codec::spec_parse_normalized;
use crate::codec::spec_parse_payload;
use crate::codec::spec_parse_query;
use crate::router::route;
use crate::store::Store;
use crate::store::StoreModel;
use crate::store::query_records;
use crate::store::spec_detail_of;
use crate::store::spec_query_records;
use crate::store::spec_store_insert;
use crate::types::OrderDetailFromInventory;
use crate::types::OrderDetailFromInventoryModel;
use crate::types::OrderDetailPayload;
use crate::types::OrderPayload;
use crate::types::OrderPayloadModel;
use crate::types::OrderQueryModel;
use crate::types::spec_normalize;

verus! {

/// One partition's lane: its enrichment queue and its persist queue, each an
/// ordered sequence of wire payloads awaiting its worker.
#[derive(Debug)]
pub struct Partition {
    pub enrich_queue: Vec<Vec<u8>>,
    pub persist_queue: Vec<Vec<u8>>,
}

/// What the mathematical model of a [`Partition`] holds.
#[verifier::ext_equal]
pub struct PartitionModel {
    pub enrich: Seq<Seq<u8>>,
    pub persist: Seq<Seq<u8>>,
}

impl View for Partition {
    type V = PartitionModel;

    open spec fn view(&self) -> PartitionModel {
        PartitionModel {
            enrich: self.enrich_queue@.map_values(|m: Vec<u8>| m@),
            persist: self.persist_queue@.map_values(|m: Vec<u8>| m@),
        }
    }
}

/// The whole pipeline: P partitions and the shared store.
#[derive(Debug)]
pub struct PipelineState {
    pub partitions: Vec<Partition>,
    pub store: Store,
}

/// What the mathematical model of a [`PipelineState`] holds.
#[verifier::ext_equal]
pub struct PipelineModel {
    pub partitions: Seq<PartitionModel>,
    pub store: StoreModel,
}

impl View for PipelineState {
    type V = PipelineModel;

    open spec fn view(&self) -> PipelineModel {
        PipelineModel {
            partitions: self.partitions@.map_values(|p: Partition| p@),
            store: self.store@,
        }
    }
}

impl PipelineModel {
    /// Well-formedness: at least one partition, and a well-formed store.
    pub open spec fn wf(self) -> bool {
        self.partitions.len() >= 1 && self.store.wf()
    }
}

/// The model of an inventory response event: the enriched order it carried,
/// or nothing for a transport or decode failure.
pub open spec fn spec_resp_model(resp: Option<OrderDetailFromInventory>) -> Option<
    OrderDetailFromInventoryModel,
> {
    match resp {
        Some(e) => Some(e@),
        None => None,
    }
}

/// Ingress accepts an order: its document is appended to the enrichment
/// queue of the chosen partition. Nothing else moves.
pub open spec fn spec_submit(m: PipelineModel, p: OrderPayloadModel, i: int) -> PipelineModel
    recommends
        0 <= i < m.partitions.len(),
{
    PipelineModel {
        partitions: m.partitions.update(
            i,
            PartitionModel {
                enrich: m.partitions[i].enrich.push(spec_encode_payload(p)),
                persist: m.partitions[i].persist,
            },
        ),
        store: m.store,
    }
}

/// One turn of partition `i`'s enrichment worker on its queue head.
/// A malformed payload is dropped; a failed or undecodable inventory
/// response leaves everything as it was, to be retried; a well-formed
/// response moves the normalized order to the same partition's persist
/// queue.
pub open spec fn spec_enrich_step(
    m: PipelineModel,
    i: int,
    resp: Option<OrderDetailFromInventoryModel>,
) -> PipelineModel
    recommends
        0 <= i < m.partitions.len(),
{
    let part = m.partitions[i];
    if part.enrich.len() == 0 {
        m
    } else {
        match spec_parse_payload(part.enrich[0]) {
            None => PipelineModel {
                partitions: m.partitions.update(
                    i,
                    PartitionModel { enrich: part.enrich.skip(1), persist: part.persist },
                ),
                store: m.store,
            },
            Some(p) => match resp {
                None => m,
                Some(e) => match spec_normalize(e) {
                    None => m,
                    Some(n) => PipelineModel {
                        partitions: m.partitions.update(
                            i,
                            PartitionModel {
                                enrich: part.enrich.skip(1),
                                persist: part.persist.push(spec_encode_normalized(n)),
                            },
                        ),
                        store: m.store,
                    },
                },
            },
        }
    }
}

/// One turn of partition `i`'s persistence worker on its queue head.
/// A malformed payload is dropped; a store failure — a connection that could
/// not be acquired, a rejected insert, an exhausted identifier space —
/// leaves everything as it was, to be retried; otherwise the order is
/// committed and leaves the queue.
pub open spec fn spec_persist_step(m: PipelineModel, i: int, store_ok: bool) -> PipelineModel
    recommends
        0 <= i < m.partitions.len(),
{
    let part = m.partitions[i];
    if part.persist.len() == 0 {
        m
    } else {
        match spec_parse_normalized(part.persist[0]) {
            None => PipelineModel {
                partitions: m.partitions.update(
                    i,
                    PartitionModel { enrich: part.enrich, persist: part.persist.skip(1) },
                ),
                store: m.store,
            },
            Some(n) => if !store_ok || m.store.next_id == i32::MAX {
                m
            } else {
                PipelineModel {
                    partitions: m.partitions.update(
                        i,
                        PartitionModel { enrich: part.enrich, persist: part.persist.skip(1) },
                    ),
                    store: spec_store_insert(m.store, n),
                }
            },
        }
    }
}

/// The reply a query responder gives for one request: nothing for a
/// malformed request (the message is dropped), the error sentinel for a
/// failed read, and the rendered record set otherwise.
pub open spec fn spec_respond_query(s: StoreModel, req: Seq<u8>, store_ok: bool) -> Option<
    Seq<u8>,
> {
    match spec_parse_query(req) {
        None => None,
        Some(q) => if !store_ok {
            Some(spec_encode_reply(QueryReplyModel::Failed))
        } else {
            match spec_query_records(s, q) {
                Some(rs) => Some(spec_encode_reply(QueryReplyModel::Records(rs))),
                None => Some(spec_encode_reply(QueryReplyModel::Failed)),
            }
        },
    }
}

impl PipelineState {
    /// A pipeline of `p` partitions with empty queues over an empty store:
    /// the state after the lifecycle manager has established every
    /// subscription and before ingress accepts traffic.
    pub fn new(p: usize) -> (r: PipelineState)
        requires
            1 <= p,
        ensures
            r@.partitions.len() == p,
            forall|k: int|
                0 <= k < p ==> (#[trigger] r@.partitions[k]).enrich.len() == 0
                    && r@.partitions[k].persist.len() == 0,
            r@.store.records.len() == 0,
            r@.store.next_id == 0,
            r@.wf(),
    {
        let mut partitions: Vec<Partition> = Vec::new();
        let mut k: usize = 0;
        while k < p
            invariant
                k <= p,
                partitions@.len() == k,
                forall|j: int|
                    0 <= j < k ==> (#[trigger] partitions@[j])@.enrich.len() == 0
                        && partitions@[j]@.persist.len() == 0,
            decreases p - k,
        {
            partitions.push(Partition { enrich_queue: Vec::new(), persist_queue: Vec::new() });
            k += 1;
        }
        let r = PipelineState { partitions, store: Store::new() };
        proof {
            assert(forall|j: int|
                0 <= j < p ==> (#[trigger] r@.partitions[j]) == r.partitions@[j]@);
        }
        r
    }

    /// How many partitions this pipeline runs.
    pub fn partition_count(&self) -> (r: usize)
        ensures
            r == self@.partitions.len(),
    {
        self.partitions.len()
    }

    /// Ingress: routes an accepted order to a uniformly chosen partition and
    /// publishes its document on that partition's enrichment subject. The
    /// caller is acknowledged as soon as this returns; persistence is
    /// asynchronous.
    pub fn submit(&mut self, payload: &OrderPayload) -> (part: usize)
        requires
            old(self)@.partitions.len() >= 1,
        ensures
            part < old(self)@.partitions.len(),
            final(self)@ == spec_submit(old(self)@, payload@, part as int),
    {
        let i = route(self.partitions.len());
        let msg = encode_order(payload);
        let ghost before = self@;
        let mut lane = Partition { enrich_queue: Vec::new(), persist_queue: Vec::new() };
        self.partitions.set_and_swap(i, &mut lane);
        lane.enrich_queue.push(msg);
        self.partitions.set_and_swap(i, &mut lane);
        proof {
            assert(self@.partitions =~~= before.partitions.update(
                i as int,
                PartitionModel {
                    enrich: before.partitions[i as int].enrich.push(spec_encode_payload(
                        payload@,
                    )),
                    persist: before.partitions[i as int].persist,
                },
            ));
            assert(self@ =~~= spec_submit(before, payload@, i as int));
        }
        i
    }

    /// The order the enrichment worker of a partition is currently holding:
    /// what it sends to the inventory collaborator. Nothing when the queue
    /// is empty or its head is malformed.
    pub fn pending_order(&self, part: usize) -> (r: Option<OrderPayload>)
        requires
            part < self@.partitions.len(),
        ensures
            match r {
                Some(p) => self@.partitions[part as int].enrich.len() > 0 && spec_parse_payload(
                    self@.partitions[part as int].enrich[0],
                ) == Some(p@),
                None => self@.partitions[part as int].enrich.len() == 0 || spec_parse_payload(
                    self@.partitions[part as int].enrich[0],
                ) is None,
            },
    {
        if self.partitions[part].enrich_queue.len() == 0 {
            return None;
        }
        let r = parse_order(self.partitions[part].enrich_queue[0].as_slice());
        proof {
            assert(self@.partitions[part as int].enrich[0] == self.partitions@[part as int]@.enrich[0]);
        }
        r
    }

    /// One turn of a partition's enrichment worker, fed the inventory
    /// collaborator's answer for the pending order — or `None` for a
    /// transport or decode failure, which changes nothing and is retried.
    pub fn enrichment_step(&mut self, part: usize, resp: Option<OrderDetailFromInventory>)
        requires
            part < old(self)@.partitions.len(),
        ensures
            final(self)@ == spec_enrich_step(old(self)@, part as int, spec_resp_model(resp)),
    {
        let ghost before = self@;
        if self.partitions[part].enrich_queue.len() == 0 {
            proof {
                assert(self@ =~~= spec_enrich_step(before, part as int, spec_resp_model(resp)));
            }
            return ;
        }
        let head_ok = parse_order(self.partitions[part].enrich_queue[0].as_slice());
        proof {
            assert(before.partitions[part as int].enrich[0]
                == self.partitions@[part as int]@.enrich[0]);
        }
        match head_ok {
            None => {
                let mut lane = Partition { enrich_queue: Vec::new(), persist_queue: Vec::new() };
                self.partitions.set_and_swap(part, &mut lane);
                lane.enrich_queue.remove(0);
                self.partitions.set_and_swap(part, &mut lane);
                proof {
                    assert(self@.partitions[part as int].enrich =~~= before.partitions[
                        part as int].enrich.skip(1));
                    assert(self@ =~~= spec_enrich_step(
                        before,
                        part as int,
                        spec_resp_model(resp),
                    ));
                }
            },
            Some(_) => {
                match resp {
                    None => {
                        proof {
                            assert(self@ =~~= spec_enrich_step(
                                before,
                                part as int,
                                spec_resp_model(resp),
                            ));
                        }
                    },
                    Some(e) => {
                        let ghost em = e@;
                        match OrderDetailPayload::from_inventory(e) {
                            None => {
                                proof {
                                    assert(spec_normalize(em) is None);
                                    assert(self@ =~= spec_enrich_step(
                                        before,
                                        part as int,
                                        spec_resp_model(resp),
                                    ));
                                }
                            },
                            Some(n) => {
                                let msg = encode_normalized(&n);
                                let mut lane = Partition {
                                    enrich_queue: Vec::new(),
                                    persist_queue: Vec::new(),
                                };
                                self.partitions.set_and_swap(part, &mut lane);
                                lane.enrich_queue.remove(0);
                                lane.persist_queue.push(msg);
                                self.partitions.set_and_swap(part, &mut lane);
                                proof {
                                    assert(spec_normalize(em) == Some(n@));
                                    assert(self@.partitions[part as int].enrich
                                        =~~= before.partitions[part as int].enrich.skip(1));
                                    assert(self@.partitions[part as int].persist
                                        =~~= before.partitions[part as int].persist.push(
                                        spec_encode_normalized(n@),
                                    ));
                                    assert(self@ =~~= spec_enrich_step(
                                        before,
                                        part as int,
                                        spec_resp_model(resp),
                                    ));
                                }
                            },
                        }
                    },
                }
            },
        }
    }

    /// One turn of a partition's persistence worker. `store_ok` says whether
    /// the store accepted the write; a failure changes nothing and is
    /// retried against a freshly acquired connection. The identifier of a
    /// committed order is returned so a deployment that wants a
    /// confirmation hop can publish one; losing it loses nothing, since the
    /// store is the durability boundary.
    pub fn persist_step(&mut self, part: usize, store_ok: bool) -> (r: Option<i32>)
        requires
            part < old(self)@.partitions.len(),
        ensures
            final(self)@ == spec_persist_step(old(self)@, part as int, store_ok),
            old(self)@.store.wf() ==> final(self)@.store.wf(),
            r matches Some(id) ==> id == old(self)@.store.next_id,
            r is Some <==> {
                &&& old(self)@.partitions[part as int].persist.len() > 0
                &&& spec_parse_normalized(old(self)@.partitions[part as int].persist[0]) is Some
                &&& store_ok
                &&& old(self)@.store.next_id != i32::MAX
            },
    {
        let ghost before = self@;
        if self.partitions[part].persist_queue.len() == 0 {
            proof {
                assert(self@ =~~= spec_persist_step(before, part as int, store_ok));
            }
            return None;
        }
        let head_ok = parse_normalized(self.partitions[part].persist_queue[0].as_slice());
        proof {
            assert(before.partitions[part as int].persist[0]
                == self.partitions@[part as int]@.persist[0]);
        }
        match head_ok {
            None => {
                let mut lane = Partition { enrich_queue: Vec::new(), persist_queue: Vec::new() };
                self.partitions.set_and_swap(part, &mut lane);
                lane.persist_queue.remove(0);
                self.partitions.set_and_swap(part, &mut lane);
                proof {
                    assert(self@.partitions[part as int].persist =~~= before.partitions[
                        part as int].persist.skip(1));
                    assert(self@ =~~= spec_persist_step(before, part as int, store_ok));
                }
                None
            },
            Some(n) => {
                if !store_ok || self.store.next_id == i32::MAX {
                    proof {
                        assert(self@ =~~= spec_persist_step(before, part as int, store_ok));
                    }
                    return None;
                }
                let inserted = self.store.insert(&n);
                proof {
                    assert(inserted is Some);
                }
                let mut lane = Partition { enrich_queue: Vec::new(), persist_queue: Vec::new() };
                self.partitions.set_and_swap(part, &mut lane);
                lane.persist_queue.remove(0);
                self.partitions.set_and_swap(part, &mut lane);
                proof {
                    assert(self@.partitions[part as int].persist =~~= before.partitions[
                        part as int].persist.skip(1));
                    assert(self@ =~~= spec_persist_step(before, part as int, store_ok));
                }
                inserted
            },
        }
    }

    /// One turn of a query responder: answers a request received on a query
    /// subject. A malformed request is dropped (no reply); a failed read is
    /// answered with the explicit error sentinel, never with a silently
    /// empty result; otherwise the rendered record set is the reply.
    pub fn respond_query(&self, req: &Vec<u8>, store_ok: bool) -> (r: Option<Vec<u8>>)
        ensures
            match r {
                Some(v) => spec_respond_query(self@.store, req@, store_ok) == Some(v@),
                None => spec_respond_query(self@.store, req@, store_ok) is None,
            },
    {
        let q = match parse_query(req.as_slice()) {
            Some(q) => q,
            None => {
                return None;
            },
        };
        if !store_ok {
            return Some(encode_reply(&QueryReply::Failed));
        }
        match query_records(&self.store, &q) {
            Some(v) => {
                let reply = QueryReply::Records(v);
                Some(encode_reply(&reply))
            },
            None => Some(encode_reply(&QueryReply::Failed)),
        }
    }
}

// ---------------------------------------------------------------------------
// Laws
// ---------------------------------------------------------------------------
/// The state after `k` failed inventory calls on partition `i`: the worker
/// retried `k` times.
pub open spec fn spec_enrich_fail_k(m: PipelineModel, i: int, k: nat) -> PipelineModel
    decreases k,
{
    if k == 0 {
        m
    } else {
        spec_enrich_step(spec_enrich_fail_k(m, i, (k - 1) as nat), i, None)
    }
}

/// The state after `k` failed store writes on partition `i`.
pub open spec fn spec_persist_fail_k(m: PipelineModel, i: int, k: nat) -> PipelineModel
    decreases k,
{
    if k == 0 {
        m
    } else {
        spec_persist_step(spec_persist_fail_k(m, i, (k - 1) as nat), i, false)
    }
}

/// A failed inventory call changes nothing while the worker holds a
/// well-formed message (or none at all): retrying is free.
pub proof fn lemma_enrich_fail_identity(m: PipelineModel, i: int)
    requires
        0 <= i < m.partitions.len(),
        m.partitions[i].enrich.len() == 0 || spec_parse_payload(m.partitions[i].enrich[0])
            is Some,
    ensures
        spec_enrich_step(m, i, None) == m,
{
}

/// A failed store write changes nothing while the worker holds a
/// well-formed message (or none at all): retrying is free.
pub proof fn lemma_persist_fail_identity(m: PipelineModel, i: int)
    requires
        0 <= i < m.partitions.len(),
        m.partitions[i].persist.len() == 0 || spec_parse_normalized(m.partitions[i].persist[0])
            is Some,
    ensures
        spec_persist_step(m, i, false) == m,
{
}

/// Any number of failed inventory retries leaves the state untouched.
pub proof fn lemma_enrich_fail_k_identity(m: PipelineModel, i: int, k: nat)
    requires
        0 <= i < m.partitions.len(),
        m.partitions[i].enrich.len() == 0 || spec_parse_payload(m.partitions[i].enrich[0])
            is Some,
    ensures
        spec_enrich_fail_k(m, i, k) == m,
    decreases k,
{
    if k > 0 {
        lemma_enrich_fail_k_identity(m, i, (k - 1) as nat);
        lemma_enrich_fail_identity(m, i);
    }
}

/// Any number of failed store retries leaves the state untouched.
pub proof fn lemma_persist_fail_k_identity(m: PipelineModel, i: int, k: nat)
    requires
        0 <= i < m.partitions.len(),
        m.partitions[i].persist.len() == 0 || spec_parse_normalized(m.partitions[i].persist[0])
            is Some,
    ensures
        spec_persist_fail_k(m, i, k) == m,
    decreases k,
{
    if k > 0 {
        lemma_persist_fail_k_identity(m, i, (k - 1) as nat);
        lemma_persist_fail_identity(m, i);
    }
}

/// Retries are idempotent: any number of transient inventory failures
/// before a success yields exactly the state that an immediate success
/// yields, and likewise on the store side. Injected failures leave no trace
/// in the final stored record.
pub proof fn lemma_retry_idempotent(
    m: PipelineModel,
    i: int,
    k: nat,
    resp: Option<OrderDetailFromInventoryModel>,
    store_ok: bool,
)
    requires
        0 <= i < m.partitions.len(),
        m.partitions[i].enrich.len() == 0 || spec_parse_payload(m.partitions[i].enrich[0])
            is Some,
        m.partitions[i].persist.len() == 0 || spec_parse_normalized(m.partitions[i].persist[0])
            is Some,
    ensures
        spec_enrich_fail_k(m, i, k) == m,
        spec_persist_fail_k(m, i, k) == m,
        spec_enrich_step(spec_enrich_fail_k(m, i, k), i, resp) == spec_enrich_step(m, i, resp),
        spec_persist_step(spec_persist_fail_k(m, i, k), i, store_ok) == spec_persist_step(
            m,
            i,
            store_ok,
        ),
{
    lemma_enrich_fail_k_identity(m, i, k);
    lemma_persist_fail_k_identity(m, i, k);
}

/// An enrichment turn on partition `i` touches nothing but partition `i`:
/// every other partition and the store are exactly as they were.
pub proof fn lemma_enrich_frame(
    m: PipelineModel,
    i: int,
    resp: Option<OrderDetailFromInventoryModel>,
)
    requires
        0 <= i < m.partitions.len(),
    ensures
        spec_enrich_step(m, i, resp).partitions.len() == m.partitions.len(),
        forall|j: int|
            0 <= j < m.partitions.len() && j != i ==> spec_enrich_step(m, i, resp).partitions[j]
                == m.partitions[j],
        spec_enrich_step(m, i, resp).store == m.store,
{
}

/// A persistence turn on partition `i` touches no other partition's queues.
pub proof fn lemma_persist_frame(m: PipelineModel, i: int, store_ok: bool)
    requires
        0 <= i < m.partitions.len(),
    ensures
        spec_persist_step(m, i, store_ok).partitions.len() == m.partitions.len(),
        forall|j: int|
            0 <= j < m.partitions.len() && j != i ==> spec_persist_step(
                m,
                i,
                store_ok,
            ).partitions[j] == m.partitions[j],
{
}

/// Partition isolation: a permanently failing inventory call on partition
/// `i` — any number of failed retries — does not change what a turn on a
/// different partition `j` does. Work on `j` completes exactly as if
/// partition `i` were healthy.
pub proof fn lemma_partition_isolation(
    m: PipelineModel,
    i: int,
    j: int,
    k: nat,
    resp: Option<OrderDetailFromInventoryModel>,
    store_ok: bool,
)
    requires
        0 <= i < m.partitions.len(),
        0 <= j < m.partitions.len(),
        i != j,
        m.partitions[i].enrich.len() == 0 || spec_parse_payload(m.partitions[i].enrich[0])
            is Some,
    ensures
        spec_enrich_step(spec_enrich_fail_k(m, i, k), j, resp) == spec_enrich_step(m, j, resp),
        spec_persist_step(spec_enrich_fail_k(m, i, k), j, store_ok) == spec_persist_step(
            m,
            j,
            store_ok,
        ),
{
    lemma_enrich_fail_k_identity(m, i, k);
}

/// Delivery: an order accepted while its partition is quiet, enriched by a
/// well-behaved collaborator, and committed by a willing store becomes
/// exactly one stored record — its location and quantities are the
/// client's, its signature and material figure are the collaborator's, its
/// instant is the parsed timestamp, and its identifier is fresh. No other
/// partition moves.
pub proof fn lemma_pipeline_delivery(
    m: PipelineModel,
    p: OrderPayloadModel,
    i: int,
    e: OrderDetailFromInventoryModel,
)
    requires
        m.wf(),
        0 <= i < m.partitions.len(),
        m.partitions[i].enrich.len() == 0,
        m.partitions[i].persist.len() == 0,
        m.store.next_id < i32::MAX,
        spec_normalize(e) is Some,
        e.location == p.location,
        e.timestamp == p.timestamp,
        e.data == p.data,
    ensures
        ({
            let done = spec_persist_step(
                spec_enrich_step(spec_submit(m, p, i), i, Some(e)),
                i,
                true,
            );
            let n = spec_normalize(e)->Some_0;
            let stored = spec_detail_of(n, m.store.next_id);
            &&& done.store.records == m.store.records.push(stored)
            &&& stored.location == p.location
            &&& stored.a == p.data.a
            &&& stored.b == p.data.b
            &&& stored.c == p.data.c
            &&& stored.d == p.data.d
            &&& stored.signature == e.signature
            &&& stored.material == e.material
            &&& stored.timestamp == n.timestamp
            &&& stored.id == m.store.next_id
            &&& forall|x: int|
                0 <= x < m.partitions.len() ==> #[trigger] done.partitions[x] == m.partitions[x]
            &&& done.store.wf()
        }),
{
    let m1 = spec_submit(m, p, i);
    crate::codec::lemma_order_round_trip(p);
    let n = spec_normalize(e)->Some_0;
    let m2 = spec_enrich_step(m1, i, Some(e));
    assert(m1.partitions[i].enrich[0] == spec_encode_payload(p));
    assert(m2.partitions =~~= m.partitions.update(
        i,
        PartitionModel {
            enrich: Seq::empty(),
            persist: Seq::empty().push(spec_encode_normalized(n)),
        },
    )) by {
        assert(m1.partitions[i].enrich.skip(1) =~~= Seq::<Seq<u8>>::empty());
        assert(m1.partitions[i].persist.push(spec_encode_normalized(n))
            =~~= Seq::<Seq<u8>>::empty().push(spec_encode_normalized(n)));
    }
    crate::codec::lemma_normalized_round_trip(n);
    let m3 = spec_persist_step(m2, i, true);
    assert(m2.partitions[i].persist[0] == spec_encode_normalized(n));
    assert(m3.store == spec_store_insert(m.store, n));
    assert(m3.store.records == m.store.records.push(spec_detail_of(n, m.store.next_id)));
    assert forall|x: int|
        0 <= x < m.partitions.len() implies #[trigger] m3.partitions[x] == m.partitions[x] by {
        if x == i {
            assert(m3.partitions[i].enrich =~~= m.partitions[i].enrich);
            assert(m3.partitions[i].persist =~~= m.partitions[i].persist);
            assert(m3.partitions[i] =~~= m.partitions[i]);
        }
    }
    assert forall|kk: int|
        0 <= kk < m3.store.records.len() implies 0 <= (#[trigger] m3.store.records[kk]).id
        < m3.store.next_id by {
        if kk < m.store.records.len() {
            assert(m3.store.records[kk] == m.store.records[kk]);
        }
    }
    assert forall|jj: int, kk: int|
        0 <= jj < kk < m3.store.records.len() implies m3.store.records[jj].id
        < m3.store.records[kk].id by {
        if kk < m.store.records.len() {
            assert(m.store.records[jj].id < m.store.records[kk].id);
        } else {
            assert(m3.store.records[jj].id < m.store.next_id);
        }
    }
}

/// A malformed payload on an enrichment subject is dropped and nothing else
/// changes: the worker survives it, and the next message on the same
/// partition is processed exactly as if the malformed one had never
/// arrived.
pub proof fn lemma_malformed_enrich_dropped(
    m: PipelineModel,
    i: int,
    resp: Option<OrderDetailFromInventoryModel>,
    resp2: Option<OrderDetailFromInventoryModel>,
)
    requires
        0 <= i < m.partitions.len(),
        m.partitions[i].enrich.len() > 0,
        spec_parse_payload(m.partitions[i].enrich[0]) is None,
    ensures
        ({
            let m1 = spec_enrich_step(m, i, resp);
            &&& m1.partitions[i].enrich == m.partitions[i].enrich.skip(1)
            &&& m1.partitions[i].persist == m.partitions[i].persist
            &&& m1.store == m.store
            &&& forall|j: int|
                0 <= j < m.partitions.len() && j != i ==> #[trigger] m1.partitions[j]
                    == m.partitions[j]
            &&& spec_enrich_step(m1, i, resp2) == spec_enrich_step(
                PipelineModel {
                    partitions: m.partitions.update(
                        i,
                        PartitionModel {
                            enrich: m.partitions[i].enrich.skip(1),
                            persist: m.partitions[i].persist,
                        },
                    ),
                    store: m.store,
                },
                i,
                resp2,
            )
        }),
{
    let m1 = spec_enrich_step(m, i, resp);
    assert(m1.partitions[i] == m.partitions.update(
        i,
        PartitionModel {
            enrich: m.partitions[i].enrich.skip(1),
            persist: m.partitions[i].persist,
        },
    )[i]);
}

/// A malformed payload on a persist subject is dropped the same way.
pub proof fn lemma_malformed_persist_dropped(m: PipelineModel, i: int, store_ok: bool)
    requires
        0 <= i < m.partitions.len(),
        m.partitions[i].persist.len() > 0,
        spec_parse_normalized(m.partitions[i].persist[0]) is None,
    ensures
        ({
            let m1 = spec_persist_step(m, i, store_ok);
            &&& m1.partitions[i].persist == m.partitions[i].persist.skip(1)
            &&& m1.partitions[i].enrich == m.partitions[i].enrich
            &&& m1.store == m.store
            &&& forall|j: int|
                0 <= j < m.partitions.len() && j != i ==> #[trigger] m1.partitions[j]
                    == m.partitions[j]
        }),
{
}

/// No dirty reads: while a write is in flight — submitted, even enriched,
/// but not yet committed by the persistence worker — no query observes it.
/// Only a successful commit changes what any query returns.
pub proof fn lemma_no_dirty_read(
    m: PipelineModel,
    p: OrderPayloadModel,
    i: int,
    resp: Option<OrderDetailFromInventoryModel>,
    q: OrderQueryModel,
    store_ok: bool,
)
    requires
        0 <= i < m.partitions.len(),
    ensures
        spec_submit(m, p, i).store == m.store,
        spec_enrich_step(m, i, resp).store == m.store,
        spec_query_records(spec_submit(m, p, i).store, q) == spec_query_records(m.store, q),
        spec_query_records(spec_enrich_step(m, i, resp).store, q) == spec_query_records(
            m.store,
            q,
        ),
        spec_respond_query(spec_submit(m, p, i).store, spec_encode_query(q), store_ok)
            == spec_respond_query(m.store, spec_encode_query(q), store_ok),
        spec_persist_step(m, i, false).store == m.store,
{
}

} // verus!
