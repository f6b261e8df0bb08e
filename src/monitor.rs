use std::collections::HashMap;
use vstd::prelude::*;

verus! {

/// One endpoint's terminal observation of one signature.
#[derive(Clone, Debug)]
pub struct ConfirmationResult {
    /// The signature, in its text encoding.
    pub signature: String,
    /// Wall-clock time of the observation, in microseconds.
    pub timestamp_us: u64,
    /// The ledger position reported with the notification.
    pub slot: u64,
    /// Whether the transaction finalized with an on-chain error.
    pub failed: bool,
}


/// What one endpoint recorded of one signature: signature, timestamp, slot,
/// on-chain failure.
pub type RecordModel = (Seq<char>, u64, u64, bool);

/// The model of one confirmation.
pub open spec fn record_model(r: ConfirmationResult) -> RecordModel {
    (r.signature@, r.timestamp_us, r.slot, r.failed)
}

/// The records' signatures, in the order recorded.
pub open spec fn record_signatures(records: Seq<RecordModel>) -> Seq<Seq<char>> {
    records.map_values(|r: RecordModel| r.0)
}

/// A message from the streaming connection, as the monitor sees it.
#[derive(PartialEq, Eq, Structural, Clone, Copy, Debug)]
pub enum MonitorEvent {
    /// The server accepted subscribe request `request_id` under `subscription_id`.
    Acknowledged { request_id: u64, subscription_id: u64 },
    /// The subscription reached its terminal state at `slot`; `timestamp_us` is
    /// when the message arrived.
    Notified { subscription_id: u64, slot: u64, failed: bool, timestamp_us: u64 },
    /// A message that could not be read or has an unexpected shape.
    Malformed,
    /// The connection closed or failed.
    Ended,
}

/// What the monitor made of one event.
#[derive(PartialEq, Eq, Structural, Clone, Copy, Debug)]
pub enum MonitorOutcome {
    /// A subscription was bound to its signature.
    Subscribed,
    /// The acknowledgement names no outstanding request.
    UnknownRequest,
    /// The request was consumed but the subscription id is bound already.
    SubscriptionTaken,
    /// A confirmation was recorded.
    Recorded,
    /// The signature was resolved before; nothing is recorded.
    Duplicate,
    /// The notification names no known subscription.
    UnknownSubscription,
    /// The message was skipped.
    Skipped,
    /// The connection is over.
    Ended,
}

/// What a notification says of the transaction's on-chain error.
#[derive(PartialEq, Eq, Structural, Clone, Copy, Debug)]
pub enum ErrorField {
    /// The field is missing.
    Absent,
    /// The field is `null`: no error.
    Null,
    /// The field holds an error.
    Present,
}

/// The parts of one incoming text message that the protocol reads, each
/// as found in the decoded message.
pub struct IncomingMessage {
    /// A top-level `id` key is present.
    pub has_id: bool,
    /// A top-level `result` key is present.
    pub has_result: bool,
    /// A top-level `method` key is present.
    pub has_method: bool,
    /// The `method` value, where it is a string.
    pub method: Option<String>,
    /// The `jsonrpc` value is a string.
    pub has_version: bool,
    /// `id`, where it is an unsigned 64-bit integer.
    pub id: Option<u64>,
    /// `result`, where it is an unsigned 64-bit integer.
    pub result: Option<u64>,
    /// `params.subscription`, where it is an unsigned 64-bit integer.
    pub subscription: Option<u64>,
    /// `params.result.context.slot`, where it is an unsigned 64-bit integer.
    pub slot: Option<u64>,
    /// `params.result.value.err`, where `params.result.value` is an object.
    pub err: Option<ErrorField>,
}

/// The method tag of a signature notification.
pub open spec fn notification_method() -> Seq<char> {
    "signatureNotification"@
}

/// How a message is understood. An acknowledgement carries `id` and
/// `result` and no method; a notification carries the notification method
/// tag and a complete payload. Anything else is malformed.
pub open spec fn classify_spec(msg: IncomingMessage, timestamp_us: u64) -> MonitorEvent {
    if msg.has_id && msg.has_result && !msg.has_method {
        match (msg.id, msg.result) {
            (Some(request_id), Some(subscription_id)) => MonitorEvent::Acknowledged { request_id, subscription_id },
            _ => MonitorEvent::Malformed,
        }
    } else if msg.method is Some && msg.method->0@ == notification_method() {
        match (msg.subscription, msg.slot, msg.err) {
            (Some(subscription_id), Some(slot), Some(err)) => if msg.has_version {
                MonitorEvent::Notified { subscription_id, slot, failed: err == ErrorField::Present, timestamp_us }
            } else {
                MonitorEvent::Malformed
            },
            _ => MonitorEvent::Malformed,
        }
    } else {
        MonitorEvent::Malformed
    }
}

/// Understands one incoming message that arrived at `timestamp_us`.
pub fn classify(msg: &IncomingMessage, timestamp_us: u64) -> (e: MonitorEvent)
    ensures
        e == classify_spec(*msg, timestamp_us),
{
    if msg.has_id && msg.has_result && !msg.has_method {
        match (msg.id, msg.result) {
            (Some(request_id), Some(subscription_id)) => MonitorEvent::Acknowledged { request_id, subscription_id },
            _ => MonitorEvent::Malformed,
        }
    } else if is_notification_method(&msg.method) {
        match (msg.subscription, msg.slot, msg.err) {
            (Some(subscription_id), Some(slot), Some(err)) => if msg.has_version {
                MonitorEvent::Notified { subscription_id, slot, failed: err == ErrorField::Present, timestamp_us }
            } else {
                MonitorEvent::Malformed
            },
            _ => MonitorEvent::Malformed,
        }
    } else {
        MonitorEvent::Malformed
    }
}

fn is_notification_method(method: &Option<String>) -> (r: bool)
    ensures
        r == (method is Some && method->0@ == notification_method()),
{
    match method {
        Some(m) => {
            let tag = String::from_str("signatureNotification");
            *m == tag
        },
        None => false,
    }
}

/// The state of one connection's monitor.
pub struct MonitorModel {
    /// The signatures watched, distinct, in subscription order.
    pub signatures: Seq<Seq<char>>,
    /// Outstanding subscribe requests: request id to signature index.
    pub requests: Map<u64, int>,
    /// Bound subscriptions: server subscription id to signature index.
    pub subscriptions: Map<u64, int>,
    /// The confirmations recorded so far.
    pub records: Seq<RecordModel>,
    /// Whether the connection is over.
    pub ended: bool,
}

impl MonitorModel {
    /// Whether `sig` has been resolved.
    pub open spec fn resolved(self, sig: Seq<char>) -> bool {
        record_signatures(self.records).contains(sig)
    }

    /// Whether every signature has been resolved.
    pub open spec fn all_resolved(self) -> bool {
        forall|i: int| 0 <= i < self.signatures.len() ==> self.resolved(#[trigger] self.signatures[i])
    }

    /// The invariant every reachable state keeps.
    pub open spec fn wf(self) -> bool {
        &&& self.signatures.no_duplicates()
        &&& forall|id: u64| #[trigger] self.requests.contains_key(id) ==> 0 <= self.requests[id] < self.signatures.len()
        &&& forall|id: u64| #[trigger] self.subscriptions.contains_key(id) ==> 0 <= self.subscriptions[id] < self.signatures.len()
        &&& record_signatures(self.records).no_duplicates()
        &&& forall|k: int| 0 <= k < self.records.len() ==> self.signatures.contains(#[trigger] self.records[k].0)
    }
}

/// The monitor's response to one event.
pub open spec fn step(m: MonitorModel, e: MonitorEvent) -> (MonitorModel, MonitorOutcome) {
    match e {
        MonitorEvent::Acknowledged { request_id, subscription_id } => {
            if !m.requests.contains_key(request_id) {
                (m, MonitorOutcome::UnknownRequest)
            } else if m.subscriptions.contains_key(subscription_id) {
                (MonitorModel { requests: m.requests.remove(request_id), ..m }, MonitorOutcome::SubscriptionTaken)
            } else {
                (
                    MonitorModel {
                        requests: m.requests.remove(request_id),
                        subscriptions: m.subscriptions.insert(subscription_id, m.requests[request_id]),
                        ..m
                    },
                    MonitorOutcome::Subscribed,
                )
            }
        },
        MonitorEvent::Notified { subscription_id, slot, failed, timestamp_us } => {
            if !m.subscriptions.contains_key(subscription_id) {
                (m, MonitorOutcome::UnknownSubscription)
            } else {
                let sig = m.signatures[m.subscriptions[subscription_id]];
                if m.resolved(sig) {
                    (m, MonitorOutcome::Duplicate)
                } else {
                    (
                        MonitorModel { records: m.records.push((sig, timestamp_us, slot, failed)), ..m },
                        MonitorOutcome::Recorded,
                    )
                }
            }
        },
        MonitorEvent::Malformed => (m, MonitorOutcome::Skipped),
        MonitorEvent::Ended => (MonitorModel { ended: true, ..m }, MonitorOutcome::Ended),
    }
}

/// The state after each of `events` in turn.
pub open spec fn run(m: MonitorModel, events: Seq<MonitorEvent>) -> MonitorModel
    decreases events.len(),
{
    if events.len() == 0 {
        m
    } else {
        step(run(m, events.drop_last()), events.last()).0
    }
}

/// Every step keeps the model well formed.
pub proof fn lemma_step_wf(m: MonitorModel, e: MonitorEvent)
    requires
        m.wf(),
    ensures
        step(m, e).0.wf(),
        step(m, e).0.signatures == m.signatures,
{
    match e {
        MonitorEvent::Notified { subscription_id, slot, failed, timestamp_us } => {
            if m.subscriptions.contains_key(subscription_id) {
                let sig = m.signatures[m.subscriptions[subscription_id]];
                if !m.resolved(sig) {
                    let n = step(m, e).0;
                    assert(record_signatures(n.records) =~= record_signatures(m.records).push(sig));
                    assert forall|k: int| 0 <= k < n.records.len() implies m.signatures.contains(#[trigger] n.records[k].0) by {
                        if k == m.records.len() {
                            assert(m.signatures[m.subscriptions[subscription_id]] == sig);
                        } else {
                            assert(n.records[k] == m.records[k]);
                        }
                    }
                }
            }
        },
        _ => {},
    }
}

/// Each signature is recorded at most once, whatever events arrive:
/// repeated notifications for one subscription included.
pub proof fn lemma_at_most_one_record(m: MonitorModel, events: Seq<MonitorEvent>)
    requires
        m.wf(),
    ensures
        run(m, events).wf(),
        run(m, events).signatures == m.signatures,
        forall|a: int, b: int|
            0 <= a < b < run(m, events).records.len() ==> (#[trigger] run(m, events).records[a]).0 != (#[trigger] run(m, events).records[b]).0,
    decreases events.len(),
{
    if events.len() > 0 {
        lemma_at_most_one_record(m, events.drop_last());
        lemma_step_wf(run(m, events.drop_last()), events.last());
    }
    let r = run(m, events);
    assert forall|a: int, b: int| 0 <= a < b < r.records.len() implies (#[trigger] r.records[a]).0 != (#[trigger] r.records[b]).0 by {
        assert(record_signatures(r.records)[a] == r.records[a].0);
        assert(record_signatures(r.records)[b] == r.records[b].0);
    }
}

/// Once bound, a subscription keeps its signature.
proof fn lemma_binding_kept(m: MonitorModel, events: Seq<MonitorEvent>, subscription_id: u64)
    requires
        m.wf(),
        m.subscriptions.contains_key(subscription_id),
    ensures
        run(m, events).subscriptions.contains_key(subscription_id),
        run(m, events).subscriptions[subscription_id] == m.subscriptions[subscription_id],
    decreases events.len(),
{
    if events.len() > 0 {
        lemma_binding_kept(m, events.drop_last(), subscription_id);
        lemma_at_most_one_record(m, events.drop_last());
    }
}

/// An acknowledgement of request `request_id` binds `subscription_id` to the
/// signature that request asked for, in whatever order acknowledgements
/// arrive; whatever events follow, a notification on that subscription then
/// resolves that very signature.
pub proof fn lemma_acknowledgement_binds(
    m: MonitorModel,
    request_id: u64,
    subscription_id: u64,
    between: Seq<MonitorEvent>,
    slot: u64,
    failed: bool,
    timestamp_us: u64,
)
    requires
        m.wf(),
        m.requests.contains_key(request_id),
        !m.subscriptions.contains_key(subscription_id),
    ensures
        ({
            let bound = step(m, MonitorEvent::Acknowledged { request_id, subscription_id });
            let later = run(bound.0, between);
            let (last, outcome) = step(later, MonitorEvent::Notified { subscription_id, slot, failed, timestamp_us });
            &&& bound.1 == MonitorOutcome::Subscribed
            &&& later.subscriptions[subscription_id] == m.requests[request_id]
            &&& last.resolved(m.signatures[m.requests[request_id]])
            &&& outcome == MonitorOutcome::Recorded ==> last.records.last() == (
                m.signatures[m.requests[request_id]],
                timestamp_us,
                slot,
                failed,
            )
            &&& outcome == MonitorOutcome::Duplicate ==> later.resolved(m.signatures[m.requests[request_id]])
            &&& (outcome == MonitorOutcome::Recorded || outcome == MonitorOutcome::Duplicate)
        }),
{
    let bound = step(m, MonitorEvent::Acknowledged { request_id, subscription_id });
    lemma_step_wf(m, MonitorEvent::Acknowledged { request_id, subscription_id });
    lemma_binding_kept(bound.0, between, subscription_id);
    lemma_at_most_one_record(bound.0, between);
    let later = run(bound.0, between);
    let sig = m.signatures[m.requests[request_id]];
    let last = step(later, MonitorEvent::Notified { subscription_id, slot, failed, timestamp_us }).0;
    if !later.resolved(sig) {
        assert(record_signatures(last.records)[later.records.len() as int] == sig);
    }
}

/// What holds of signature `i` as long as its request is unanswered.
pub open spec fn awaiting_inv(m: MonitorModel, i: int) -> bool {
    &&& m.wf()
    &&& 0 <= i < m.signatures.len()
    &&& i + 1 <= u64::MAX
    &&& m.requests.contains_key((i + 1) as u64)
    &&& forall|r: u64| #[trigger] m.requests.contains_key(r) ==> m.requests[r] == r - 1
    &&& forall|sid: u64| #[trigger] m.subscriptions.contains_key(sid) ==> m.subscriptions[sid] != i
    &&& !m.resolved(m.signatures[i])
}

proof fn lemma_awaiting_step(m: MonitorModel, e: MonitorEvent, i: int)
    requires
        awaiting_inv(m, i),
        !(e matches MonitorEvent::Acknowledged { request_id, .. } && request_id == i + 1),
    ensures
        awaiting_inv(step(m, e).0, i),
        step(m, e).0.signatures == m.signatures,
{
    lemma_step_wf(m, e);
    let n = step(m, e).0;
    match e {
        MonitorEvent::Acknowledged { request_id, subscription_id } => {
            if m.requests.contains_key(request_id) {
                assert(n.requests.contains_key((i + 1) as u64));
            }
        },
        MonitorEvent::Notified { subscription_id, slot, failed, timestamp_us } => {
            if m.subscriptions.contains_key(subscription_id) {
                let j = m.subscriptions[subscription_id];
                let sig = m.signatures[j];
                if !m.resolved(sig) {
                    assert(sig != m.signatures[i]);
                    assert(record_signatures(n.records) =~= record_signatures(m.records).push(sig));
                    if n.resolved(m.signatures[i]) {
                        let k = choose|k: int| 0 <= k < record_signatures(n.records).len()
                            && record_signatures(n.records)[k] == m.signatures[i];
                        assert(record_signatures(m.records)[k] == m.signatures[i]);
                    }
                }
            }
        },
        _ => {},
    }
}

proof fn lemma_awaiting_run(m: MonitorModel, events: Seq<MonitorEvent>, i: int)
    requires
        awaiting_inv(m, i),
        forall|k: int| 0 <= k < events.len() ==> !(#[trigger] events[k] matches MonitorEvent::Acknowledged { request_id, .. } && request_id == i + 1),
    ensures
        awaiting_inv(run(m, events), i),
        run(m, events).signatures == m.signatures,
    decreases events.len(),
{
    if events.len() > 0 {
        let init = events.drop_last();
        assert forall|k: int| 0 <= k < init.len() implies !(#[trigger] init[k] matches MonitorEvent::Acknowledged { request_id, .. } && request_id == i + 1) by {
            assert(init[k] == events[k]);
        }
        lemma_awaiting_run(m, init, i);
        assert(events.last() == events[events.len() - 1]);
        lemma_awaiting_step(run(m, init), events.last(), i);
    }
}

proof fn lemma_distinct_in_order_unique(xs: Seq<Seq<char>>)
    ensures
        distinct_in_order(xs).no_duplicates(),
        distinct_in_order(xs).len() <= xs.len(),
    decreases xs.len(),
{
    if xs.len() > 0 {
        lemma_distinct_in_order_unique(xs.drop_last());
    }
}

/// The starting state is well formed.
pub proof fn lemma_initial_wf(signatures: Seq<Seq<char>>)
    ensures
        initial(signatures).wf(),
{
    lemma_distinct_in_order_unique(signatures);
}

/// A signature whose subscribe request is never acknowledged is never
/// resolved, whatever else arrives: the others are resolved around it and
/// the connection ends with it unobserved.
pub proof fn lemma_unacknowledged_stays_unresolved(signatures: Seq<Seq<char>>, events: Seq<MonitorEvent>, i: int)
    requires
        signatures.len() <= usize::MAX,
        0 <= i < distinct_in_order(signatures).len(),
        forall|k: int| 0 <= k < events.len() ==> !(#[trigger] events[k] matches MonitorEvent::Acknowledged { request_id, .. } && request_id == i + 1),
    ensures
        !run(initial(signatures), events).resolved(distinct_in_order(signatures)[i]),
{
    let m = initial(signatures);
    lemma_initial_wf(signatures);
    lemma_distinct_in_order_unique(signatures);
    assert(i + 1 <= u64::MAX);
    assert(m.requests.contains_key((i + 1) as u64));
    assert(!m.resolved(m.signatures[i]));
    lemma_awaiting_run(m, events, i);
}

/// The signatures among the first `k` of `m` that are not resolved.
pub open spec fn unresolved_prefix(m: MonitorModel, k: int) -> Seq<Seq<char>>
    decreases k,
{
    if k <= 0 {
        Seq::empty()
    } else if m.resolved(m.signatures[k - 1]) {
        unresolved_prefix(m, k - 1)
    } else {
        unresolved_prefix(m, k - 1).push(m.signatures[k - 1])
    }
}

/// `xs` without repeats, each kept where it first occurs.
pub open spec fn distinct_in_order(xs: Seq<Seq<char>>) -> Seq<Seq<char>>
    decreases xs.len(),
{
    if xs.len() == 0 {
        Seq::empty()
    } else if distinct_in_order(xs.drop_last()).contains(xs.last()) {
        distinct_in_order(xs.drop_last())
    } else {
        distinct_in_order(xs.drop_last()).push(xs.last())
    }
}

/// The state right after subscribing to `signatures`: request `i + 1` asks
/// for the `i`-th of them.
pub open spec fn initial(signatures: Seq<Seq<char>>) -> MonitorModel {
    let sigs = distinct_in_order(signatures);
    MonitorModel {
        signatures: sigs,
        requests: Map::new(|id: u64| 1 <= id <= sigs.len(), |id: u64| id - 1),
        subscriptions: Map::empty(),
        records: Seq::empty(),
        ended: false,
    }
}


/// The protocol state of one streaming connection: which subscribe requests
/// await an acknowledgement, which subscriptions are bound to which
/// signature, and what has been confirmed.
pub struct SignatureMonitor {
    signatures: Vec<String>,
    awaiting_ack: Vec<bool>,
    subscriptions: HashMap<u64, usize>,
    resolved: Vec<bool>,
    records: Vec<ConfirmationResult>,
    ended: bool,
}

impl View for SignatureMonitor {
    type V = MonitorModel;

    closed spec fn view(&self) -> MonitorModel {
        MonitorModel {
            signatures: self.signatures@.map_values(|s: String| s@),
            requests: Map::new(
                |id: u64| 1 <= id <= self.awaiting_ack@.len() && self.awaiting_ack@[id - 1],
                |id: u64| id - 1,
            ),
            subscriptions: Map::new(
                |id: u64| self.subscriptions@.contains_key(id),
                |id: u64| self.subscriptions@[id] as int,
            ),
            records: self.records@.map_values(|r: ConfirmationResult| record_model(r)),
            ended: self.ended,
        }
    }
}

impl SignatureMonitor {
    /// The representation agrees with its model.
    pub closed spec fn wf(&self) -> bool {
        &&& self@.wf()
        &&& self.awaiting_ack@.len() == self.signatures@.len()
        &&& self.resolved@.len() == self.signatures@.len()
        &&& forall|i: int| 0 <= i < self.signatures@.len() ==> #[trigger] self.resolved@[i] == self@.resolved(self@.signatures[i])
    }

    /// Starts monitoring `signatures`; a repeated signature is watched once.
    pub fn new(signatures: Vec<String>) -> (r: Self)
        ensures
            r.wf(),
            r@.wf(),
            r@ == initial(signatures@.map_values(|s: String| s@)),
    {
        let ghost input = signatures@.map_values(|s: String| s@);
        let mut sigs: Vec<String> = Vec::new();
        let mut k: usize = 0;
        while k < signatures.len()
            invariant
                k <= signatures@.len(),
                input == signatures@.map_values(|s: String| s@),
                sigs@.map_values(|s: String| s@) == distinct_in_order(input.take(k as int)),
                sigs@.map_values(|s: String| s@).no_duplicates(),
            decreases signatures@.len() - k,
        {
            let ghost view = sigs@.map_values(|s: String| s@);
            assert(input.take(k + 1).drop_last() =~= input.take(k as int));
            let mut seen = false;
            let mut q: usize = 0;
            while q < sigs.len()
                invariant
                    q <= sigs@.len(),
                    view == sigs@.map_values(|s: String| s@),
                    k < signatures@.len(),
                    seen == exists|p: int| 0 <= p < q && view[p] == signatures@[k as int]@,
                decreases sigs@.len() - q,
            {
                assert(view[q as int] == sigs@[q as int]@);
                if sigs[q] == signatures[k] {
                    seen = true;
                }
                q = q + 1;
            }
            assert(input.take(k + 1).last() == signatures@[k as int]@);
            if !seen {
                assert(!view.contains(signatures@[k as int]@));
                sigs.push(signatures[k].clone());
                assert(sigs@.map_values(|s: String| s@) =~= view.push(signatures@[k as int]@));
            } else {
                assert(view.contains(signatures@[k as int]@));
            }
            k = k + 1;
        }
        assert(input.take(k as int) =~= input);
        let mut awaiting_ack: Vec<bool> = Vec::new();
        let mut resolved: Vec<bool> = Vec::new();
        let mut i: usize = 0;
        while i < sigs.len()
            invariant
                i <= sigs@.len(),
                awaiting_ack@.len() == i,
                resolved@.len() == i,
                forall|q: int| 0 <= q < i ==> #[trigger] awaiting_ack@[q],
                forall|q: int| 0 <= q < i ==> !#[trigger] resolved@[q],
            decreases sigs@.len() - i,
        {
            awaiting_ack.push(true);
            resolved.push(false);
            i = i + 1;
        }
        let r = SignatureMonitor {
            signatures: sigs,
            awaiting_ack,
            subscriptions: HashMap::new(),
            resolved,
            records: Vec::new(),
            ended: false,
        };
        assert(r@.requests =~= initial(input).requests);
        assert(r@.subscriptions =~= initial(input).subscriptions);
        assert(r@.records =~= initial(input).records);
        r
    }

    /// Applies one event from the connection.
    pub fn handle(&mut self, event: MonitorEvent) -> (o: MonitorOutcome)
        requires
            old(self).wf(),
        ensures
            final(self).wf(),
            final(self)@.wf(),
            (final(self)@, o) == step(old(self)@, event),
    {
        broadcast use vstd::std_specs::hash::group_hash_axioms;
        let ghost m = self@;
        match event {
            MonitorEvent::Acknowledged { request_id, subscription_id } => {
                if request_id == 0 || request_id > self.awaiting_ack.len() as u64 {
                    return MonitorOutcome::UnknownRequest;
                }
                let index = (request_id - 1) as usize;
                if !self.awaiting_ack[index] {
                    return MonitorOutcome::UnknownRequest;
                }
                self.awaiting_ack.set(index, false);
                if self.subscriptions.contains_key(&subscription_id) {
                    assert(self@.requests =~= m.requests.remove(request_id));
                    assert(self@ == step(m, event).0);
                    return MonitorOutcome::SubscriptionTaken;
                }
                self.subscriptions.insert(subscription_id, index);
                assert(self@.requests =~= m.requests.remove(request_id));
                assert(self@.subscriptions =~= m.subscriptions.insert(subscription_id, m.requests[request_id]));
                assert(self@ == step(m, event).0);
                MonitorOutcome::Subscribed
            },
            MonitorEvent::Notified { subscription_id, slot, failed, timestamp_us } => {
                let index = match self.subscriptions.get(&subscription_id) {
                    Some(i) => *i,
                    None => {
                        return MonitorOutcome::UnknownSubscription;
                    },
                };
                assert(m.subscriptions.contains_key(subscription_id));
                assert(m.subscriptions[subscription_id] == index);
                if self.resolved[index] {
                    return MonitorOutcome::Duplicate;
                }
                let ghost sig = m.signatures[index as int];
                let rec = ConfirmationResult {
                    signature: self.signatures[index].clone(),
                    timestamp_us,
                    slot,
                    failed,
                };
                self.records.push(rec);
                self.resolved.set(index, true);
                assert(self@.records =~= m.records.push((sig, timestamp_us, slot, failed)));
                assert(record_signatures(self@.records) =~= record_signatures(m.records).push(sig));
                assert(self@.signatures == m.signatures);
                assert forall|i: int| 0 <= i < self.signatures@.len() implies #[trigger] self.resolved@[i]
                    == self@.resolved(self@.signatures[i]) by {
                    let old_sigs = record_signatures(m.records);
                    let new_sigs = record_signatures(self@.records);
                    if i != index {
                        assert(m.signatures[i] != sig);
                        if new_sigs.contains(m.signatures[i]) {
                            let k = choose|k: int| 0 <= k < new_sigs.len() && new_sigs[k] == m.signatures[i];
                            assert(k < old_sigs.len());
                            assert(old_sigs[k] == m.signatures[i]);
                        }
                        if old_sigs.contains(m.signatures[i]) {
                            let k = choose|k: int| 0 <= k < old_sigs.len() && old_sigs[k] == m.signatures[i];
                            assert(new_sigs[k] == m.signatures[i]);
                        }
                    } else {
                        assert(new_sigs[m.records.len() as int] == sig);
                    }
                }
                MonitorOutcome::Recorded
            },
            MonitorEvent::Malformed => MonitorOutcome::Skipped,
            MonitorEvent::Ended => {
                self.ended = true;
                MonitorOutcome::Ended
            },
        }
    }

    /// Whether monitoring is over: the connection ended or every signature
    /// is resolved.
    pub fn is_finished(&self) -> (r: bool)
        requires
            self.wf(),
        ensures
            r == (self@.ended || self@.all_resolved()),
    {
        if self.ended {
            return true;
        }
        let mut i: usize = 0;
        while i < self.resolved.len()
            invariant
                self.wf(),
                !self.ended,
                i <= self.resolved@.len(),
                forall|q: int| 0 <= q < i ==> self@.resolved(#[trigger] self@.signatures[q]),
            decreases self.resolved@.len() - i,
        {
            if !self.resolved[i] {
                assert(!self@.resolved(self@.signatures[i as int]));
                return false;
            }
            i = i + 1;
        }
        true
    }

    /// The subscribe requests to send: request `i + 1` for the `i`-th
    /// signature.
    pub fn subscribe_requests(&self) -> (r: Vec<(u64, String)>)
        requires
            self.wf(),
        ensures
            r@.len() == self@.signatures.len(),
            forall|i: int| 0 <= i < r@.len() ==> (#[trigger] r@[i]).0 == i + 1 && r@[i].1@ == self@.signatures[i],
    {
        let mut r: Vec<(u64, String)> = Vec::new();
        let mut i: usize = 0;
        while i < self.signatures.len()
            invariant
                self.wf(),
                i <= self.signatures@.len(),
                r@.len() == i,
                forall|q: int| 0 <= q < i ==> (#[trigger] r@[q]).0 == q + 1 && r@[q].1@ == self@.signatures[q],
            decreases self.signatures@.len() - i,
        {
            r.push(((i as u64) + 1, self.signatures[i].clone()));
            i = i + 1;
        }
        r
    }

    /// The signatures not resolved, in subscription order.
    pub fn unresolved(&self) -> (r: Vec<String>)
        requires
            self.wf(),
        ensures
            r@.map_values(|s: String| s@) == unresolved_prefix(self@, self@.signatures.len() as int),
    {
        let mut r: Vec<String> = Vec::new();
        let mut i: usize = 0;
        while i < self.signatures.len()
            invariant
                self.wf(),
                i <= self.signatures@.len(),
                r@.map_values(|s: String| s@) == unresolved_prefix(self@, i as int),
            decreases self.signatures@.len() - i,
        {
            if !self.resolved[i] {
                let ghost before = r@;
                r.push(self.signatures[i].clone());
                assert(r@.map_values(|s: String| s@) =~= before.map_values(|s: String| s@).push(self@.signatures[i as int]));
            }
            i = i + 1;
        }
        r
    }

    /// The confirmation recorded last, if any.
    pub fn last_result(&self) -> (r: Option<&ConfirmationResult>)
        requires
            self.wf(),
        ensures
            r is None <==> self@.records.len() == 0,
            r matches Some(c) ==> record_model(*c) == self@.records.last(),
    {
        if self.records.len() == 0 {
            None
        } else {
            Some(&self.records[self.records.len() - 1])
        }
    }

    /// The confirmations recorded, in the order they arrived.
    pub fn into_results(self) -> (r: Vec<ConfirmationResult>)
        ensures
            r@.map_values(|c: ConfirmationResult| record_model(c)) == self@.records,
    {
        self.records
    }
}

} // verus!
