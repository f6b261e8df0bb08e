use rpc_benchmark::monitor::{classify, ErrorField, IncomingMessage, MonitorEvent, MonitorOutcome, SignatureMonitor};

fn sigs(names: &[&str]) -> Vec<String> {
    names.iter().map(|s| s.to_string()).collect()
}

fn ack(request_id: u64, subscription_id: u64) -> MonitorEvent {
    MonitorEvent::Acknowledged { request_id, subscription_id }
}

fn notify(subscription_id: u64, timestamp_us: u64) -> MonitorEvent {
    MonitorEvent::Notified { subscription_id, slot: 11, failed: false, timestamp_us }
}

fn message() -> IncomingMessage {
    IncomingMessage {
        has_id: false,
        has_result: false,
        has_method: false,
        method: None,
        has_version: true,
        id: None,
        result: None,
        subscription: None,
        slot: None,
        err: None,
    }
}

#[test]
fn unacknowledged_signature_stays_unresolved() {
    let mut m = SignatureMonitor::new(sigs(&["A", "B", "C"]));
    assert_eq!(m.handle(ack(2, 20)), MonitorOutcome::Subscribed);
    assert_eq!(m.handle(ack(3, 30)), MonitorOutcome::Subscribed);
    assert_eq!(m.handle(notify(30, 100)), MonitorOutcome::Recorded);
    assert_eq!(m.handle(notify(20, 120)), MonitorOutcome::Recorded);
    assert!(!m.is_finished());
    assert_eq!(m.handle(MonitorEvent::Ended), MonitorOutcome::Ended);
    assert!(m.is_finished());
    assert_eq!(m.unresolved(), sigs(&["A"]));
    let results = m.into_results();
    let got: Vec<&str> = results.iter().map(|r| r.signature.as_str()).collect();
    assert_eq!(got, vec!["C", "B"]);
    assert_eq!(results[0].timestamp_us, 100);
}

#[test]
fn duplicate_notification_is_recorded_once() {
    let mut m = SignatureMonitor::new(sigs(&["A"]));
    m.handle(ack(1, 5));
    assert_eq!(m.handle(notify(5, 10)), MonitorOutcome::Recorded);
    assert_eq!(m.handle(notify(5, 20)), MonitorOutcome::Duplicate);
    assert!(m.is_finished());
    let results = m.into_results();
    assert_eq!(results.len(), 1);
    assert_eq!(results[0].timestamp_us, 10);
}

#[test]
fn acknowledgements_out_of_order_bind_correctly() {
    let mut m = SignatureMonitor::new(sigs(&["A", "B", "C"]));
    assert_eq!(m.handle(ack(3, 100)), MonitorOutcome::Subscribed);
    assert_eq!(m.handle(ack(1, 200)), MonitorOutcome::Subscribed);
    assert_eq!(m.handle(ack(2, 300)), MonitorOutcome::Subscribed);
    m.handle(notify(200, 1));
    m.handle(notify(100, 2));
    m.handle(notify(300, 3));
    let results = m.into_results();
    let got: Vec<&str> = results.iter().map(|r| r.signature.as_str()).collect();
    assert_eq!(got, vec!["A", "C", "B"]);
}

#[test]
fn unknown_ids_are_ignored() {
    let mut m = SignatureMonitor::new(sigs(&["A", "B"]));
    assert_eq!(m.handle(ack(0, 1)), MonitorOutcome::UnknownRequest);
    assert_eq!(m.handle(ack(9, 1)), MonitorOutcome::UnknownRequest);
    assert_eq!(m.handle(notify(1, 1)), MonitorOutcome::UnknownSubscription);
    assert_eq!(m.handle(ack(1, 1)), MonitorOutcome::Subscribed);
    assert_eq!(m.handle(ack(1, 2)), MonitorOutcome::UnknownRequest);
    assert_eq!(m.handle(ack(2, 1)), MonitorOutcome::SubscriptionTaken);
    assert_eq!(m.handle(MonitorEvent::Malformed), MonitorOutcome::Skipped);
    assert_eq!(m.handle(notify(1, 4)), MonitorOutcome::Recorded);
    assert_eq!(m.unresolved(), sigs(&["B"]));
}

#[test]
fn failed_transaction_is_still_recorded() {
    let mut m = SignatureMonitor::new(sigs(&["A"]));
    m.handle(ack(1, 8));
    let e = MonitorEvent::Notified { subscription_id: 8, slot: 99, failed: true, timestamp_us: 5 };
    assert_eq!(m.handle(e), MonitorOutcome::Recorded);
    let results = m.into_results();
    assert!(results[0].failed);
    assert_eq!(results[0].slot, 99);
}

#[test]
fn empty_signature_set_is_finished_at_once() {
    let m = SignatureMonitor::new(Vec::new());
    assert!(m.is_finished());
    assert!(m.subscribe_requests().is_empty());
}

#[test]
fn repeated_signatures_are_watched_once() {
    let m = SignatureMonitor::new(sigs(&["A", "B", "A"]));
    let reqs = m.subscribe_requests();
    assert_eq!(reqs, vec![(1, "A".to_string()), (2, "B".to_string())]);
}

#[test]
fn classify_acknowledgement() {
    let mut msg = message();
    msg.has_id = true;
    msg.has_result = true;
    msg.id = Some(4);
    msg.result = Some(77);
    assert_eq!(classify(&msg, 1), ack(4, 77));
    msg.result = None;
    assert_eq!(classify(&msg, 1), MonitorEvent::Malformed);
    msg.result = Some(77);
    msg.has_method = true;
    msg.method = Some("other".to_string());
    assert_eq!(classify(&msg, 1), MonitorEvent::Malformed);
}

#[test]
fn classify_notification() {
    let mut msg = message();
    msg.has_method = true;
    msg.method = Some("signatureNotification".to_string());
    msg.subscription = Some(12);
    msg.slot = Some(300);
    msg.err = Some(ErrorField::Null);
    assert_eq!(
        classify(&msg, 55),
        MonitorEvent::Notified { subscription_id: 12, slot: 300, failed: false, timestamp_us: 55 }
    );
    msg.err = Some(ErrorField::Absent);
    assert_eq!(
        classify(&msg, 55),
        MonitorEvent::Notified { subscription_id: 12, slot: 300, failed: false, timestamp_us: 55 }
    );
    msg.err = Some(ErrorField::Present);
    assert_eq!(
        classify(&msg, 56),
        MonitorEvent::Notified { subscription_id: 12, slot: 300, failed: true, timestamp_us: 56 }
    );
    msg.slot = None;
    assert_eq!(classify(&msg, 56), MonitorEvent::Malformed);
    msg.slot = Some(300);
    msg.has_version = false;
    assert_eq!(classify(&msg, 56), MonitorEvent::Malformed);
}

#[test]
fn last_result_is_the_latest_confirmation() {
    let mut m = SignatureMonitor::new(sigs(&["A", "B"]));
    assert!(m.last_result().is_none());
    m.handle(ack(1, 1));
    m.handle(ack(2, 2));
    m.handle(notify(2, 40));
    assert_eq!(m.last_result().map(|r| r.signature.clone()), Some("B".to_string()));
    m.handle(notify(1, 50));
    assert_eq!(m.last_result().map(|r| r.timestamp_us), Some(50));
}
