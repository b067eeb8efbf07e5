use stream_hub::frame::{FrameKind, MediaFrame};
use stream_hub::hub::{EventOutcome, StreamHub, StreamHubEvent, StreamKey};

fn key(app: &str, name: &str) -> StreamKey {
    StreamKey::new(app.to_string(), name.to_string())
}

fn frame(ts: u32, payload: Vec<u8>) -> MediaFrame {
    MediaFrame { kind: FrameKind::Video, timestamp: ts, payload }
}

#[test]
fn key_equality_is_case_sensitive() {
    assert!(key("live", "a").key_eq(&key("live", "a")));
    assert!(!key("live", "a").key_eq(&key("Live", "a")));
    assert!(!key("live", "a").key_eq(&key("live", "b")));
    assert!(!key("live", "a").key_eq(&key("liv", "ea")));
}

#[test]
fn publish_registers_producer() {
    let mut hub = StreamHub::new();
    assert_eq!(hub.stream_count(), 0);
    let replaced = hub.publish(key("live", "a"), 7);
    assert_eq!(replaced, None);
    assert_eq!(hub.stream_count(), 1);
    assert_eq!(hub.current_producer(&key("live", "a")), Some(7));
    assert_eq!(hub.current_producer(&key("live", "b")), None);
}

#[test]
fn second_publish_replaces_producer() {
    let mut hub = StreamHub::new();
    assert_eq!(hub.publish(key("live", "a"), 7), None);
    let replaced = hub.publish(key("live", "a"), 8);
    assert_eq!(replaced, Some(7));
    assert_eq!(hub.current_producer(&key("live", "a")), Some(8));
    assert_eq!(hub.stream_count(), 1);
}

#[test]
fn stale_unpublish_is_a_no_op() {
    let mut hub = StreamHub::new();
    hub.publish(key("live", "a"), 7);
    hub.publish(key("live", "a"), 8);
    // the old producer's delayed disconnect must not clear the new slot
    assert!(!hub.unpublish(&key("live", "a"), 7));
    assert_eq!(hub.current_producer(&key("live", "a")), Some(8));
    assert!(hub.unpublish(&key("live", "a"), 8));
    assert_eq!(hub.current_producer(&key("live", "a")), None);
    assert_eq!(hub.stream_count(), 0);
}

#[test]
fn unsubscribe_of_unknown_id_is_a_no_op() {
    let mut hub = StreamHub::new();
    let s1 = hub.subscribe(key("live", "a"), 4);
    assert!(!hub.unsubscribe(&key("live", "a"), s1 + 1));
    assert!(!hub.unsubscribe(&key("live", "b"), s1));
    assert!(hub.is_subscriber(&key("live", "a"), s1));
    assert!(hub.unsubscribe(&key("live", "a"), s1));
    assert!(!hub.is_subscriber(&key("live", "a"), s1));
}

#[test]
fn slow_subscriber_does_not_block_others() {
    let mut hub = StreamHub::new();
    let slow = hub.subscribe(key("live", "a"), 1);
    let fast = hub.subscribe(key("live", "a"), 4);
    hub.publish(key("live", "a"), 7);
    hub.deliver_frame(&key("live", "a"), &frame(1, vec![1]));
    hub.deliver_frame(&key("live", "a"), &frame(2, vec![2]));
    // the slow subscriber's queue held one frame; the second was dropped
    // for it alone
    assert_eq!(hub.dropped_count(&key("live", "a"), slow), Some(1));
    assert_eq!(hub.dropped_count(&key("live", "a"), fast), Some(0));
    let got = hub.pop_frame(&key("live", "a"), slow).unwrap();
    assert_eq!(got.timestamp, 1);
    assert!(hub.pop_frame(&key("live", "a"), slow).is_none());
    // the fast subscriber received both, in order
    assert_eq!(hub.pop_frame(&key("live", "a"), fast).unwrap().timestamp, 1);
    assert_eq!(hub.pop_frame(&key("live", "a"), fast).unwrap().timestamp, 2);
}

#[test]
fn zero_capacity_queue_drops_everything() {
    let mut hub = StreamHub::new();
    let s = hub.subscribe(key("live", "a"), 0);
    hub.publish(key("live", "a"), 7);
    hub.deliver_frame(&key("live", "a"), &frame(1, vec![1]));
    assert_eq!(hub.dropped_count(&key("live", "a"), s), Some(1));
    assert!(hub.pop_frame(&key("live", "a"), s).is_none());
}

#[test]
fn frames_arrive_in_emission_order() {
    let mut hub = StreamHub::new();
    let s = hub.subscribe(key("live", "a"), 8);
    hub.publish(key("live", "a"), 7);
    hub.deliver_frame(&key("live", "a"), &frame(10, vec![1, 2]));
    hub.deliver_frame(&key("live", "a"), &frame(20, vec![3]));
    hub.deliver_frame(&key("live", "a"), &frame(30, vec![]));
    let f1 = hub.pop_frame(&key("live", "a"), s).unwrap();
    let f2 = hub.pop_frame(&key("live", "a"), s).unwrap();
    let f3 = hub.pop_frame(&key("live", "a"), s).unwrap();
    assert_eq!((f1.timestamp, f1.payload), (10, vec![1, 2]));
    assert_eq!((f2.timestamp, f2.payload), (20, vec![3]));
    assert_eq!((f3.timestamp, f3.payload), (30, vec![]));
    assert!(hub.pop_frame(&key("live", "a"), s).is_none());
}

#[test]
fn no_delivery_after_unsubscribe() {
    let mut hub = StreamHub::new();
    let s = hub.subscribe(key("live", "a"), 8);
    hub.publish(key("live", "a"), 7);
    assert!(hub.unsubscribe(&key("live", "a"), s));
    hub.deliver_frame(&key("live", "a"), &frame(1, vec![1]));
    assert!(!hub.is_subscriber(&key("live", "a"), s));
    assert!(hub.pop_frame(&key("live", "a"), s).is_none());
}

#[test]
fn no_backlog_for_late_subscribers() {
    let mut hub = StreamHub::new();
    hub.publish(key("live", "a"), 7);
    // no subscriber yet: the frame is discarded, not buffered
    hub.deliver_frame(&key("live", "a"), &frame(1, vec![1]));
    let s = hub.subscribe(key("live", "a"), 8);
    assert!(hub.pop_frame(&key("live", "a"), s).is_none());
}

#[test]
fn subscription_survives_producer_churn() {
    let mut hub = StreamHub::new();
    // subscribe before any producer exists
    let s = hub.subscribe(key("live", "a"), 8);
    assert_eq!(hub.stream_count(), 1);
    assert_eq!(hub.current_producer(&key("live", "a")), None);
    hub.publish(key("live", "a"), 7);
    hub.deliver_frame(&key("live", "a"), &frame(5, vec![9]));
    let got = hub.pop_frame(&key("live", "a"), s).unwrap();
    assert_eq!(got.timestamp, 5);
    assert_eq!(got.payload, vec![9]);
}

#[test]
fn unpublish_keeps_waiting_subscribers() {
    let mut hub = StreamHub::new();
    let s = hub.subscribe(key("live", "a"), 8);
    hub.publish(key("live", "a"), 7);
    assert!(hub.unpublish(&key("live", "a"), 7));
    // the entry persists with an empty producer slot
    assert_eq!(hub.stream_count(), 1);
    assert!(hub.is_subscriber(&key("live", "a"), s));
    assert_eq!(hub.current_producer(&key("live", "a")), None);
}

#[test]
fn entry_removed_when_last_attachment_goes() {
    let mut hub = StreamHub::new();
    let s = hub.subscribe(key("live", "a"), 8);
    hub.publish(key("live", "a"), 7);
    assert_eq!(hub.stream_count(), 1);
    assert!(hub.unsubscribe(&key("live", "a"), s));
    // producer still there: entry stays
    assert_eq!(hub.stream_count(), 1);
    assert!(hub.unpublish(&key("live", "a"), 7));
    assert_eq!(hub.stream_count(), 0);
}

#[test]
fn independent_streams_do_not_interfere() {
    let mut hub = StreamHub::new();
    let sa = hub.subscribe(key("live", "a"), 4);
    let sb = hub.subscribe(key("live", "b"), 4);
    hub.publish(key("live", "a"), 1);
    hub.publish(key("live", "b"), 2);
    assert_eq!(hub.stream_count(), 2);
    hub.deliver_frame(&key("live", "a"), &frame(1, vec![1]));
    assert_eq!(hub.pop_frame(&key("live", "a"), sa).unwrap().timestamp, 1);
    assert!(hub.pop_frame(&key("live", "b"), sb).is_none());
}

#[test]
fn subscriber_ids_are_fresh() {
    let mut hub = StreamHub::new();
    let s1 = hub.subscribe(key("live", "a"), 4);
    let s2 = hub.subscribe(key("live", "a"), 4);
    let s3 = hub.subscribe(key("live", "b"), 4);
    assert_ne!(s1, s2);
    assert_ne!(s1, s3);
    assert_ne!(s2, s3);
    assert_eq!(hub.subscriber_count(&key("live", "a")), 2);
    assert_eq!(hub.subscriber_count(&key("live", "b")), 1);
}

#[test]
fn events_drive_the_same_transitions() {
    let mut hub = StreamHub::new();
    let out = hub.handle_event(StreamHubEvent::Subscribe { key: key("live", "a"), capacity: 4 });
    let s1 = match out {
        EventOutcome::Subscribed { id } => id,
        _ => panic!("expected a subscription outcome"),
    };
    let out = hub.handle_event(StreamHubEvent::Publish { key: key("live", "a"), producer: 7 });
    assert_eq!(out, EventOutcome::Published { replaced: None });
    let out = hub.handle_event(StreamHubEvent::Publish { key: key("live", "a"), producer: 8 });
    assert_eq!(out, EventOutcome::Published { replaced: Some(7) });
    let out = hub.handle_event(StreamHubEvent::Unpublish { key: key("live", "a"), producer: 7 });
    assert_eq!(out, EventOutcome::Unpublished { removed: false });
    let out = hub.handle_event(StreamHubEvent::Unpublish { key: key("live", "a"), producer: 8 });
    assert_eq!(out, EventOutcome::Unpublished { removed: true });
    let out = hub.handle_event(StreamHubEvent::Unsubscribe { key: key("live", "a"), id: s1 });
    assert_eq!(out, EventOutcome::Unsubscribed { removed: true });
    assert_eq!(hub.stream_count(), 0);
}

#[test]
fn end_to_end_scenario() {
    let mut hub = StreamHub::new();
    // Subscribe("live/a") -> S1
    let s1 = hub.subscribe(key("live", "a"), 8);
    // Publish("live/a", producerA); emit F1, F2, F3
    hub.publish(key("live", "a"), 100);
    hub.deliver_frame(&key("live", "a"), &frame(1, vec![1]));
    hub.deliver_frame(&key("live", "a"), &frame(2, vec![2]));
    hub.deliver_frame(&key("live", "a"), &frame(3, vec![3]));
    // S1 receives F1, F2, F3 in order
    assert_eq!(hub.pop_frame(&key("live", "a"), s1).unwrap().timestamp, 1);
    assert_eq!(hub.pop_frame(&key("live", "a"), s1).unwrap().timestamp, 2);
    assert_eq!(hub.pop_frame(&key("live", "a"), s1).unwrap().timestamp, 3);
    // Unpublish(producerA); Subscribe -> S2; Publish(producerB); emit F4
    assert!(hub.unpublish(&key("live", "a"), 100));
    let s2 = hub.subscribe(key("live", "a"), 8);
    hub.publish(key("live", "a"), 200);
    hub.deliver_frame(&key("live", "a"), &frame(4, vec![4]));
    // S1 never unsubscribed, so it receives F4 too, as does S2
    assert_eq!(hub.pop_frame(&key("live", "a"), s1).unwrap().timestamp, 4);
    assert_eq!(hub.pop_frame(&key("live", "a"), s2).unwrap().timestamp, 4);
    assert!(hub.pop_frame(&key("live", "a"), s1).is_none());
    assert!(hub.pop_frame(&key("live", "a"), s2).is_none());
    // Unsubscribe both; then the producer goes: entry no longer exists
    assert!(hub.unsubscribe(&key("live", "a"), s1));
    assert!(hub.unsubscribe(&key("live", "a"), s2));
    assert!(hub.unpublish(&key("live", "a"), 200));
    assert_eq!(hub.stream_count(), 0);
}

#[test]
fn metadata_and_audio_frames_pass_through() {
    let mut hub = StreamHub::new();
    let s = hub.subscribe(key("app", "music"), 4);
    hub.publish(key("app", "music"), 1);
    hub.deliver_frame(
        &key("app", "music"),
        &MediaFrame { kind: FrameKind::Metadata, timestamp: 0, payload: vec![0xff] },
    );
    hub.deliver_frame(
        &key("app", "music"),
        &MediaFrame { kind: FrameKind::Audio, timestamp: 1, payload: vec![0xaa, 0xbb] },
    );
    let f1 = hub.pop_frame(&key("app", "music"), s).unwrap();
    assert!(matches!(f1.kind, FrameKind::Metadata));
    assert_eq!(f1.payload, vec![0xff]);
    let f2 = hub.pop_frame(&key("app", "music"), s).unwrap();
    assert!(matches!(f2.kind, FrameKind::Audio));
    assert_eq!(f2.payload, vec![0xaa, 0xbb]);
}
