use intercept::codec::{decode, encode};
use intercept::event::{Event, EventEnvelope, ProcessId, Timestamp};
use intercept::sender::{save, EventSink, Protocol, PREFIX, RANDOM_LENGTH, SUFFIX};
use std::cell::RefCell;

#[test]
fn record_files_are_named_alike() {
    assert_eq!(PREFIX, "report-");
    assert_eq!(SUFFIX, ".json");
    assert_eq!(RANDOM_LENGTH, 12);
}

#[test]
fn publisher_is_bound_to_its_directory() {
    let publisher = Protocol::new("/tmp/bear-abcdef").unwrap();
    assert_eq!(publisher.path(), "/tmp/bear-abcdef");
    assert!(Protocol::new("").is_ok());
    assert!(Protocol::new("/no/such/directory/yet").is_ok());
}

#[test]
fn save_gives_the_record_for_the_directory() {
    let e = EventEnvelope::create(3, Timestamp::new(4, 5).unwrap(), Event::Started);
    let report = save("/tmp/bear-x", &e);
    assert_eq!(report.directory, "/tmp/bear-x");
    assert_eq!(report.content, encode(&e));
    assert_eq!(
        report.content,
        b"{\"process_id\":3,\"timestamp\":{\"secs\":4,\"nanos\":5},\"event\":{\"Started\":{}}}".to_vec()
    );
}

#[test]
fn send_gives_the_record_for_the_publishers_directory() {
    let publisher = Protocol::new("/tmp/bear-y").unwrap();
    let e = EventEnvelope::create(8, Timestamp::new(-4, 0).unwrap(), Event::Terminated { status: 1 });
    let report = publisher.send(e);
    assert_eq!(report.directory, "/tmp/bear-y");
    assert_eq!(decode(&report.content), Some(e));
}

#[test]
fn send_gives_one_record_for_every_call() {
    let publisher = Protocol::new("/tmp/bear-y").unwrap();
    let e = EventEnvelope::create(8, Timestamp::new(4, 0).unwrap(), Event::Continued);
    let first = publisher.send(e);
    let second = publisher.send(e);
    assert_eq!(first.content, second.content);
    assert_eq!(first.directory, second.directory);
}

#[test]
fn report_stamps_the_event_and_gives_its_record() {
    let publisher = Protocol::new("/tmp/bear-z").unwrap();
    let before = chrono::Utc::now();
    let report = publisher.report(99, Event::Terminated { status: -2 });
    let after = chrono::Utc::now();
    assert_eq!(report.directory, "/tmp/bear-z");
    let e = decode(&report.content).unwrap();
    assert_eq!(e.process_id(), 99);
    assert_eq!(e.event(), Event::Terminated { status: -2 });
    let reading = (e.timestamp().secs(), e.timestamp().nanos());
    assert!((before.timestamp(), before.timestamp_subsec_nanos()) <= reading);
    assert!(reading <= (after.timestamp(), after.timestamp_subsec_nanos()));
}

struct Recorder {
    seen: RefCell<Vec<(ProcessId, Event)>>,
}

impl EventSink for Recorder {
    fn report(&self, id: ProcessId, event: Event) {
        self.seen.borrow_mut().push((id, event));
    }
}

#[test]
fn sink_can_be_implemented_by_its_users() {
    let recorder = Recorder { seen: RefCell::new(Vec::new()) };
    let sink: &dyn EventSink = &recorder;
    sink.report(1, Event::Started);
    sink.report(1, Event::Terminated { status: 0 });
    assert_eq!(
        recorder.seen.into_inner(),
        vec![(1, Event::Started), (1, Event::Terminated { status: 0 })]
    );
}
