use intercept::codec::encode;
use intercept::collector::{load, Candidate, EventIterator, DIRECTORY_PREFIX};
use intercept::error::Error;
use intercept::event::{Event, EventEnvelope, Timestamp};
use intercept::sender;

fn sample(id: u32) -> EventEnvelope {
    EventEnvelope::create(id, Timestamp::new(1545730073, id).unwrap(), Event::Continued)
}

fn record(id: u32) -> Candidate {
    Candidate::Content(encode(&sample(id)))
}

#[test]
fn temp_directory_finds_event_files() {
    let time = chrono::Utc::now();
    let stamp = Timestamp::new(time.timestamp(), time.timestamp_subsec_nanos()).unwrap();
    let input = EventEnvelope::create(0, stamp, Event::Continued {});
    let expected = EventEnvelope::create(0, stamp, Event::Continued {});

    let sut = sender::Protocol::new("/tmp/bear-session").unwrap();

    let report = sut.send(input);

    let mut it = EventIterator::new(vec![Candidate::Content(report.content)]);

    assert_eq!(it.next(), Some(expected));
    assert_eq!(it.next(), None);
}

#[test]
fn empty_directory_yields_nothing() {
    let mut it = EventIterator::new(Vec::new());
    assert_eq!(it.next(), None);
    assert_eq!(it.next(), None);
    assert_eq!(EventIterator::new(Vec::new()).drain(), Vec::new());
}

#[test]
fn pass_stays_at_its_end() {
    let mut it = EventIterator::new(vec![record(1)]);
    assert_eq!(it.next(), Some(sample(1)));
    assert_eq!(it.next(), None);
    assert_eq!(it.next(), None);
    assert_eq!(it.drain(), Vec::new());
}

#[test]
fn every_pass_over_the_same_listing_yields_the_same() {
    let content = encode(&sample(5));
    let mut first = EventIterator::new(vec![Candidate::Content(content.clone())]);
    assert_eq!(first.next(), Some(sample(5)));
    assert_eq!(first.next(), None);
    let mut second = EventIterator::new(vec![Candidate::Content(content)]);
    assert_eq!(second.next(), Some(sample(5)));
    assert_eq!(second.next(), None);
}

#[test]
fn pass_yields_the_record_of_every_publisher() {
    let publishers: Vec<sender::Protocol> =
        (0..16).map(|_| sender::Protocol::new("/tmp/bear-session").unwrap()).collect();
    let listing: Vec<Candidate> = publishers
        .iter()
        .enumerate()
        .map(|(i, publisher)| Candidate::Content(publisher.send(sample(i as u32)).content))
        .collect();
    let found = EventIterator::new(listing).drain();
    assert_eq!(found.len(), 16);
    for i in 0..16u32 {
        assert_eq!(found[i as usize], sample(i));
    }
}

#[test]
fn pass_follows_the_order_of_the_listing() {
    let mut it = EventIterator::new(vec![record(3), record(1), record(2)]);
    assert_eq!(it.next(), Some(sample(3)));
    assert_eq!(it.next(), Some(sample(1)));
    assert_eq!(it.next(), Some(sample(2)));
    assert_eq!(it.next(), None);
}

#[test]
fn pass_yields_a_record_as_often_as_it_is_listed() {
    let found = EventIterator::new(vec![record(1), record(1)]).drain();
    assert_eq!(found, vec![sample(1), sample(1)]);
}

#[test]
fn malformed_entry_does_not_stop_the_pass() {
    let listing = vec![
        record(1),
        Candidate::Content(b"Hello world!".to_vec()),
        record(2),
    ];
    let mut it = EventIterator::new(listing);
    assert_eq!(it.next(), Some(sample(1)));
    assert_eq!(it.next(), Some(sample(2)));
    assert_eq!(it.next(), None);
}

#[test]
fn record_that_is_still_being_written_is_passed_over() {
    let whole = encode(&sample(9));
    let partial = whole[..whole.len() / 2].to_vec();
    let listing = vec![Candidate::Content(partial), Candidate::Content(Vec::new()), record(4)];
    assert_eq!(EventIterator::new(listing).drain(), vec![sample(4)]);
}

#[test]
fn entries_that_could_not_be_read_are_passed_over() {
    let listing = vec![
        Candidate::Unlisted,
        record(1),
        Candidate::Unreadable,
        Candidate::Unlisted,
        record(2),
        Candidate::Unreadable,
    ];
    assert_eq!(EventIterator::new(listing).drain(), vec![sample(1), sample(2)]);
}

#[test]
fn listing_without_any_record_yields_nothing() {
    let listing = vec![
        Candidate::Unlisted,
        Candidate::Unreadable,
        Candidate::Content(b"{}".to_vec()),
    ];
    let mut it = EventIterator::new(listing);
    assert_eq!(it.next(), None);
    assert_eq!(it.next(), None);
}

#[test]
fn drain_yields_what_is_left() {
    let mut it = EventIterator::new(vec![record(1), record(2), Candidate::Unlisted, record(3)]);
    assert_eq!(it.next(), Some(sample(1)));
    assert_eq!(it.drain(), vec![sample(2), sample(3)]);
    assert_eq!(it.next(), None);
}

#[test]
fn load_gives_the_envelope_of_a_record() {
    assert_eq!(load(&record(7)), Ok(sample(7)));
}

#[test]
fn load_fails_with_io_where_nothing_was_read() {
    assert_eq!(load(&Candidate::Unlisted), Err(Error::Io));
    assert_eq!(load(&Candidate::Unreadable), Err(Error::Io));
}

#[test]
fn load_fails_with_parse_where_the_content_is_no_record() {
    assert_eq!(load(&Candidate::Content(Vec::new())), Err(Error::Parse));
    assert_eq!(load(&Candidate::Content(b"Hello world!".to_vec())), Err(Error::Parse));
    let mut padded = encode(&sample(7));
    padded.push(b' ');
    assert_eq!(load(&Candidate::Content(padded)), Err(Error::Parse));
}

#[test]
fn session_directory_has_a_readable_prefix() {
    assert_eq!(DIRECTORY_PREFIX, "bear-");
}
