//! The write side: what a publisher deposits, and where.
//!
//! A publisher is bound to a directory. For every envelope it works out the
//! [`Report`] to deposit there; the caller creates the file and writes it. The
//! file gets a name of its own: [`PREFIX`], then [`RANDOM_LENGTH`] characters
//! drawn at random, then [`SUFFIX`]. It is written under that name and never
//! renamed.

use crate::codec::{decode_spec, encode, encode_spec};
use crate::error::Error;
use crate::event::{Event, EventEnvelope, ProcessId};
use vstd::prelude::*;

verus! {

/// How the name of every record file begins.
pub const PREFIX: &'static str = "report-";

/// How the name of every record file ends.
pub const SUFFIX: &'static str = ".json";

/// How many random characters stand between [`PREFIX`] and [`SUFFIX`].
pub const RANDOM_LENGTH: usize = 12;

/// Takes the events of traced processes, one call for each transition that
/// was observed.
pub trait EventSink {
    /// Reports that process `id` went through `event`.
    fn report(&self, id: ProcessId, event: Event);
}

/// One record that is to be deposited: the directory it goes to and the bytes
/// of the file.
#[derive(Debug)]
pub struct Report {
    pub directory: String,
    pub content: Vec<u8>,
}

/// Works out the record of `event` for the directory `target`.
pub fn save(target: &str, event: &EventEnvelope) -> (r: Report)
    ensures
        r.directory@ == target@,
        r.content@ == encode_spec(event@),
        decode_spec(r.content@) == Some(event@),
{
    Report { directory: target.to_owned(), content: encode(event) }
}

/// A publisher, bound to the directory that its records go to.
pub struct Protocol {
    path: String,
}

impl View for Protocol {
    type V = Seq<char>;

    /// The directory that the publisher is bound to.
    closed spec fn view(&self) -> Seq<char> {
        self.path@
    }
}

impl Protocol {
    /// Binds a publisher to the directory `path`. The directory need not exist
    /// yet. Binding always succeeds.
    pub fn new(path: &str) -> (r: Result<Protocol, Error>)
        ensures
            r matches Ok(protocol) && protocol@ == path@,
    {
        Ok(Protocol { path: path.to_owned() })
    }

    /// The directory that the publisher is bound to.
    pub fn path(&self) -> (r: &str)
        ensures
            r@ == self@,
    {
        self.path.as_str()
    }

    /// Works out the record of `event` for the publisher's directory.
    pub fn send(&self, event: EventEnvelope) -> (r: Report)
        ensures
            r.directory@ == self@,
            r.content@ == encode_spec(event@),
            decode_spec(r.content@) == Some(event@),
    {
        save(self.path.as_str(), &event)
    }

    /// Stamps `event` of process `id` with the current time and works out its
    /// record for the publisher's directory.
    pub fn report(&self, id: ProcessId, event: Event) -> (r: Report)
        ensures
            r.directory@ == self@,
            decode_spec(r.content@) matches Some(v) && v.process_id == id && v.event == event,
    {
        self.send(EventEnvelope::new(id, event))
    }
}

} // verus!
