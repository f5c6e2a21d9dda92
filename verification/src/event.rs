//! The data that travels: process identifiers, instants, events and envelopes.

use vstd::prelude::*;

verus! {

/// Identifies an operating-system process. The system may hand the same number
/// to a later process, so it identifies one only together with an instant.
pub type ProcessId = u32;

/// Number of nanoseconds in one second.
pub const NANOS_PER_SECOND: u32 = 1_000_000_000;

/// An instant of wall-clock time: whole seconds since the Unix epoch, and the
/// nanoseconds that have passed within that second.
#[derive(Clone, Copy, Debug, PartialEq, Eq, Structural)]
pub struct Timestamp {
    secs: i64,
    nanos: u32,
}

impl View for Timestamp {
    type V = (i64, u32);

    /// The seconds since the epoch, then the nanoseconds within the second.
    closed spec fn view(&self) -> (i64, u32) {
        (self.secs, self.nanos)
    }
}

/// Reads the system clock with `chrono::Utc::now`, and takes from the result
/// the seconds since the Unix epoch (`DateTime::timestamp`) and the
/// nanoseconds since the last full second (`DateTime::timestamp_subsec_nanos`).
/// Nothing is claimed of either number. The call panics where the system clock
/// stands before the Unix epoch.
#[verifier::external_body]
fn read_clock() -> (r: (i64, u32)) {
    let now = chrono::Utc::now();
    (now.timestamp(), now.timestamp_subsec_nanos())
}

impl Timestamp {
    /// A timestamp is well formed when its nanoseconds stay within one second.
    #[verifier::type_invariant]
    pub open spec fn wf(self) -> bool {
        self@.1 < NANOS_PER_SECOND
    }

    /// The instant `nanos` nanoseconds after second `secs`, if `nanos` is less
    /// than one second.
    pub fn new(secs: i64, nanos: u32) -> (r: Option<Timestamp>)
        ensures
            nanos < NANOS_PER_SECOND ==> (r matches Some(t) && t@ == (secs, nanos) && t.wf()),
            nanos >= NANOS_PER_SECOND ==> r is None,
    {
        if nanos < NANOS_PER_SECOND {
            Some(Timestamp { secs, nanos })
        } else {
            None
        }
    }

    /// The instant that a clock reading of `secs` and `nanos` stands for. A
    /// reading within a leap second, whose nanoseconds run past the end of the
    /// second, stands for the last nanosecond of that second.
    pub fn from_reading(secs: i64, nanos: u32) -> (r: Timestamp)
        ensures
            r@ == (
                secs,
                if nanos < NANOS_PER_SECOND {
                    nanos
                } else {
                    (NANOS_PER_SECOND - 1) as u32
                },
            ),
            r.wf(),
    {
        if nanos < NANOS_PER_SECOND {
            Timestamp { secs, nanos }
        } else {
            Timestamp { secs, nanos: NANOS_PER_SECOND - 1 }
        }
    }

    /// The current instant.
    pub fn now() -> (r: Timestamp)
        ensures
            r.wf(),
    {
        let (secs, nanos) = read_clock();
        Timestamp::from_reading(secs, nanos)
    }

    /// Whole seconds since the Unix epoch.
    pub fn secs(&self) -> (r: i64)
        ensures
            r == self@.0,
    {
        self.secs
    }

    /// Nanoseconds within the second.
    pub fn nanos(&self) -> (r: u32)
        ensures
            r == self@.1,
            r < NANOS_PER_SECOND,
    {
        proof {
            use_type_invariant(self);
        }
        self.nanos
    }

    /// Two timestamps with the same view are the same timestamp.
    pub proof fn lemma_view_injective(a: Timestamp, b: Timestamp)
        requires
            a@ == b@,
        ensures
            a == b,
    {
    }
}

/// One transition in the life of a traced process.
#[derive(Clone, Copy, Debug, PartialEq, Eq, Structural)]
pub enum Event {
    /// The process came into being.
    Started,
    /// The process replaced its image with another program.
    Executed,
    /// The process was told to go on after a stop.
    Continued,
    /// The process ended with the given exit status.
    Terminated { status: i32 },
}

/// What an envelope holds, as plain values: the model that contracts speak of.
pub struct EnvelopeView {
    pub process_id: ProcessId,
    pub secs: i64,
    pub nanos: u32,
    pub event: Event,
}

impl EnvelopeView {
    /// The nanoseconds stay within one second.
    pub open spec fn wf(self) -> bool {
        self.nanos < NANOS_PER_SECOND
    }
}

/// An event together with the process that reported it and the instant at
/// which it was observed. Nothing in it changes after it was made.
#[derive(Clone, Copy, Debug, PartialEq, Eq, Structural)]
pub struct EventEnvelope {
    id: ProcessId,
    at: Timestamp,
    content: Event,
}

impl View for EventEnvelope {
    type V = EnvelopeView;

    closed spec fn view(&self) -> EnvelopeView {
        EnvelopeView {
            process_id: self.id,
            secs: self.at@.0,
            nanos: self.at@.1,
            event: self.content,
        }
    }
}

impl EventEnvelope {
    /// An envelope is well formed when its timestamp is.
    #[verifier::type_invariant]
    pub open spec fn wf(self) -> bool {
        self@.wf()
    }

    /// The envelope of `event`, reported by process `id` at the current time.
    pub fn new(id: ProcessId, event: Event) -> (r: EventEnvelope)
        ensures
            r@.process_id == id,
            r@.event == event,
            r.wf(),
    {
        EventEnvelope::create(id, Timestamp::now(), event)
    }

    /// The envelope of `event`, reported by process `id` at `timestamp`.
    pub fn create(id: ProcessId, timestamp: Timestamp, event: Event) -> (r: EventEnvelope)
        ensures
            r@ == (EnvelopeView {
                process_id: id,
                secs: timestamp@.0,
                nanos: timestamp@.1,
                event,
            }),
            r.wf(),
    {
        proof {
            use_type_invariant(&timestamp);
        }
        EventEnvelope { id, at: timestamp, content: event }
    }

    /// The process that reported the event.
    pub fn process_id(&self) -> (r: ProcessId)
        ensures
            r == self@.process_id,
    {
        self.id
    }

    /// The instant at which the event was observed.
    pub fn timestamp(&self) -> (r: Timestamp)
        ensures
            r@ == (self@.secs, self@.nanos),
    {
        self.at
    }

    /// The event itself.
    pub fn event(&self) -> (r: Event)
        ensures
            r == self@.event,
    {
        self.content
    }

    /// Two envelopes with the same view are the same envelope.
    pub proof fn lemma_view_injective(a: EventEnvelope, b: EventEnvelope)
        requires
            a@ == b@,
        ensures
            a == b,
    {
        Timestamp::lemma_view_injective(a.at, b.at);
    }
}

} // verus!
