//! The read side: one pass over what a directory listing gave.
//!
//! The caller lists the directory and reads what it can; each entry reaches
//! this module as a [`Candidate`]. A pass yields the envelopes of the entries
//! that hold a record, in listing order, and passes over all others: an entry
//! that cannot be read, or a record that a publisher is still writing, costs
//! the pass that one envelope and nothing else.
//!
//! [`envelopes`] says what a pass yields. [`EventIterator`] is the pass over a
//! listing that is held in memory. A caller that lists the directory step by
//! step hands each entry to [`load`] as it comes, yields what comes back as
//! `Ok` and goes on after an `Err`; it then yields what [`envelopes`] says of
//! the entries it was given.

use crate::codec::{decode, decode_spec, encode_spec, lemma_round_trip};
use crate::error::Error;
use crate::event::{EnvelopeView, EventEnvelope};
use vstd::prelude::*;

verus! {

/// What one step of a directory listing gave.
#[derive(Debug)]
pub enum Candidate {
    /// The listing failed on this entry.
    Unlisted,
    /// The entry was listed, and its content could not be read.
    Unreadable,
    /// The bytes that were read from the entry.
    Content(Vec<u8>),
}

impl Candidate {
    /// The envelope that the entry holds, if it holds the record of one.
    pub open spec fn envelope(self) -> Option<EnvelopeView> {
        match self {
            Candidate::Content(bytes) => decode_spec(bytes@),
            _ => None,
        }
    }

    /// Whether the entry holds the record of the well-formed envelope `v`.
    pub open spec fn holds(self, v: EnvelopeView) -> bool {
        &&& v.wf()
        &&& self matches Candidate::Content(bytes)
        &&& bytes@ == encode_spec(v)
    }
}

/// The envelopes that a pass over `listing` yields: those of the entries that
/// hold one, in listing order.
pub open spec fn envelopes(listing: Seq<Candidate>) -> Seq<EnvelopeView>
    decreases listing.len(),
{
    if listing.len() == 0 {
        Seq::empty()
    } else {
        match listing[0].envelope() {
            Some(v) => seq![v] + envelopes(listing.skip(1)),
            None => envelopes(listing.skip(1)),
        }
    }
}

/// Takes the envelope from a directory entry. Fails with [`Error::Io`] where
/// nothing was read, and with [`Error::Parse`] where what was read is the
/// record of no envelope.
pub fn load(candidate: &Candidate) -> (r: Result<EventEnvelope, Error>)
    ensures
        match candidate.envelope() {
            Some(v) => r matches Ok(envelope) && envelope@ == v,
            None => r == Err::<EventEnvelope, Error>(
                if *candidate is Content {
                    Error::Parse
                } else {
                    Error::Io
                },
            ),
        },
{
    match candidate {
        Candidate::Content(bytes) => match decode(bytes.as_slice()) {
            Some(envelope) => Ok(envelope),
            None => Err(Error::Parse),
        },
        _ => Err(Error::Io),
    }
}

/// One pass over a directory listing. It goes forward only, and ends when the
/// listing does.
pub struct EventIterator {
    input: Vec<Candidate>,
    position: usize,
}

impl View for EventIterator {
    type V = Seq<EnvelopeView>;

    /// The envelopes that the pass has yet to yield.
    closed spec fn view(&self) -> Seq<EnvelopeView> {
        envelopes(self.input@.skip(self.position as int))
    }
}

impl EventIterator {
    #[verifier::type_invariant]
    spec fn inv(self) -> bool {
        self.position <= self.input.len()
    }

    /// Starts a pass over `input`.
    pub fn new(input: Vec<Candidate>) -> (r: EventIterator)
        ensures
            r@ == envelopes(input@),
    {
        proof {
            assert(input@.skip(0) =~= input@);
        }
        EventIterator { input, position: 0 }
    }

    /// Yields the next envelope. Entries that hold none are passed over; when
    /// no entry with an envelope is left, the pass is at its end and stays
    /// there.
    pub fn next(&mut self) -> (r: Option<EventEnvelope>)
        ensures
            match r {
                Some(envelope) => old(self)@.len() > 0 && envelope@ == old(self)@[0]
                    && final(self)@ == old(self)@.skip(1),
                None => old(self)@.len() == 0 && final(self)@.len() == 0,
            },
    {
        proof {
            use_type_invariant(&*self);
        }
        while self.position < self.input.len()
            invariant
                self.position <= self.input.len(),
                self@ == old(self)@,
            decreases self.input.len() - self.position,
        {
            let ghost before = self.input@.skip(self.position as int);
            let found = load(&self.input[self.position]);
            self.position = self.position + 1;
            proof {
                assert(before[0] == self.input@[self.position - 1]);
                assert(before.skip(1) =~= self.input@.skip(self.position as int));
            }
            match found {
                Ok(envelope) => {
                    proof {
                        assert(old(self)@.skip(1) =~= self@);
                    }
                    return Some(envelope);
                },
                Err(_) => {},
            }
        }
        None
    }

    /// Yields all the envelopes that the pass has yet to yield, in order, and
    /// leaves the pass at its end.
    pub fn drain(&mut self) -> (r: Vec<EventEnvelope>)
        ensures
            r@.len() == old(self)@.len(),
            forall|i: int| 0 <= i < r@.len() ==> (#[trigger] r@[i])@ == old(self)@[i],
            final(self)@.len() == 0,
    {
        let mut found: Vec<EventEnvelope> = Vec::new();
        loop
            invariant
                found@.len() + self@.len() == old(self)@.len(),
                forall|i: int| 0 <= i < found@.len() ==> (#[trigger] found@[i])@ == old(self)@[i],
                self@ == old(self)@.skip(found@.len() as int),
            ensures
                found@.len() == old(self)@.len(),
                forall|i: int| 0 <= i < found@.len() ==> (#[trigger] found@[i])@ == old(self)@[i],
                self@.len() == 0,
            decreases self@.len(),
        {
            match self.next() {
                Some(envelope) => {
                    found.push(envelope);
                },
                None => {
                    break ;
                },
            }
        }
        found
    }
}

/// The directory of a tracing session is created under the system's place for
/// temporary files, with a name that begins like this.
pub const DIRECTORY_PREFIX: &'static str = "bear-";

/// A pass over an empty listing yields nothing.
pub proof fn lemma_empty_listing()
    ensures
        envelopes(Seq::<Candidate>::empty()) == Seq::<EnvelopeView>::empty(),
{
}

/// A pass over a single entry yields its envelope, if it holds one.
pub proof fn lemma_single_entry(candidate: Candidate)
    ensures
        envelopes(seq![candidate]) == match candidate.envelope() {
            Some(v) => seq![v],
            None => Seq::<EnvelopeView>::empty(),
        },
{
    let listing = seq![candidate];
    assert(listing.skip(1) =~= Seq::<Candidate>::empty());
    assert(envelopes(listing.skip(1)) == Seq::<EnvelopeView>::empty());
    match candidate.envelope() {
        Some(v) => {
            assert(seq![v] + Seq::<EnvelopeView>::empty() =~= seq![v]);
        },
        None => {},
    }
}

/// A pass over one listing followed by another yields what a pass over the
/// first yields, followed by what a pass over the second yields.
pub proof fn lemma_listing_concat(first: Seq<Candidate>, second: Seq<Candidate>)
    ensures
        envelopes(first + second) == envelopes(first) + envelopes(second),
    decreases first.len(),
{
    if first.len() == 0 {
        assert(first + second =~= second);
        assert(envelopes(first) + envelopes(second) =~= envelopes(second));
    } else {
        let whole = first + second;
        assert(whole[0] == first[0]);
        assert(whole.skip(1) =~= first.skip(1) + second);
        lemma_listing_concat(first.skip(1), second);
        match first[0].envelope() {
            Some(v) => {
                assert(seq![v] + (envelopes(first.skip(1)) + envelopes(second)) =~= (seq![v]
                    + envelopes(first.skip(1))) + envelopes(second));
            },
            None => {},
        }
    }
}

/// An entry that holds no record does not keep a pass from yielding the
/// envelopes of the entries around it: the pass yields what it would yield
/// without that entry.
pub proof fn lemma_passes_over_malformed(
    before: Seq<Candidate>,
    malformed: Candidate,
    after: Seq<Candidate>,
)
    requires
        malformed.envelope() is None,
    ensures
        envelopes(before + seq![malformed] + after) == envelopes(before) + envelopes(after),
{
    lemma_listing_concat(before + seq![malformed], after);
    lemma_listing_concat(before, seq![malformed]);
    lemma_single_entry(malformed);
    assert(envelopes(before) + Seq::<EnvelopeView>::empty() =~= envelopes(before));
}

/// Once the record of an envelope stands in a directory, a pass yields that
/// envelope after those of the entries listed before it. In a directory that
/// held nothing else, the pass yields that envelope alone, and so does every
/// later pass over the same listing.
pub proof fn lemma_publish_then_read(listing: Seq<Candidate>, record: Candidate, v: EnvelopeView)
    requires
        record.holds(v),
    ensures
        envelopes(listing.push(record)) == envelopes(listing).push(v),
        envelopes(seq![record]) == seq![v],
{
    lemma_round_trip(v);
    lemma_single_entry(record);
    assert(listing.push(record) =~= listing + seq![record]);
    lemma_listing_concat(listing, seq![record]);
    assert(envelopes(listing) + seq![v] =~= envelopes(listing).push(v));
}

/// Where every entry of a listing holds the record of an envelope, a pass
/// yields as many envelopes as there are entries: the envelope of each, in the
/// order of the listing, whatever that order is.
pub proof fn lemma_reads_all_published(listing: Seq<Candidate>, published: Seq<EnvelopeView>)
    requires
        listing.len() == published.len(),
        forall|i: int| 0 <= i < listing.len() ==> (#[trigger] listing[i]).holds(published[i]),
    ensures
        envelopes(listing) == published,
        envelopes(listing).len() == listing.len(),
    decreases listing.len(),
{
    if listing.len() == 0 {
        assert(published =~= Seq::<EnvelopeView>::empty());
    } else {
        let last = listing.len() - 1;
        let earlier = listing.drop_last();
        let earlier_published = published.drop_last();
        assert forall|i: int| 0 <= i < earlier.len() implies (#[trigger] earlier[i]).holds(
            earlier_published[i],
        ) by {
            assert(listing[i].holds(published[i]));
            assert(earlier[i] == listing[i]);
            assert(earlier_published[i] == published[i]);
        }
        lemma_reads_all_published(earlier, published.drop_last());
        assert(listing[last].holds(published[last]));
        lemma_publish_then_read(earlier, listing[last], published[last]);
        assert(earlier.push(listing[last]) =~= listing);
        assert(published.drop_last().push(published[last]) =~= published);
    }
}

} // verus!
