//! The record format: how an envelope is written as bytes, and how bytes are
//! read back.
//!
//! A record is one JSON object in its most compact form, with three members:
//! the process identifier, the timestamp and the event. The event is an object
//! with one member, named after the kind of event.
//!
//! ```text
//! {"process_id":42,"timestamp":{"secs":1545730073,"nanos":5},"event":{"Continued":{}}}
//! ```
//!
//! [`encode_spec`] defines the format. Reading accepts exactly the bytes that
//! writing can produce, which is what [`decode_spec`] says.

use crate::decimal::{
    decimal, lemma_read_signed_of_decimal, lemma_read_signed_sound,
    lemma_read_unsigned_of_decimal, lemma_read_unsigned_sound, push_decimal, push_signed,
    read_signed, read_unsigned, scan_signed, scan_unsigned, signed_decimal,
};
use crate::event::{EnvelopeView, Event, EventEnvelope, ProcessId, Timestamp, NANOS_PER_SECOND};
use vstd::prelude::*;
use vstd::string::StringSliceAdditionalSpecFns;

verus! {

/// Opens a record and names its first member.
pub const MEMBER_PROCESS: &'static str = "{\"process_id\":";

/// Names the timestamp and, within it, the seconds.
pub const MEMBER_SECS: &'static str = ",\"timestamp\":{\"secs\":";

/// Names the nanoseconds within the timestamp.
pub const MEMBER_NANOS: &'static str = ",\"nanos\":";

/// Closes the timestamp and names the event.
pub const MEMBER_EVENT: &'static str = "},\"event\":";

/// Closes a record.
pub const CLOSE: &'static str = "}";

/// The event of a process that came into being.
pub const STARTED: &'static str = "{\"Started\":{}}";

/// The event of a process that replaced its image.
pub const EXECUTED: &'static str = "{\"Executed\":{}}";

/// The event of a process that was told to go on.
pub const CONTINUED: &'static str = "{\"Continued\":{}}";

/// Opens the event of a process that ended, up to its exit status.
pub const TERMINATED: &'static str = "{\"Terminated\":{\"status\":";

/// Closes the event of a process that ended.
pub const TERMINATED_CLOSE: &'static str = "}}";

/// The bytes of a piece of text.
pub open spec fn text(s: &str) -> Seq<u8> {
    s.spec_bytes()
}

/// The bytes that stand for an event.
pub open spec fn event_text(event: Event) -> Seq<u8> {
    match event {
        Event::Started => text(STARTED),
        Event::Executed => text(EXECUTED),
        Event::Continued => text(CONTINUED),
        Event::Terminated { status } => text(TERMINATED) + signed_decimal(status as int) + text(
            TERMINATED_CLOSE,
        ),
    }
}

/// The record of an envelope.
pub open spec fn encode_spec(v: EnvelopeView) -> Seq<u8> {
    text(MEMBER_PROCESS) + decimal(v.process_id as nat) + text(MEMBER_SECS) + signed_decimal(
        v.secs as int,
    ) + text(MEMBER_NANOS) + decimal(v.nanos as nat) + text(MEMBER_EVENT) + event_text(v.event)
        + text(CLOSE)
}

/// The envelope that `bytes` is the record of, if there is a well-formed one.
pub open spec fn decode_spec(bytes: Seq<u8>) -> Option<EnvelopeView> {
    if exists|v: EnvelopeView| v.wf() && encode_spec(v) == bytes {
        Some(choose|v: EnvelopeView| v.wf() && encode_spec(v) == bytes)
    } else {
        None
    }
}

/// What is left of `s` after `piece` at its head, if `piece` stands there.
pub open spec fn strip(s: Seq<u8>, piece: Seq<u8>) -> Option<Seq<u8>> {
    if piece.len() <= s.len() && s.take(piece.len() as int) == piece {
        Some(s.skip(piece.len() as int))
    } else {
        None
    }
}

/// Reads the end of a terminated event, from its exit status on.
pub open spec fn read_status(s: Seq<u8>) -> Option<(Event, Seq<u8>)> {
    match read_signed(s) {
        Some((status, after)) => if i32::MIN <= status <= i32::MAX {
            match strip(after, text(TERMINATED_CLOSE)) {
                Some(rest) => Some((Event::Terminated { status: status as i32 }, rest)),
                None => None,
            }
        } else {
            None
        },
        None => None,
    }
}

/// Reads the event at the head of `s`. Gives the event and the text after it.
pub open spec fn read_event(s: Seq<u8>) -> Option<(Event, Seq<u8>)> {
    if strip(s, text(STARTED)) is Some {
        Some((Event::Started, strip(s, text(STARTED)).unwrap()))
    } else if strip(s, text(EXECUTED)) is Some {
        Some((Event::Executed, strip(s, text(EXECUTED)).unwrap()))
    } else if strip(s, text(CONTINUED)) is Some {
        Some((Event::Continued, strip(s, text(CONTINUED)).unwrap()))
    } else {
        match strip(s, text(TERMINATED)) {
            Some(after) => read_status(after),
            None => None,
        }
    }
}

/// Reads the end of a record, from the event on.
pub open spec fn read_tail(s: Seq<u8>, process_id: ProcessId, secs: i64, nanos: u32) -> Option<
    EnvelopeView,
> {
    match read_event(s) {
        Some((event, after)) => if strip(after, text(CLOSE)) == Some(Seq::<u8>::empty()) {
            Some(EnvelopeView { process_id, secs, nanos, event })
        } else {
            None
        },
        None => None,
    }
}

/// Reads the end of a record, from the nanoseconds on.
pub open spec fn read_nanos(s: Seq<u8>, process_id: ProcessId, secs: i64) -> Option<EnvelopeView> {
    match read_unsigned(s) {
        Some((nanos, after)) => if nanos < NANOS_PER_SECOND {
            match strip(after, text(MEMBER_EVENT)) {
                Some(rest) => read_tail(rest, process_id, secs, nanos as u32),
                None => None,
            }
        } else {
            None
        },
        None => None,
    }
}

/// Reads the end of a record, from the seconds on.
pub open spec fn read_secs(s: Seq<u8>, process_id: ProcessId) -> Option<EnvelopeView> {
    match read_signed(s) {
        Some((secs, after)) => if i64::MIN <= secs <= i64::MAX {
            match strip(after, text(MEMBER_NANOS)) {
                Some(rest) => read_nanos(rest, process_id, secs as i64),
                None => None,
            }
        } else {
            None
        },
        None => None,
    }
}

/// Reads a whole record, member by member.
pub open spec fn read_record(bytes: Seq<u8>) -> Option<EnvelopeView> {
    match strip(bytes, text(MEMBER_PROCESS)) {
        Some(s) => match read_unsigned(s) {
            Some((process_id, after)) => if process_id <= u32::MAX {
                match strip(after, text(MEMBER_SECS)) {
                    Some(rest) => read_secs(rest, process_id as u32),
                    None => None,
                }
            } else {
                None
            },
            None => None,
        },
        None => None,
    }
}

/// How each piece of text begins, as far as reading depends on it: no piece
/// that follows a number begins with a digit, and the four kinds of event
/// differ in their third byte.
pub proof fn lemma_pieces()
    ensures
        text(MEMBER_PROCESS).len() == 14,
        text(MEMBER_SECS).len() == 21 && text(MEMBER_SECS)[0] == 44,
        text(MEMBER_NANOS).len() == 9 && text(MEMBER_NANOS)[0] == 44,
        text(MEMBER_EVENT).len() == 10 && text(MEMBER_EVENT)[0] == 125,
        text(CLOSE).len() == 1 && text(CLOSE)[0] == 125,
        text(TERMINATED_CLOSE).len() == 2 && text(TERMINATED_CLOSE)[0] == 125,
        text(STARTED).len() == 14 && text(STARTED)[2] == 83,
        text(EXECUTED).len() == 15 && text(EXECUTED)[2] == 69,
        text(CONTINUED).len() == 16 && text(CONTINUED)[2] == 67,
        text(TERMINATED).len() == 24 && text(TERMINATED)[2] == 84,
{
    reveal_strlit("{\"process_id\":");
    reveal_strlit(",\"timestamp\":{\"secs\":");
    reveal_strlit(",\"nanos\":");
    reveal_strlit("},\"event\":");
    reveal_strlit("}");
    reveal_strlit("}}");
    reveal_strlit("{\"Started\":{}}");
    reveal_strlit("{\"Executed\":{}}");
    reveal_strlit("{\"Continued\":{}}");
    reveal_strlit("{\"Terminated\":{\"status\":");
    vstd::string::is_ascii_spec_bytes(MEMBER_PROCESS);
    vstd::string::is_ascii_spec_bytes(MEMBER_SECS);
    vstd::string::is_ascii_spec_bytes(MEMBER_NANOS);
    vstd::string::is_ascii_spec_bytes(MEMBER_EVENT);
    vstd::string::is_ascii_spec_bytes(CLOSE);
    vstd::string::is_ascii_spec_bytes(TERMINATED_CLOSE);
    vstd::string::is_ascii_spec_bytes(STARTED);
    vstd::string::is_ascii_spec_bytes(EXECUTED);
    vstd::string::is_ascii_spec_bytes(CONTINUED);
    vstd::string::is_ascii_spec_bytes(TERMINATED);
    assert(vstd::string::is_ascii(MEMBER_PROCESS));
    assert(vstd::string::is_ascii(MEMBER_SECS));
    assert(vstd::string::is_ascii(MEMBER_NANOS));
    assert(vstd::string::is_ascii(MEMBER_EVENT));
    assert(vstd::string::is_ascii(CLOSE));
    assert(vstd::string::is_ascii(TERMINATED_CLOSE));
    assert(vstd::string::is_ascii(STARTED));
    assert(vstd::string::is_ascii(EXECUTED));
    assert(vstd::string::is_ascii(CONTINUED));
    assert(vstd::string::is_ascii(TERMINATED));
}

/// A piece is stripped from text that begins with it, and what followed is
/// left.
pub proof fn lemma_strip_of_concat(piece: Seq<u8>, rest: Seq<u8>)
    ensures
        strip(piece + rest, piece) == Some(rest),
{
    let s = piece + rest;
    assert(s.take(piece.len() as int) =~= piece);
    assert(s.skip(piece.len() as int) =~= rest);
}

/// Text from which a piece was stripped is that piece and what was left.
pub proof fn lemma_strip_sound(s: Seq<u8>, piece: Seq<u8>)
    requires
        strip(s, piece) is Some,
    ensures
        s == piece + strip(s, piece).unwrap(),
{
    assert(s =~= s.take(piece.len() as int) + s.skip(piece.len() as int));
}

/// A piece is not stripped from text that differs from it in some byte.
pub proof fn lemma_strip_differs(s: Seq<u8>, piece: Seq<u8>, i: int)
    requires
        0 <= i < piece.len(),
        i < s.len(),
        s[i] != piece[i],
    ensures
        strip(s, piece) is None,
{
    if piece.len() <= s.len() {
        assert(s.take(piece.len() as int)[i] == s[i]);
    }
}

/// Reading takes back the event that was written, and leaves the text that
/// followed it.
pub proof fn lemma_read_event_of_text(event: Event, rest: Seq<u8>)
    ensures
        read_event(event_text(event) + rest) == Some((event, rest)),
{
    lemma_pieces();
    let s = event_text(event) + rest;
    match event {
        Event::Started => {
            lemma_strip_of_concat(text(STARTED), rest);
        },
        Event::Executed => {
            assert(s[2] == text(EXECUTED)[2]);
            lemma_strip_differs(s, text(STARTED), 2);
            lemma_strip_of_concat(text(EXECUTED), rest);
        },
        Event::Continued => {
            assert(s[2] == text(CONTINUED)[2]);
            lemma_strip_differs(s, text(STARTED), 2);
            lemma_strip_differs(s, text(EXECUTED), 2);
            lemma_strip_of_concat(text(CONTINUED), rest);
        },
        Event::Terminated { status } => {
            assert(s[2] == text(TERMINATED)[2]);
            lemma_strip_differs(s, text(STARTED), 2);
            lemma_strip_differs(s, text(EXECUTED), 2);
            lemma_strip_differs(s, text(CONTINUED), 2);
            let closing = text(TERMINATED_CLOSE) + rest;
            let after = signed_decimal(status as int) + closing;
            assert(s =~= text(TERMINATED) + after);
            lemma_strip_of_concat(text(TERMINATED), after);
            assert(closing[0] == text(TERMINATED_CLOSE)[0]);
            lemma_read_signed_of_decimal(status as int, closing);
            lemma_strip_of_concat(text(TERMINATED_CLOSE), rest);
        },
    }
}

/// What was read as an event is the text of that event, and what was left.
pub proof fn lemma_read_event_sound(s: Seq<u8>)
    requires
        read_event(s) is Some,
    ensures
        s == event_text(read_event(s).unwrap().0) + read_event(s).unwrap().1,
{
    if strip(s, text(STARTED)) is Some {
        lemma_strip_sound(s, text(STARTED));
    } else if strip(s, text(EXECUTED)) is Some {
        lemma_strip_sound(s, text(EXECUTED));
    } else if strip(s, text(CONTINUED)) is Some {
        lemma_strip_sound(s, text(CONTINUED));
    } else {
        lemma_strip_sound(s, text(TERMINATED));
        let after = strip(s, text(TERMINATED)).unwrap();
        lemma_read_signed_sound(after);
        let (status, closing) = read_signed(after).unwrap();
        lemma_strip_sound(closing, text(TERMINATED_CLOSE));
        let rest = strip(closing, text(TERMINATED_CLOSE)).unwrap();
        assert(s =~= text(TERMINATED) + signed_decimal(status) + text(TERMINATED_CLOSE) + rest);
    }
}

/// The end of a record, from the event on.
pub open spec fn text_from_event(v: EnvelopeView) -> Seq<u8> {
    event_text(v.event) + text(CLOSE)
}

/// The end of a record, from the nanoseconds on.
pub open spec fn text_from_nanos(v: EnvelopeView) -> Seq<u8> {
    decimal(v.nanos as nat) + (text(MEMBER_EVENT) + text_from_event(v))
}

/// The end of a record, from the seconds on.
pub open spec fn text_from_secs(v: EnvelopeView) -> Seq<u8> {
    signed_decimal(v.secs as int) + (text(MEMBER_NANOS) + text_from_nanos(v))
}

/// Joining text does not depend on where the brackets stand.
pub proof fn lemma_join(a: Seq<u8>, b: Seq<u8>, c: Seq<u8>)
    ensures
        (a + b) + c == a + (b + c),
{
    assert((a + b) + c =~= a + (b + c));
}

/// A record is its first member's name, the process identifier, the name of
/// the seconds, and the rest from the seconds on.
pub proof fn lemma_encoding_by_members(v: EnvelopeView)
    ensures
        encode_spec(v) == text(MEMBER_PROCESS) + (decimal(v.process_id as nat) + (text(MEMBER_SECS)
            + text_from_secs(v))),
{
    let process_name = text(MEMBER_PROCESS);
    let process = decimal(v.process_id as nat);
    let secs_name = text(MEMBER_SECS);
    let secs = signed_decimal(v.secs as int);
    let nanos_name = text(MEMBER_NANOS);
    let nanos = decimal(v.nanos as nat);
    let event_name = text(MEMBER_EVENT);
    let event = event_text(v.event);
    let close = text(CLOSE);
    let upto_event_name = process_name + process + secs_name + secs + nanos_name + nanos
        + event_name;
    let upto_nanos = process_name + process + secs_name + secs + nanos_name + nanos;
    let upto_nanos_name = process_name + process + secs_name + secs + nanos_name;
    let upto_secs = process_name + process + secs_name + secs;
    let upto_secs_name = process_name + process + secs_name;
    let upto_process = process_name + process;
    lemma_join(upto_event_name, event, close);
    lemma_join(upto_nanos, event_name, text_from_event(v));
    lemma_join(upto_nanos_name, nanos, event_name + text_from_event(v));
    lemma_join(upto_secs, nanos_name, text_from_nanos(v));
    lemma_join(upto_secs_name, secs, nanos_name + text_from_nanos(v));
    lemma_join(upto_process, secs_name, text_from_secs(v));
    lemma_join(process_name, process, secs_name + text_from_secs(v));
}

/// Reading from the event on takes back what was written.
pub proof fn lemma_read_tail_of_text(v: EnvelopeView)
    ensures
        read_tail(text_from_event(v), v.process_id, v.secs, v.nanos) == Some(v),
{
    lemma_read_event_of_text(v.event, text(CLOSE));
    lemma_strip_of_concat(text(CLOSE), Seq::<u8>::empty());
    assert(text(CLOSE) + Seq::<u8>::empty() =~= text(CLOSE));
}

/// Reading from the nanoseconds on takes back what was written.
pub proof fn lemma_read_nanos_of_text(v: EnvelopeView)
    requires
        v.wf(),
    ensures
        read_nanos(text_from_nanos(v), v.process_id, v.secs) == Some(v),
{
    lemma_pieces();
    let after = text(MEMBER_EVENT) + text_from_event(v);
    assert(after[0] == text(MEMBER_EVENT)[0]);
    lemma_read_unsigned_of_decimal(v.nanos as nat, after);
    lemma_strip_of_concat(text(MEMBER_EVENT), text_from_event(v));
    lemma_read_tail_of_text(v);
}

/// Reading from the seconds on takes back what was written.
pub proof fn lemma_read_secs_of_text(v: EnvelopeView)
    requires
        v.wf(),
    ensures
        read_secs(text_from_secs(v), v.process_id) == Some(v),
{
    lemma_pieces();
    let after = text(MEMBER_NANOS) + text_from_nanos(v);
    assert(after[0] == text(MEMBER_NANOS)[0]);
    lemma_read_signed_of_decimal(v.secs as int, after);
    lemma_strip_of_concat(text(MEMBER_NANOS), text_from_nanos(v));
    lemma_read_nanos_of_text(v);
}

/// Reading takes back the envelope that was written.
pub proof fn lemma_read_record_of_encoding(v: EnvelopeView)
    requires
        v.wf(),
    ensures
        read_record(encode_spec(v)) == Some(v),
{
    lemma_pieces();
    lemma_encoding_by_members(v);
    let after = text(MEMBER_SECS) + text_from_secs(v);
    let from_process = decimal(v.process_id as nat) + after;
    lemma_strip_of_concat(text(MEMBER_PROCESS), from_process);
    assert(after[0] == text(MEMBER_SECS)[0]);
    lemma_read_unsigned_of_decimal(v.process_id as nat, after);
    lemma_strip_of_concat(text(MEMBER_SECS), text_from_secs(v));
    lemma_read_secs_of_text(v);
}

/// What was read from the event on is the text that is written for it.
pub proof fn lemma_read_tail_sound(s: Seq<u8>, process_id: ProcessId, secs: i64, nanos: u32)
    requires
        read_tail(s, process_id, secs, nanos) is Some,
    ensures
        s == text_from_event(read_tail(s, process_id, secs, nanos).unwrap()),
        read_tail(s, process_id, secs, nanos).unwrap().process_id == process_id,
        read_tail(s, process_id, secs, nanos).unwrap().secs == secs,
        read_tail(s, process_id, secs, nanos).unwrap().nanos == nanos,
{
    lemma_read_event_sound(s);
    let closing = read_event(s).unwrap().1;
    lemma_strip_sound(closing, text(CLOSE));
    assert(closing =~= text(CLOSE));
}

/// What was read from the nanoseconds on is the text that is written for it.
pub proof fn lemma_read_nanos_sound(s: Seq<u8>, process_id: ProcessId, secs: i64)
    requires
        read_nanos(s, process_id, secs) is Some,
    ensures
        s == text_from_nanos(read_nanos(s, process_id, secs).unwrap()),
        read_nanos(s, process_id, secs).unwrap().process_id == process_id,
        read_nanos(s, process_id, secs).unwrap().secs == secs,
        read_nanos(s, process_id, secs).unwrap().wf(),
{
    lemma_read_unsigned_sound(s);
    let (nanos, after) = read_unsigned(s).unwrap();
    lemma_strip_sound(after, text(MEMBER_EVENT));
    let rest = strip(after, text(MEMBER_EVENT)).unwrap();
    lemma_read_tail_sound(rest, process_id, secs, nanos as u32);
}

/// What was read from the seconds on is the text that is written for it.
pub proof fn lemma_read_secs_sound(s: Seq<u8>, process_id: ProcessId)
    requires
        read_secs(s, process_id) is Some,
    ensures
        s == text_from_secs(read_secs(s, process_id).unwrap()),
        read_secs(s, process_id).unwrap().process_id == process_id,
        read_secs(s, process_id).unwrap().wf(),
{
    lemma_read_signed_sound(s);
    let (secs, after) = read_signed(s).unwrap();
    lemma_strip_sound(after, text(MEMBER_NANOS));
    let rest = strip(after, text(MEMBER_NANOS)).unwrap();
    lemma_read_nanos_sound(rest, process_id, secs as i64);
}

/// What was read as a record is a well-formed envelope, and the text is what
/// is written for it.
pub proof fn lemma_read_record_sound(bytes: Seq<u8>)
    requires
        read_record(bytes) is Some,
    ensures
        read_record(bytes).unwrap().wf(),
        encode_spec(read_record(bytes).unwrap()) == bytes,
{
    let v = read_record(bytes).unwrap();
    lemma_strip_sound(bytes, text(MEMBER_PROCESS));
    let from_process = strip(bytes, text(MEMBER_PROCESS)).unwrap();
    lemma_read_unsigned_sound(from_process);
    let (process_id, after) = read_unsigned(from_process).unwrap();
    lemma_strip_sound(after, text(MEMBER_SECS));
    let rest = strip(after, text(MEMBER_SECS)).unwrap();
    lemma_read_secs_sound(rest, process_id as u32);
    lemma_encoding_by_members(v);
}

/// Reading member by member finds the envelope that `bytes` is the record of,
/// and finds none where there is none.
pub proof fn lemma_decode_is_read(bytes: Seq<u8>)
    ensures
        decode_spec(bytes) == read_record(bytes),
{
    if read_record(bytes) is Some {
        lemma_read_record_sound(bytes);
        let found = read_record(bytes).unwrap();
        assert(found.wf() && encode_spec(found) == bytes);
        let chosen = choose|v: EnvelopeView| v.wf() && encode_spec(v) == bytes;
        lemma_read_record_of_encoding(chosen);
    } else {
        if exists|v: EnvelopeView| v.wf() && encode_spec(v) == bytes {
            let chosen = choose|v: EnvelopeView| v.wf() && encode_spec(v) == bytes;
            lemma_read_record_of_encoding(chosen);
        }
    }
}

/// Bytes are read as an envelope exactly when they are its record.
pub proof fn lemma_decode_iff_encoding(bytes: Seq<u8>, v: EnvelopeView)
    ensures
        decode_spec(bytes) == Some(v) <==> v.wf() && encode_spec(v) == bytes,
{
    lemma_decode_is_read(bytes);
    if read_record(bytes) is Some {
        lemma_read_record_sound(bytes);
    }
    if v.wf() && encode_spec(v) == bytes {
        lemma_read_record_of_encoding(v);
    }
}

/// Writing an envelope and reading the record back gives the envelope again.
pub proof fn lemma_round_trip(v: EnvelopeView)
    requires
        v.wf(),
    ensures
        decode_spec(encode_spec(v)) == Some(v),
{
    lemma_decode_iff_encoding(encode_spec(v), v);
}

/// The envelope that is read from the record of an envelope is equal to the
/// one that was written.
pub proof fn lemma_round_trip_equal(written: EventEnvelope, read: EventEnvelope)
    requires
        written.wf(),
        decode_spec(encode_spec(written@)) == Some(read@),
    ensures
        read == written,
{
    lemma_round_trip(written@);
    EventEnvelope::lemma_view_injective(read, written);
}

/// Appends a piece of text to `out`.
fn push_text(out: &mut Vec<u8>, piece: &str)
    ensures
        final(out)@ == old(out)@ + text(piece),
{
    out.extend_from_slice(piece.as_bytes());
}

/// Appends the text of an event to `out`.
fn push_event(out: &mut Vec<u8>, event: Event)
    ensures
        final(out)@ == old(out)@ + event_text(event),
{
    match event {
        Event::Started => push_text(out, STARTED),
        Event::Executed => push_text(out, EXECUTED),
        Event::Continued => push_text(out, CONTINUED),
        Event::Terminated { status } => {
            push_text(out, TERMINATED);
            push_signed(out, status as i64);
            push_text(out, TERMINATED_CLOSE);
            proof {
                assert(out@ =~= old(out)@ + event_text(event));
            }
        },
    }
}

/// Writes the record of an envelope. Reading the record gives the envelope
/// back.
pub fn encode(envelope: &EventEnvelope) -> (r: Vec<u8>)
    ensures
        r@ == encode_spec(envelope@),
        decode_spec(r@) == Some(envelope@),
{
    let timestamp = envelope.timestamp();
    let mut out: Vec<u8> = Vec::new();
    push_text(&mut out, MEMBER_PROCESS);
    proof {
        assert(out@ =~= text(MEMBER_PROCESS));
    }
    push_decimal(&mut out, envelope.process_id() as u64);
    push_text(&mut out, MEMBER_SECS);
    push_signed(&mut out, timestamp.secs());
    push_text(&mut out, MEMBER_NANOS);
    push_decimal(&mut out, timestamp.nanos() as u64);
    push_text(&mut out, MEMBER_EVENT);
    push_event(&mut out, envelope.event());
    push_text(&mut out, CLOSE);
    proof {
        use_type_invariant(envelope);
        lemma_round_trip(envelope@);
    }
    out
}

/// Looks for a piece of text in `bytes` at `start`. Gives the place after it.
fn expect(bytes: &[u8], start: usize, piece: &str) -> (r: Option<usize>)
    requires
        start <= bytes.len(),
    ensures
        match strip(bytes@.skip(start as int), text(piece)) {
            Some(rest) => r matches Some(end) && start <= end <= bytes.len() && bytes@.skip(
                end as int,
            ) == rest,
            None => r is None,
        },
{
    let wanted = piece.as_bytes();
    if wanted.len() > bytes.len() - start {
        return None;
    }
    let ghost s = bytes@.skip(start as int);
    let mut i: usize = 0;
    while i < wanted.len()
        invariant
            i <= wanted.len(),
            start + wanted.len() <= bytes.len(),
            wanted@ == text(piece),
            s == bytes@.skip(start as int),
            forall|j: int| 0 <= j < i ==> bytes[start + j] == wanted[j],
        decreases wanted.len() - i,
    {
        if bytes[start + i] != wanted[i] {
            proof {
                assert(s[i as int] == bytes[start + i]);
                lemma_strip_differs(s, text(piece), i as int);
            }
            return None;
        }
        i += 1;
    }
    proof {
        assert(s.take(wanted.len() as int) =~= text(piece));
        assert(s.skip(wanted.len() as int) =~= bytes@.skip(start + wanted.len()));
    }
    Some(start + wanted.len())
}

/// Reads the end of a terminated event that stands in `bytes` at `start`, from
/// its exit status on.
fn scan_status(bytes: &[u8], start: usize) -> (r: Option<(Event, usize)>)
    requires
        start <= bytes.len(),
    ensures
        match read_status(bytes@.skip(start as int)) {
            Some((event, rest)) => r matches Some((found, end)) && found == event && start <= end
                <= bytes.len() && bytes@.skip(end as int) == rest,
            None => r is None,
        },
{
    match scan_signed(bytes, start) {
        Some((status, after)) => {
            if status < -0x8000_0000i64 || status > 0x7fff_ffffi64 {
                return None;
            }
            match expect(bytes, after, TERMINATED_CLOSE) {
                Some(end) => Some((Event::Terminated { status: status as i32 }, end)),
                None => None,
            }
        },
        None => None,
    }
}

/// Reads the event that stands in `bytes` at `start`. Gives the event and the
/// place after it.
fn scan_event(bytes: &[u8], start: usize) -> (r: Option<(Event, usize)>)
    requires
        start <= bytes.len(),
    ensures
        match read_event(bytes@.skip(start as int)) {
            Some((event, rest)) => r matches Some((found, end)) && found == event && start <= end
                <= bytes.len() && bytes@.skip(end as int) == rest,
            None => r is None,
        },
{
    match expect(bytes, start, STARTED) {
        Some(end) => {
            return Some((Event::Started, end));
        },
        None => {},
    }
    match expect(bytes, start, EXECUTED) {
        Some(end) => {
            return Some((Event::Executed, end));
        },
        None => {},
    }
    match expect(bytes, start, CONTINUED) {
        Some(end) => {
            return Some((Event::Continued, end));
        },
        None => {},
    }
    match expect(bytes, start, TERMINATED) {
        Some(after) => scan_status(bytes, after),
        None => None,
    }
}

/// Reads the end of a record that stands in `bytes` at `start`, from the event
/// on.
fn scan_tail(bytes: &[u8], start: usize, process_id: ProcessId, timestamp: Timestamp) -> (r:
    Option<EventEnvelope>)
    requires
        start <= bytes.len(),
    ensures
        match r {
            Some(envelope) => read_tail(
                bytes@.skip(start as int),
                process_id,
                timestamp@.0,
                timestamp@.1,
            ) == Some(envelope@),
            None => read_tail(bytes@.skip(start as int), process_id, timestamp@.0, timestamp@.1)
                is None,
        },
{
    match scan_event(bytes, start) {
        Some((event, after)) => match expect(bytes, after, CLOSE) {
            Some(end) => {
                if end == bytes.len() {
                    proof {
                        assert(bytes@.skip(end as int) =~= Seq::<u8>::empty());
                    }
                    Some(EventEnvelope::create(process_id, timestamp, event))
                } else {
                    proof {
                        assert(bytes@.skip(end as int).len() > 0);
                    }
                    None
                }
            },
            None => None,
        },
        None => None,
    }
}

/// Reads the end of a record that stands in `bytes` at `start`, from the
/// seconds on.
fn scan_secs(bytes: &[u8], start: usize, process_id: ProcessId) -> (r: Option<EventEnvelope>)
    requires
        start <= bytes.len(),
    ensures
        match r {
            Some(envelope) => read_secs(bytes@.skip(start as int), process_id) == Some(envelope@),
            None => read_secs(bytes@.skip(start as int), process_id) is None,
        },
{
    let (secs, after) = match scan_signed(bytes, start) {
        Some(found) => found,
        None => {
            return None;
        },
    };
    let at_nanos = match expect(bytes, after, MEMBER_NANOS) {
        Some(end) => end,
        None => {
            return None;
        },
    };
    let (nanos, after) = match scan_unsigned(bytes, at_nanos, 999_999_999) {
        Some(found) => found,
        None => {
            return None;
        },
    };
    let at_event = match expect(bytes, after, MEMBER_EVENT) {
        Some(end) => end,
        None => {
            return None;
        },
    };
    match Timestamp::new(secs, nanos as u32) {
        Some(timestamp) => scan_tail(bytes, at_event, process_id, timestamp),
        None => None,
    }
}

/// Reads a record. Gives the envelope that `bytes` is the record of, and
/// nothing where it is the record of none.
pub fn decode(bytes: &[u8]) -> (r: Option<EventEnvelope>)
    ensures
        match r {
            Some(envelope) => decode_spec(bytes@) == Some(envelope@),
            None => decode_spec(bytes@) is None,
        },
{
    proof {
        lemma_decode_is_read(bytes@);
        assert(bytes@.skip(0) =~= bytes@);
    }
    let at_process = match expect(bytes, 0, MEMBER_PROCESS) {
        Some(end) => end,
        None => {
            return None;
        },
    };
    let (process_id, after) = match scan_unsigned(bytes, at_process, 0xffff_ffff) {
        Some(found) => found,
        None => {
            return None;
        },
    };
    match expect(bytes, after, MEMBER_SECS) {
        Some(at_secs) => scan_secs(bytes, at_secs, process_id as u32),
        None => None,
    }
}

} // verus!
