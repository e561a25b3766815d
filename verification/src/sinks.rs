//! Projected events, their owned copies, and the bounded sinks that keep
//! them. Every buffer is bounded and accounts for what it lost: accepted,
//! dropped, overwritten, truncated and failed records are counted.

use vstd::prelude::*;
use vstd::string::StringSliceAdditionalSpecFns;
use vstd::utf8::*;

use crate::model::{ContextToken, Detail, Metadata, Privacy, ValueRef};
use crate::model::Severity;
use crate::text::{
    boundary_at_most, char_boundary_at_most, debug_quote, debug_quoted, decimal, push_decimal,
    push_decimal_i64, push_decimal_u64, signed_decimal,
};
use crate::wire::wrap_add;
use vstd::string::StringExecFns;

verus! {

/// A field already authorized for one sink view.
#[derive(Clone, Copy, Debug)]
pub struct ProjectedField<'a> {
    pub name: &'a str,
    pub privacy: Privacy,
    pub detail: Detail,
    pub value: ValueRef<'a>,
}

/// The only event representation handed to sinks: what privacy projection
/// let through, with the message already rendered.
#[derive(Debug)]
pub struct ProjectedEvent<'a> {
    pub metadata: &'a Metadata<'a>,
    pub context: ContextToken,
    pub fields: Vec<ProjectedField<'a>>,
    pub message: Option<&'a str>,
    pub omitted_fields: usize,
}

/// Whether a view asks call sites to evaluate expensive detail fields.
#[derive(Clone, Copy, Debug, PartialEq, Eq, Structural)]
pub enum DetailLevel {
    Core,
    Full,
}

impl Default for DetailLevel {
    fn default() -> (r: DetailLevel)
        ensures
            r == DetailLevel::Core,
    {
        DetailLevel::Core
    }
}

/// An owned field value. Floating-point values keep their bit pattern.
#[derive(Clone, Debug)]
pub enum OwnedValue {
    Bool(bool),
    I64(i64),
    U64(u64),
    F64Bits(u64),
    String(String),
}

#[derive(Clone, Debug)]
pub struct OwnedField<'a> {
    pub name: &'a str,
    pub privacy: Privacy,
    pub detail: Detail,
    pub value: OwnedValue,
}

/// A projected event copied out of the call site, with every text bounded.
#[derive(Clone, Debug)]
pub struct OwnedProjectedEvent<'a> {
    pub metadata: &'a Metadata<'a>,
    pub context: ContextToken,
    pub fields: Vec<OwnedField<'a>>,
    pub message: Option<String>,
    pub omitted_fields: usize,
    pub truncated_fields: usize,
}

/// The UTF-8 bytes of `bytes` kept under a limit of `max`: all of them when
/// they fit, else the longest prefix that ends on a character boundary.
pub open spec fn truncated_bytes(bytes: Seq<u8>, max: int) -> Seq<u8> {
    if bytes.len() <= max {
        bytes
    } else {
        bytes.subrange(0, boundary_at_most(bytes, max))
    }
}

/// `out` is `src` bounded to `max` UTF-8 bytes.
pub open spec fn is_truncation(out: Seq<char>, src: Seq<char>, max: usize) -> bool {
    encode_utf8(out) == truncated_bytes(encode_utf8(src), max as int)
}

pub open spec fn exceeds(src: Seq<char>, max: usize) -> bool {
    encode_utf8(src).len() > max
}

/// The text a value carries, if it is textual.
pub open spec fn text_of(v: ValueRef) -> Option<Seq<char>> {
    match v {
        ValueRef::Str(s) => Some(s@),
        ValueRef::Debug(s) => Some(s@),
        ValueRef::Display(s) => Some(s@),
        _ => None,
    }
}

pub open spec fn value_truncates(v: ValueRef, max: usize) -> bool {
    match text_of(v) {
        Some(t) => exceeds(t, max),
        None => false,
    }
}

/// `out` is the owned form of `v`: scalars as they are, text bounded.
pub open spec fn owns_value(out: OwnedValue, v: ValueRef, max: usize) -> bool {
    match v {
        ValueRef::Bool(b) => out == OwnedValue::Bool(b),
        ValueRef::I64(x) => out == OwnedValue::I64(x),
        ValueRef::U64(x) => out == OwnedValue::U64(x),
        ValueRef::F64Bits(x) => out == OwnedValue::F64Bits(x),
        ValueRef::Str(s) => out matches OwnedValue::String(t) && is_truncation(t@, s@, max),
        ValueRef::Debug(s) => out matches OwnedValue::String(t) && is_truncation(t@, s@, max),
        ValueRef::Display(s) => out matches OwnedValue::String(t) && is_truncation(t@, s@, max),
    }
}

pub open spec fn owns_field(out: OwnedField, f: ProjectedField, max: usize) -> bool {
    &&& out.name == f.name
    &&& out.privacy == f.privacy
    &&& out.detail == f.detail
    &&& owns_value(out.value, f.value, max)
}

/// How many of the first `n` fields carry text over the limit.
pub open spec fn truncating_fields(fs: Seq<ProjectedField>, max: usize, n: int) -> nat
    decreases n,
{
    if n <= 0 || fs.len() < n {
        0
    } else {
        truncating_fields(fs, max, n - 1) + if value_truncates(fs[n - 1].value, max) {
            1nat
        } else {
            0nat
        }
    }
}

/// How many texts a copy bounded to `max` bytes shortens, given the fields
/// and message of an event.
pub open spec fn truncation_parts(fields: Seq<ProjectedField>, message: Option<&str>, max: usize) -> nat {
    truncating_fields(fields, max, fields.len() as int) + match message {
        Some(m) => if exceeds(m@, max) {
            1nat
        } else {
            0nat
        },
        None => 0nat,
    }
}

pub open spec fn truncation_count(e: ProjectedEvent, max: usize) -> nat {
    truncation_parts(e.fields@, e.message, max)
}

/// `o` is the owned copy, texts bounded to `max` bytes, of an event with
/// these parts.
pub open spec fn copies_parts<'a>(
    o: OwnedProjectedEvent<'a>,
    metadata: &'a Metadata<'a>,
    context: ContextToken,
    fields: Seq<ProjectedField<'a>>,
    message: Option<&'a str>,
    omitted: usize,
    max: usize,
) -> bool {
    &&& o.metadata == metadata
    &&& o.context == context
    &&& o.omitted_fields == omitted
    &&& o.fields@.len() == fields.len()
    &&& forall|i: int| 0 <= i < fields.len() ==> owns_field(#[trigger] o.fields@[i], fields[i], max)
    &&& match message {
        None => o.message is None,
        Some(m) => o.message matches Some(t) && is_truncation(t@, m@, max),
    }
    &&& o.truncated_fields == truncation_parts(fields, message, max)
}

/// `o` is the owned copy of `e` with texts bounded to `max` bytes.
pub open spec fn copies<'a>(o: OwnedProjectedEvent<'a>, e: ProjectedEvent<'a>, max: usize) -> bool {
    copies_parts(o, e.metadata, e.context, e.fields@, e.message, e.omitted_fields, max)
}

proof fn lemma_truncating_fields_bound(fs: Seq<ProjectedField>, max: usize, n: int)
    requires
        0 <= n <= fs.len(),
    ensures
        truncating_fields(fs, max, n) <= n,
    decreases n,
{
    if n > 0 {
        lemma_truncating_fields_bound(fs, max, n - 1);
    }
}

/// Bounds `value` to `max` UTF-8 bytes, cutting at a character boundary, and
/// counts the cut.
fn truncate(value: &str, max: usize, truncated: &mut usize) -> (r: String)
    requires
        *old(truncated) < usize::MAX,
    ensures
        is_truncation(r@, value@, max),
        *final(truncated) == *old(truncated) + if exceeds(value@, max) {
            1usize
        } else {
            0usize
        },
{
    proof {
        assert(value.spec_bytes() == encode_utf8(value@));
    }
    if value.as_bytes().len() <= max {
        let r = value.to_owned();
        proof {
            assert(!exceeds(value@, max));
            assert(encode_utf8(r@) == truncated_bytes(encode_utf8(value@), max as int));
        }
        return r;
    }
    let boundary = char_boundary_at_most(value, max);
    let (head, _) = value.split_at(boundary);
    *truncated = *truncated + 1;
    let r = head.to_owned();
    proof {
        assert(exceeds(value@, max));
        assert(boundary as int == boundary_at_most(value.spec_bytes(), max as int));
        assert(encode_utf8(r@) == head.spec_bytes());
        assert(head.spec_bytes() == value.spec_bytes().subrange(0, boundary as int));
    }
    r
}

fn own_value(value: ValueRef, max: usize, truncated: &mut usize) -> (r: OwnedValue)
    requires
        *old(truncated) < usize::MAX,
    ensures
        owns_value(r, value, max),
        *final(truncated) == *old(truncated) + if value_truncates(value, max) {
            1usize
        } else {
            0usize
        },
{
    match value {
        ValueRef::Bool(v) => OwnedValue::Bool(v),
        ValueRef::I64(v) => OwnedValue::I64(v),
        ValueRef::U64(v) => OwnedValue::U64(v),
        ValueRef::F64Bits(v) => OwnedValue::F64Bits(v),
        ValueRef::Str(v) => OwnedValue::String(truncate(v, max, truncated)),
        ValueRef::Debug(v) => OwnedValue::String(truncate(v, max, truncated)),
        ValueRef::Display(v) => OwnedValue::String(truncate(v, max, truncated)),
    }
}

impl<'a> OwnedProjectedEvent<'a> {
    /// Copies `event` out of the call site, bounding every text to
    /// `max_string_bytes` and counting the texts that were cut.
    pub fn copy_from(event: ProjectedEvent<'a>, max_string_bytes: usize) -> (r: Self)
        requires
            event.fields@.len() < usize::MAX,
        ensures
            copies(r, event, max_string_bytes),
    {
        let mut truncated_fields: usize = 0;
        let mut fields: Vec<OwnedField<'a>> = Vec::new();
        let mut i: usize = 0;
        while i < event.fields.len()
            invariant
                i <= event.fields@.len(),
                event.fields@.len() < usize::MAX,
                fields@.len() == i,
                forall|j: int| 0 <= j < i ==> owns_field(#[trigger] fields@[j], event.fields@[j], max_string_bytes),
                truncated_fields == truncating_fields(event.fields@, max_string_bytes, i as int),
            decreases event.fields@.len() - i,
        {
            proof {
                lemma_truncating_fields_bound(event.fields@, max_string_bytes, i as int);
            }
            let field = event.fields[i];
            let value = own_value(field.value, max_string_bytes, &mut truncated_fields);
            fields.push(OwnedField { name: field.name, privacy: field.privacy, detail: field.detail, value });
            i = i + 1;
        }
        proof {
            lemma_truncating_fields_bound(event.fields@, max_string_bytes, i as int);
        }
        let message = match event.message {
            Some(m) => Some(truncate(m, max_string_bytes, &mut truncated_fields)),
            None => None,
        };
        OwnedProjectedEvent {
            metadata: event.metadata,
            context: event.context,
            fields,
            message,
            omitted_fields: event.omitted_fields,
            truncated_fields,
        }
    }
}

/// What a full buffer does with one more record.
#[derive(Clone, Copy, Debug, PartialEq, Eq, Structural)]
pub enum OverflowPolicy {
    DropNewest,
    OverwriteOldest,
}

impl Default for OverflowPolicy {
    fn default() -> (r: OverflowPolicy)
        ensures
            r == OverflowPolicy::DropNewest,
    {
        OverflowPolicy::DropNewest
    }
}

/// Running loss accounting of one sink. Counters wrap modulo 2^64.
#[derive(Clone, Copy, Debug, PartialEq, Eq, Structural)]
pub struct SinkStats {
    pub accepted: u64,
    pub dropped: u64,
    pub overwritten: u64,
    pub truncated: u64,
    pub write_errors: u64,
}

pub open spec fn zero_stats() -> SinkStats {
    SinkStats { accepted: 0, dropped: 0, overwritten: 0, truncated: 0, write_errors: 0 }
}

impl Default for SinkStats {
    fn default() -> (r: SinkStats)
        ensures
            r == zero_stats(),
    {
        SinkStats { accepted: 0, dropped: 0, overwritten: 0, truncated: 0, write_errors: 0 }
    }
}

/// A bounded in-memory buffer of owned records.
pub struct InMemorySink<'a> {
    capacity: usize,
    max_string_bytes: usize,
    overflow: OverflowPolicy,
    records: std::collections::VecDeque<OwnedProjectedEvent<'a>>,
    stats: SinkStats,
}

impl<'a> InMemorySink<'a> {
    pub closed spec fn spec_capacity(&self) -> usize {
        self.capacity
    }

    pub closed spec fn spec_max_string_bytes(&self) -> usize {
        self.max_string_bytes
    }

    pub closed spec fn spec_overflow(&self) -> OverflowPolicy {
        self.overflow
    }

    /// The retained records, oldest first.
    pub closed spec fn spec_records(&self) -> Seq<OwnedProjectedEvent<'a>> {
        self.records@
    }

    pub closed spec fn spec_stats(&self) -> SinkStats {
        self.stats
    }

    /// The buffer never holds more than its capacity.
    pub open spec fn wf(&self) -> bool {
        self.spec_records().len() <= self.spec_capacity()
    }

    pub fn new(capacity: usize, max_string_bytes: usize, overflow: OverflowPolicy) -> (r: Self)
        ensures
            r.wf(),
            r.spec_capacity() == capacity,
            r.spec_max_string_bytes() == max_string_bytes,
            r.spec_overflow() == overflow,
            r.spec_records() == Seq::<OwnedProjectedEvent<'a>>::empty(),
            r.spec_stats() == zero_stats(),
    {
        InMemorySink {
            capacity,
            max_string_bytes,
            overflow,
            records: std::collections::VecDeque::new(),
            stats: SinkStats { accepted: 0, dropped: 0, overwritten: 0, truncated: 0, write_errors: 0 },
        }
    }

    /// Removes and returns every retained record, oldest first.
    pub fn drain(&mut self) -> (r: Vec<OwnedProjectedEvent<'a>>)
        ensures
            r@ == old(self).spec_records(),
            final(self).spec_records() == Seq::<OwnedProjectedEvent<'a>>::empty(),
            final(self).spec_stats() == old(self).spec_stats(),
            final(self).spec_capacity() == old(self).spec_capacity(),
            final(self).spec_max_string_bytes() == old(self).spec_max_string_bytes(),
            final(self).spec_overflow() == old(self).spec_overflow(),
    {
        let mut out: Vec<OwnedProjectedEvent<'a>> = Vec::new();
        let ghost all = self.records@;
        while self.records.len() > 0
            invariant
                all == out@ + self.records@,
                self.capacity == old(self).capacity,
                self.max_string_bytes == old(self).max_string_bytes,
                self.overflow == old(self).overflow,
                self.stats == old(self).stats,
                all == old(self).records@,
            decreases self.records@.len(),
        {
            let ghost before = self.records@;
            match self.records.pop_front() {
                Some(e) => {
                    out.push(e);
                    proof {
                        assert(all =~= out@ + self.records@);
                    }
                },
                None => {},
            }
        }
        proof {
            assert(out@ =~= all);
        }
        out
    }

    pub fn stats(&self) -> (r: SinkStats)
        ensures
            r == self.spec_stats(),
    {
        self.stats
    }

    /// Keeps an owned copy of `event`. With no capacity the event is
    /// dropped; when full, `DropNewest` drops it and `OverwriteOldest`
    /// evicts the oldest record to make room.
    pub fn emit(&mut self, event: ProjectedEvent<'a>)
        requires
            old(self).wf(),
            event.fields@.len() < usize::MAX,
        ensures
            final(self).wf(),
            final(self).spec_capacity() == old(self).spec_capacity(),
            final(self).spec_max_string_bytes() == old(self).spec_max_string_bytes(),
            final(self).spec_overflow() == old(self).spec_overflow(),
            final(self).spec_stats().write_errors == old(self).spec_stats().write_errors,
            old(self).spec_capacity() == 0 ==> {
                &&& final(self).spec_records() == old(self).spec_records()
                &&& final(self).spec_stats() == (SinkStats {
                    dropped: wrap_add(old(self).spec_stats().dropped, 1),
                    ..old(self).spec_stats()
                })
            },
            old(self).spec_capacity() > 0 ==> {
                let max = old(self).spec_max_string_bytes();
                let st = old(self).spec_stats();
                let truncated = wrap_add(st.truncated, truncation_count(event, max) as u64);
                let full = old(self).spec_records().len() == old(self).spec_capacity();
                if full && old(self).spec_overflow() == OverflowPolicy::DropNewest {
                    &&& final(self).spec_records() == old(self).spec_records()
                    &&& final(self).spec_stats() == (SinkStats {
                        dropped: wrap_add(st.dropped, 1),
                        truncated,
                        ..st
                    })
                } else {
                    let kept = if full {
                        old(self).spec_records().drop_first()
                    } else {
                        old(self).spec_records()
                    };
                    &&& final(self).spec_records().len() == kept.len() + 1
                    &&& final(self).spec_records().drop_last() == kept
                    &&& copies(final(self).spec_records().last(), event, max)
                    &&& final(self).spec_stats() == (SinkStats {
                        accepted: wrap_add(st.accepted, 1),
                        overwritten: if full {
                            wrap_add(st.overwritten, 1)
                        } else {
                            st.overwritten
                        },
                        truncated,
                        ..st
                    })
                }
            },
    {
        if self.capacity == 0 {
            self.stats.dropped = self.stats.dropped.wrapping_add(1);
            return;
        }
        let owned = OwnedProjectedEvent::copy_from(event, self.max_string_bytes);
        self.stats.truncated = self.stats.truncated.wrapping_add(owned.truncated_fields as u64);
        if self.records.len() == self.capacity {
            match self.overflow {
                OverflowPolicy::DropNewest => {
                    self.stats.dropped = self.stats.dropped.wrapping_add(1);
                    return;
                },
                OverflowPolicy::OverwriteOldest => {
                    self.records.pop_front();
                    self.stats.overwritten = self.stats.overwritten.wrapping_add(1);
                },
            }
        }
        let ghost kept = self.records@;
        self.records.push_back(owned);
        proof {
            assert(self.records@.drop_last() =~= kept);
        }
        self.stats.accepted = self.stats.accepted.wrapping_add(1);
    }
}


/// Declares `std::io::ErrorKind`, carried opaquely inside `FlushErrorKind`.
#[verifier::external_type_specification]
#[verifier::external_body]
pub struct ExIoErrorKind(std::io::ErrorKind);

/// The kind of a flush failure: the writer stopped before the barrier (a
/// broken pipe), or the kind of the I/O error that a write or flush gave.
#[derive(Clone, Copy, Debug, PartialEq, Eq, Hash)]
pub enum FlushErrorKind {
    BrokenPipe,
    Io(std::io::ErrorKind),
}

/// Why a flush barrier failed: the kind and text of the I/O error.
#[derive(Debug, PartialEq, Eq, Hash)]
pub struct FlushError {
    pub kind: FlushErrorKind,
    pub message: String,
}

fn copy_error(e: &FlushError) -> (r: FlushError)
    ensures
        r.kind == e.kind,
        r.message@ == e.message@,
{
    FlushError { kind: e.kind, message: e.message.clone() }
}

impl Clone for FlushError {
    fn clone(&self) -> (r: FlushError)
        ensures
            r.kind == self.kind,
            r.message@ == self.message@,
    {
        copy_error(self)
    }
}

pub open spec fn stopped_message() -> Seq<char> {
    "logwise sink worker stopped before the barrier"@
}

pub open spec fn same_error(r: Option<Result<(), FlushError>>, e: FlushError) -> bool {
    &&& r matches Some(Err(x))
    &&& x.kind == e.kind
    &&& x.message@ == e.message@
}

/// A reached barrier reports the flush error recorded at or after its
/// target, else the first write error at or before it, else success.
pub open spec fn barrier_outcome(
    r: Option<Result<(), FlushError>>,
    flush_error: Option<(u64, FlushError)>,
    write_error: Option<(u64, FlushError)>,
    target: u64,
) -> bool {
    match flush_error {
        Some((s, e)) if s >= target => same_error(r, e),
        _ => match write_error {
            Some((s, e)) if s <= target => same_error(r, e),
            _ => r == Some(Ok::<(), FlushError>(())),
        },
    }
}

/// A queued owned record and the sequence number it was accepted under.
#[derive(Debug)]
pub struct QueuedEvent<'a> {
    pub sequence: u64,
    pub event: OwnedProjectedEvent<'a>,
}

/// What the writer thread should do next.
#[derive(Debug)]
pub enum WorkerTake<'a> {
    /// Write this record.
    Event(QueuedEvent<'a>),
    /// Nothing to write, but a flush or shutdown is pending.
    Proceed,
    /// Nothing to do until more work arrives.
    Wait,
}

/// The state an asynchronous sink shares between producers and its writer
/// thread: a bounded queue of sequenced records, the flush barrier
/// watermarks, the first write error and the last flush error.
#[derive(Debug)]
pub struct AsyncState<'a> {
    pub capacity: usize,
    pub max_string_bytes: usize,
    pub overflow: OverflowPolicy,
    pub events: std::collections::VecDeque<QueuedEvent<'a>>,
    pub shutdown: bool,
    pub next_sequence: u64,
    pub processed_sequence: u64,
    pub requested_flush: u64,
    pub flushed_sequence: u64,
    pub stopped: bool,
    pub last_flush_error: Option<(u64, FlushError)>,
    pub last_write_error: Option<(u64, FlushError)>,
    pub stats: SinkStats,
}

/// The sequence numbers of queued records, front first.
pub open spec fn queue_seqs(events: Seq<QueuedEvent>) -> Seq<u64> {
    events.map_values(|e: QueuedEvent| e.sequence)
}

/// A barrier is pending and reaches back to the oldest queued record.
pub open spec fn front_is_guarded(st: AsyncState) -> bool {
    &&& st.requested_flush > st.flushed_sequence
    &&& st.events@.len() > 0
    &&& st.events@[0].sequence <= st.requested_flush
}

impl<'a> AsyncState<'a> {
    /// The queue is bounded and ordered by sequence; every queued record is
    /// newer than the last one processed; the watermarks are ordered.
    pub open spec fn wf(&self) -> bool {
        &&& self.events@.len() <= self.capacity
        &&& forall|i: int, j: int|
            0 <= i < j < self.events@.len() ==> #[trigger] self.events@[i].sequence
                < #[trigger] self.events@[j].sequence
        &&& forall|i: int|
            0 <= i < self.events@.len() ==> self.processed_sequence < #[trigger] self.events@[i].sequence
                <= self.next_sequence
        &&& self.flushed_sequence <= self.processed_sequence <= self.next_sequence
        &&& self.requested_flush <= self.next_sequence
    }

    pub fn new(capacity: usize, max_string_bytes: usize, overflow: OverflowPolicy) -> (r: Self)
        ensures
            r.wf(),
            r.capacity == capacity,
            r.max_string_bytes == max_string_bytes,
            r.overflow == overflow,
            r.events@.len() == 0,
            !r.shutdown,
            !r.stopped,
            r.next_sequence == 0,
            r.processed_sequence == 0,
            r.requested_flush == 0,
            r.flushed_sequence == 0,
            r.last_flush_error is None,
            r.last_write_error is None,
            r.stats == zero_stats(),
    {
        AsyncState {
            capacity,
            max_string_bytes,
            overflow,
            events: std::collections::VecDeque::new(),
            shutdown: false,
            next_sequence: 0,
            processed_sequence: 0,
            requested_flush: 0,
            flushed_sequence: 0,
            stopped: false,
            last_flush_error: None,
            last_write_error: None,
            stats: SinkStats { accepted: 0, dropped: 0, overwritten: 0, truncated: 0, write_errors: 0 },
        }
    }

    /// Queues an owned copy of `event` under the next sequence number.
    /// Dropped when the sink has no capacity or has stopped; when full,
    /// `DropNewest` drops it, and `OverwriteOldest` evicts the oldest record
    /// unless a pending flush barrier covers that record, in which case the
    /// new one is dropped instead. Returns whether the record was queued.
    pub fn emit(&mut self, event: ProjectedEvent<'a>) -> (queued: bool)
        requires
            old(self).wf(),
            old(self).next_sequence < u64::MAX,
            event.fields@.len() < usize::MAX,
        ensures
            final(self).wf(),
            final(self).capacity == old(self).capacity,
            final(self).max_string_bytes == old(self).max_string_bytes,
            final(self).overflow == old(self).overflow,
            final(self).shutdown == old(self).shutdown,
            final(self).stopped == old(self).stopped,
            final(self).processed_sequence == old(self).processed_sequence,
            final(self).requested_flush == old(self).requested_flush,
            final(self).flushed_sequence == old(self).flushed_sequence,
            final(self).last_flush_error == old(self).last_flush_error,
            final(self).last_write_error == old(self).last_write_error,
            final(self).stats.write_errors == old(self).stats.write_errors,
            queued ==> final(self).stats.accepted == wrap_add(old(self).stats.accepted, 1)
                && final(self).stats.dropped == old(self).stats.dropped,
            !queued ==> final(self).stats.dropped == wrap_add(old(self).stats.dropped, 1)
                && final(self).stats.accepted == old(self).stats.accepted
                && final(self).stats.overwritten == old(self).stats.overwritten,
            final(self).stats.overwritten != old(self).stats.overwritten ==> queued && old(self).overflow
                == OverflowPolicy::OverwriteOldest,
            queue_seqs(old(self).events@) + (if queued {
                seq![final(self).next_sequence]
            } else {
                Seq::empty()
            }) == (if queued && old(self).events@.len() == old(self).capacity {
                seq![old(self).events@[0].sequence]
            } else {
                Seq::empty()
            }) + queue_seqs(final(self).events@),
            ({
                let st = old(self).stats;
                let max = old(self).max_string_bytes;
                let full = old(self).events@.len() == old(self).capacity;
                if old(self).capacity == 0 || old(self).stopped {
                    &&& !queued
                    &&& final(self).events@ == old(self).events@
                    &&& final(self).next_sequence == old(self).next_sequence
                    &&& final(self).stats == (SinkStats { dropped: wrap_add(st.dropped, 1), ..st })
                } else if full && (old(self).overflow == OverflowPolicy::DropNewest
                    || front_is_guarded(*old(self))) {
                    &&& !queued
                    &&& final(self).events@ == old(self).events@
                    &&& final(self).next_sequence == old(self).next_sequence
                    &&& final(self).stats == (SinkStats {
                        dropped: wrap_add(st.dropped, 1),
                        truncated: wrap_add(st.truncated, truncation_count(event, max) as u64),
                        ..st
                    })
                } else {
                    let kept = if full {
                        old(self).events@.drop_first()
                    } else {
                        old(self).events@
                    };
                    &&& queued
                    &&& final(self).next_sequence == old(self).next_sequence + 1
                    &&& final(self).events@.len() == kept.len() + 1
                    &&& final(self).events@.drop_last() == kept
                    &&& final(self).events@.last().sequence == final(self).next_sequence
                    &&& copies(final(self).events@.last().event, event, max)
                    &&& final(self).stats == (SinkStats {
                        accepted: wrap_add(st.accepted, 1),
                        overwritten: if full {
                            wrap_add(st.overwritten, 1)
                        } else {
                            st.overwritten
                        },
                        truncated: wrap_add(st.truncated, truncation_count(event, max) as u64),
                        ..st
                    })
                }
            }),
    {
        if self.capacity == 0 || self.stopped {
            self.stats.dropped = self.stats.dropped.wrapping_add(1);
            return false;
        }
        let owned = OwnedProjectedEvent::copy_from(event, self.max_string_bytes);
        self.stats.truncated = self.stats.truncated.wrapping_add(owned.truncated_fields as u64);
        if self.events.len() == self.capacity {
            match self.overflow {
                OverflowPolicy::DropNewest => {
                    self.stats.dropped = self.stats.dropped.wrapping_add(1);
                    return false;
                },
                OverflowPolicy::OverwriteOldest => {
                    let guarded = self.requested_flush > self.flushed_sequence
                        && self.events.len() > 0 && self.events[0].sequence <= self.requested_flush;
                    if guarded {
                        self.stats.dropped = self.stats.dropped.wrapping_add(1);
                        return false;
                    }
                    self.events.pop_front();
                    self.stats.overwritten = self.stats.overwritten.wrapping_add(1);
                },
            }
        }
        let sequence = self.next_sequence + 1;
        self.next_sequence = sequence;
        let ghost kept = self.events@;
        self.events.push_back(QueuedEvent { sequence, event: owned });
        proof {
            assert(self.events@.drop_last() =~= kept);
            let ob = old(self).events@;
            if ob.len() == self.capacity {
                assert(kept =~= ob.drop_first());
                assert(queue_seqs(ob) =~= seq![ob[0].sequence] + queue_seqs(kept));
            } else {
                assert(kept =~= ob);
            }
            assert(queue_seqs(self.events@) =~= queue_seqs(kept).push(sequence));
        }
        self.stats.accepted = self.stats.accepted.wrapping_add(1);
        true
    }

    /// Starts a flush barrier over every record accepted so far and returns
    /// its target sequence.
    pub fn request_flush(&mut self) -> (target: u64)
        requires
            old(self).wf(),
        ensures
            final(self).wf(),
            target == old(self).next_sequence,
            final(self).requested_flush == if old(self).requested_flush < target {
                target
            } else {
                old(self).requested_flush
            },
            *final(self) == (AsyncState { requested_flush: final(self).requested_flush, ..*old(self) }),
    {
        let target = self.next_sequence;
        if self.requested_flush < target {
            self.requested_flush = target;
        }
        target
    }

    /// Asks the writer to drain everything accepted so far and then stop.
    pub fn begin_shutdown(&mut self)
        requires
            old(self).wf(),
        ensures
            final(self).wf(),
            *final(self) == (AsyncState {
                shutdown: true,
                requested_flush: old(self).next_sequence,
                ..*old(self)
            }),
    {
        self.shutdown = true;
        self.requested_flush = self.next_sequence;
    }

    /// The writer's next step: the oldest queued record if there is one;
    /// otherwise proceed when a flush is pending or shutdown was asked for,
    /// and wait when neither holds.
    pub fn take_next(&mut self) -> (r: WorkerTake<'a>)
        requires
            old(self).wf(),
        ensures
            final(self).wf(),
            queue_seqs(old(self).events@) == (match r {
                WorkerTake::Event(e) => seq![e.sequence],
                _ => Seq::empty(),
            }) + queue_seqs(final(self).events@),
            old(self).events@.len() > 0 ==> {
                &&& r matches WorkerTake::Event(e)
                &&& e == old(self).events@[0]
                &&& *final(self) == (AsyncState { events: final(self).events, ..*old(self) })
                &&& final(self).events@ == old(self).events@.drop_first()
                &&& old(self).processed_sequence < e.sequence <= old(self).next_sequence
                &&& forall|i: int|
                    0 <= i < final(self).events@.len() ==> e.sequence
                        < #[trigger] final(self).events@[i].sequence
            },
            old(self).events@.len() == 0 ==> {
                &&& *final(self) == (AsyncState { events: final(self).events, ..*old(self) })
                &&& final(self).events@ == old(self).events@
                &&& if old(self).requested_flush > old(self).flushed_sequence || old(self).shutdown {
                    r is Proceed
                } else {
                    r is Wait
                }
            },
    {
        let ghost before = self.events@;
        match self.events.pop_front() {
            Some(e) => {
                proof {
                    assert(self.events@ =~= before.drop_first());
                    assert forall|i: int| 0 <= i < self.events@.len() implies e.sequence
                        < #[trigger] self.events@[i].sequence by {
                        assert(self.events@[i] == before[i + 1]);
                    }
                }
                WorkerTake::Event(e)
            },
            None => {
                if self.requested_flush > self.flushed_sequence || self.shutdown {
                    WorkerTake::Proceed
                } else {
                    WorkerTake::Wait
                }
            },
        }
    }

    /// Records that the record `sequence` was handed to the writer, with the
    /// write's error if it failed. Only the first write error is kept.
    pub fn record_write(&mut self, sequence: u64, error: Option<FlushError>)
        requires
            old(self).wf(),
            old(self).processed_sequence < sequence <= old(self).next_sequence,
            forall|i: int|
                0 <= i < old(self).events@.len() ==> sequence < #[trigger] old(
                    self,
                ).events@[i].sequence,
        ensures
            final(self).wf(),
            final(self).processed_sequence == sequence,
            final(self).stats == match error {
                Some(_) => SinkStats {
                    write_errors: wrap_add(old(self).stats.write_errors, 1),
                    ..old(self).stats
                },
                None => old(self).stats,
            },
            final(self).last_write_error == match (old(self).last_write_error, error) {
                (None, Some(e)) => Some((sequence, e)),
                _ => old(self).last_write_error,
            },
            *final(self) == (AsyncState {
                processed_sequence: sequence,
                stats: final(self).stats,
                last_write_error: final(self).last_write_error,
                ..*old(self)
            }),
    {
        match error {
            Some(e) => {
                self.stats.write_errors = self.stats.write_errors.wrapping_add(1);
                if self.last_write_error.is_none() {
                    self.last_write_error = Some((sequence, e));
                }
            },
            None => {},
        }
        self.processed_sequence = sequence;
    }

    /// Whether every record a pending barrier covers has been written and
    /// the writer should now be flushed.
    pub fn flush_due(&self) -> (r: bool)
        ensures
            r == (self.requested_flush <= self.processed_sequence && self.requested_flush
                > self.flushed_sequence),
    {
        self.requested_flush <= self.processed_sequence && self.requested_flush > self.flushed_sequence
    }

    /// Records the outcome of flushing the writer: everything processed is
    /// now flushed, and the last flush error is replaced.
    pub fn record_flush(&mut self, error: Option<FlushError>)
        requires
            old(self).wf(),
        ensures
            final(self).wf(),
            final(self).flushed_sequence == old(self).processed_sequence,
            final(self).last_flush_error == match error {
                Some(e) => Some((old(self).processed_sequence, e)),
                None => None,
            },
            final(self).stats == match error {
                Some(_) => SinkStats {
                    write_errors: wrap_add(old(self).stats.write_errors, 1),
                    ..old(self).stats
                },
                None => old(self).stats,
            },
            *final(self) == (AsyncState {
                flushed_sequence: old(self).processed_sequence,
                last_flush_error: final(self).last_flush_error,
                stats: final(self).stats,
                ..*old(self)
            }),
    {
        match error {
            Some(e) => {
                self.stats.write_errors = self.stats.write_errors.wrapping_add(1);
                self.last_flush_error = Some((self.processed_sequence, e));
            },
            None => {
                self.last_flush_error = None;
            },
        }
        self.flushed_sequence = self.processed_sequence;
    }

    /// Whether the writer may stop: shutdown was asked for and the queue is
    /// empty.
    pub fn should_stop(&self) -> (r: bool)
        ensures
            r == (self.shutdown && self.events@.len() == 0),
    {
        self.shutdown && self.events.len() == 0
    }

    /// Marks the writer stopped; everything processed counts as flushed.
    /// Returns whether a last flush of the writer is owed.
    pub fn stop(&mut self) -> (flush_owed: bool)
        requires
            old(self).wf(),
        ensures
            final(self).wf(),
            flush_owed == (old(self).flushed_sequence < old(self).processed_sequence),
            *final(self) == (AsyncState {
                flushed_sequence: old(self).processed_sequence,
                stopped: true,
                ..*old(self)
            }),
    {
        let owed = self.flushed_sequence < self.processed_sequence;
        self.flushed_sequence = self.processed_sequence;
        self.stopped = true;
        owed
    }

    /// Records that the writer thread died: one more write error, and the
    /// sink stops accepting.
    pub fn worker_failed(&mut self)
        requires
            old(self).wf(),
        ensures
            final(self).wf(),
            *final(self) == (AsyncState {
                stopped: true,
                stats: SinkStats {
                    write_errors: wrap_add(old(self).stats.write_errors, 1),
                    ..old(self).stats
                },
                ..*old(self)
            }),
    {
        self.stats.write_errors = self.stats.write_errors.wrapping_add(1);
        self.stopped = true;
    }

    /// The outcome of the barrier with `target`, once there is one: `None`
    /// while the writer has not flushed that far and still runs; an error
    /// if it stopped first; otherwise the flush error recorded at or after
    /// the target, else the first write error at or before it, else `Ok`.
    pub fn barrier_result(&self, target: u64) -> (r: Option<Result<(), FlushError>>)
        ensures
            self.flushed_sequence < target && !self.stopped ==> r is None,
            self.flushed_sequence < target && self.stopped ==> (r matches Some(Err(e))
                && e.kind == FlushErrorKind::BrokenPipe && e.message@ == stopped_message()),
            self.flushed_sequence >= target ==> barrier_outcome(
                r,
                self.last_flush_error,
                self.last_write_error,
                target,
            ),
    {
        if self.flushed_sequence < target {
            if self.stopped {
                return Some(
                    Err(
                        FlushError {
                            kind: FlushErrorKind::BrokenPipe,
                            message: String::from_str("logwise sink worker stopped before the barrier"),
                        },
                    ),
                );
            }
            return None;
        }
        match &self.last_flush_error {
            Some((s, e)) => {
                if *s >= target {
                    return Some(Err(copy_error(e)));
                }
            },
            None => {},
        }
        match &self.last_write_error {
            Some((s, e)) => {
                if *s <= target {
                    return Some(Err(copy_error(e)));
                }
            },
            None => {},
        }
        Some(Ok(()))
    }
}


/// A synchronous sink that renders each projected event to standard error.
#[derive(Clone, Copy, Debug)]
pub struct ConsoleSink;

impl Default for ConsoleSink {
    fn default() -> (r: ConsoleSink)
        ensures
            r == ConsoleSink,
    {
        ConsoleSink
    }
}

/// The name `{:?}` gives a severity.
pub open spec fn severity_name(s: Severity) -> Seq<char> {
    match s {
        Severity::Trace => "Trace"@,
        Severity::Debug => "Debug"@,
        Severity::Info => "Info"@,
        Severity::Warn => "Warn"@,
        Severity::Error => "Error"@,
    }
}

fn push_severity(s: &mut String, severity: Severity)
    ensures
        final(s)@ == old(s)@ + severity_name(severity),
{
    match severity {
        Severity::Trace => s.append("Trace"),
        Severity::Debug => s.append("Debug"),
        Severity::Info => s.append("Info"),
        Severity::Warn => s.append("Warn"),
        Severity::Error => s.append("Error"),
    }
}

/// The `{:?}` rendering of an owned value; a float's digits are
/// `float_text`, which the caller renders.
pub open spec fn owned_value_text(v: OwnedValue, float_text: Seq<char>) -> Seq<char> {
    match v {
        OwnedValue::Bool(b) => "Bool("@ + (if b {
            "true"@
        } else {
            "false"@
        }) + ")"@,
        OwnedValue::I64(n) => "I64("@ + signed_decimal(n as int) + ")"@,
        OwnedValue::U64(n) => "U64("@ + decimal(n as nat) + ")"@,
        OwnedValue::F64Bits(_) => "F64("@ + float_text + ")"@,
        OwnedValue::String(x) => "String("@ + debug_quoted(x@) + ")"@,
    }
}

/// ` name=value` for each field in order.
pub open spec fn fields_text(fields: Seq<OwnedField>, float_texts: Seq<Seq<char>>) -> Seq<char>
    decreases fields.len(),
{
    if fields.len() == 0 {
        Seq::empty()
    } else {
        let i = fields.len() - 1;
        fields_text(fields.drop_last(), float_texts) + " "@ + fields[i].name@ + "="@
            + owned_value_text(fields[i].value, float_texts[i])
    }
}

/// The line a structured writer writes for `e`: severity, event name, the
/// message if any, each field as `name=value`, and a newline.
pub open spec fn structured_line_text(e: OwnedProjectedEvent, float_texts: Seq<Seq<char>>) -> Seq<char> {
    severity_name(e.metadata.severity) + " "@ + e.metadata.event_name@ + (match e.message {
        Some(m) => " "@ + m@,
        None => Seq::empty(),
    }) + fields_text(e.fields@, float_texts) + "\n"@
}

fn push_owned_value(s: &mut String, v: &OwnedValue, float_text: &String)
    ensures
        final(s)@ == old(s)@ + owned_value_text(*v, float_text@),
{
    let ghost s0 = s@;
    match v {
        OwnedValue::Bool(b) => {
            s.append("Bool(");
            if *b {
                s.append("true");
            } else {
                s.append("false");
            }
            s.append(")");
        },
        OwnedValue::I64(n) => {
            s.append("I64(");
            push_decimal_i64(s, *n);
            s.append(")");
        },
        OwnedValue::U64(n) => {
            s.append("U64(");
            push_decimal_u64(s, *n);
            s.append(")");
        },
        OwnedValue::F64Bits(_) => {
            s.append("F64(");
            s.append(float_text.as_str());
            s.append(")");
        },
        OwnedValue::String(x) => {
            s.append("String(");
            let quoted = debug_quote(x.as_str());
            s.append(quoted.as_str());
            s.append(")");
        },
    }
    assert(s@ =~= s0 + owned_value_text(*v, float_text@));
}

/// The line a structured writer writes for `event`. Floating-point values
/// are rendered by the caller: `float_texts[i]` is the text of field `i`
/// when that field holds a float, and is ignored otherwise.
pub fn structured_line(event: &OwnedProjectedEvent, float_texts: &Vec<String>) -> (r: String)
    requires
        float_texts@.len() == event.fields@.len(),
    ensures
        r@ == structured_line_text(*event, float_texts@.map_values(|t: String| t@)),
{
    let ghost ft = float_texts@.map_values(|t: String| t@);
    let mut s = String::new();
    push_severity(&mut s, event.metadata.severity);
    s.append(" ");
    s.append(event.metadata.event_name);
    match &event.message {
        Some(m) => {
            s.append(" ");
            s.append(m.as_str());
        },
        None => {},
    }
    let ghost head = s@;
    assert(head == severity_name(event.metadata.severity) + " "@ + event.metadata.event_name@ + (
    match event.message {
        Some(m) => " "@ + m@,
        None => Seq::empty(),
    }));
    let mut i: usize = 0;
    while i < event.fields.len()
        invariant
            i <= event.fields@.len(),
            float_texts@.len() == event.fields@.len(),
            ft == float_texts@.map_values(|t: String| t@),
            s@ == head + fields_text(event.fields@.subrange(0, i as int), ft),
        decreases event.fields@.len() - i,
    {
        let ghost before = event.fields@.subrange(0, i as int);
        let ghost after = event.fields@.subrange(0, i + 1);
        assert(after.drop_last() =~= before);
        let field = &event.fields[i];
        s.append(" ");
        s.append(field.name);
        s.append("=");
        push_owned_value(&mut s, &field.value, &float_texts[i]);
        assert(s@ =~= head + fields_text(after, ft));
        i = i + 1;
    }
    assert(event.fields@.subrange(0, event.fields@.len() as int) =~= event.fields@);
    s.append("\n");
    assert(s@ =~= structured_line_text(*event, ft));
    s
}

/// The console rendering of a borrowed value; a float's digits are
/// `float_text`, which the caller renders.
pub open spec fn value_ref_text(v: ValueRef, float_text: Seq<char>) -> Seq<char> {
    match v {
        ValueRef::Bool(b) => "Bool("@ + (if b {
            "true"@
        } else {
            "false"@
        }) + ")"@,
        ValueRef::I64(n) => "I64("@ + signed_decimal(n as int) + ")"@,
        ValueRef::U64(n) => "U64("@ + decimal(n as nat) + ")"@,
        ValueRef::F64Bits(_) => "F64("@ + float_text + ")"@,
        ValueRef::Str(x) => "Str("@ + debug_quoted(x@) + ")"@,
        ValueRef::Debug(x) => "Debug("@ + x@ + ")"@,
        ValueRef::Display(x) => "Display("@ + x@ + ")"@,
    }
}

/// ` name=value` for each projected field in order.
pub open spec fn projected_fields_text(fields: Seq<ProjectedField>, float_texts: Seq<Seq<char>>) -> Seq<char>
    decreases fields.len(),
{
    if fields.len() == 0 {
        Seq::empty()
    } else {
        let i = fields.len() - 1;
        projected_fields_text(fields.drop_last(), float_texts) + " "@ + fields[i].name@ + "="@
            + value_ref_text(fields[i].value, float_texts[i])
    }
}

/// The console line for `e`: severity, event name, the message if any, each
/// field as `name=value`, and the count of omitted fields when there are any.
pub open spec fn console_line_text(e: ProjectedEvent, float_texts: Seq<Seq<char>>) -> Seq<char> {
    severity_name(e.metadata.severity) + " "@ + e.metadata.event_name@ + (match e.message {
        Some(m) => " "@ + m@,
        None => Seq::empty(),
    }) + projected_fields_text(e.fields@, float_texts) + if e.omitted_fields != 0 {
        " omitted="@ + decimal(e.omitted_fields as nat)
    } else {
        Seq::empty()
    }
}

fn push_value_ref(s: &mut String, v: ValueRef, float_text: &String)
    ensures
        final(s)@ == old(s)@ + value_ref_text(v, float_text@),
{
    let ghost s0 = s@;
    match v {
        ValueRef::Bool(b) => {
            s.append("Bool(");
            if b {
                s.append("true");
            } else {
                s.append("false");
            }
            s.append(")");
        },
        ValueRef::I64(n) => {
            s.append("I64(");
            push_decimal_i64(s, n);
            s.append(")");
        },
        ValueRef::U64(n) => {
            s.append("U64(");
            push_decimal_u64(s, n);
            s.append(")");
        },
        ValueRef::F64Bits(_) => {
            s.append("F64(");
            s.append(float_text.as_str());
            s.append(")");
        },
        ValueRef::Str(x) => {
            s.append("Str(");
            let quoted = debug_quote(x);
            s.append(quoted.as_str());
            s.append(")");
        },
        ValueRef::Debug(x) => {
            s.append("Debug(");
            s.append(x);
            s.append(")");
        },
        ValueRef::Display(x) => {
            s.append("Display(");
            s.append(x);
            s.append(")");
        },
    }
    assert(s@ =~= s0 + value_ref_text(v, float_text@));
}

/// The line the console sink prints for `event`, without its newline.
/// Floating-point values are rendered by the caller: `float_texts[i]` is the
/// text of field `i` when that field holds a float, and is ignored otherwise.
pub fn console_line(event: &ProjectedEvent, float_texts: &Vec<String>) -> (r: String)
    requires
        float_texts@.len() == event.fields@.len(),
    ensures
        r@ == console_line_text(*event, float_texts@.map_values(|t: String| t@)),
{
    let ghost ft = float_texts@.map_values(|t: String| t@);
    let mut s = String::new();
    push_severity(&mut s, event.metadata.severity);
    s.append(" ");
    s.append(event.metadata.event_name);
    match event.message {
        Some(m) => {
            s.append(" ");
            s.append(m);
        },
        None => {},
    }
    let ghost head = s@;
    let mut i: usize = 0;
    while i < event.fields.len()
        invariant
            i <= event.fields@.len(),
            float_texts@.len() == event.fields@.len(),
            ft == float_texts@.map_values(|t: String| t@),
            s@ == head + projected_fields_text(event.fields@.subrange(0, i as int), ft),
        decreases event.fields@.len() - i,
    {
        let ghost before = event.fields@.subrange(0, i as int);
        let ghost after = event.fields@.subrange(0, i + 1);
        assert(after.drop_last() =~= before);
        let field = event.fields[i];
        s.append(" ");
        s.append(field.name);
        s.append("=");
        push_value_ref(&mut s, field.value, &float_texts[i]);
        assert(s@ =~= head + projected_fields_text(after, ft));
        i = i + 1;
    }
    assert(event.fields@.subrange(0, event.fields@.len() as int) =~= event.fields@);
    if event.omitted_fields != 0 {
        s.append(" omitted=");
        push_decimal(&mut s, event.omitted_fields);
    }
    assert(s@ =~= console_line_text(*event, ft));
    s
}

/// An owned-event writer over any byte sink `W`.
#[derive(Debug)]
pub struct StructuredWriter<W> {
    writer: W,
}

impl<W> StructuredWriter<W> {
    pub closed spec fn spec_writer(&self) -> W {
        self.writer
    }

    pub fn new(writer: W) -> (r: Self)
        ensures
            r.spec_writer() == writer,
    {
        StructuredWriter { writer }
    }

    /// Gives the wrapped writer back.
    pub fn into_inner(self) -> (r: W)
        ensures
            r == self.spec_writer(),
    {
        self.writer
    }

    /// The wrapped writer, for writing records to it.
    pub fn writer_mut(&mut self) -> (r: &mut W)
        ensures
            *r == old(self).spec_writer(),
            final(self).spec_writer() == *final(r),
    {
        &mut self.writer
    }
}

/// The concatenation of `xs`, in order.
pub open spec fn concat_all(xs: Seq<Seq<u64>>) -> Seq<u64>
    decreases xs.len(),
{
    if xs.len() == 0 {
        Seq::empty()
    } else {
        concat_all(xs.drop_last()) + xs.last()
    }
}

/// A run of queue states `qs` (as sequence numbers) where step `i` appends
/// `appended[i]` at the back and removes `removed[i]` from the front: what
/// `emit` (accepting, overwriting) and `take_next` (handing a record to the
/// writer) state of the queue.
pub open spec fn queue_run(qs: Seq<Seq<u64>>, appended: Seq<Seq<u64>>, removed: Seq<Seq<u64>>) -> bool {
    &&& qs.len() == appended.len() + 1
    &&& removed.len() == appended.len()
    &&& forall|i: int| 0 <= i < appended.len() ==> #[trigger] qs[i] + appended[i] == removed[i] + qs[i + 1]
}

/// Every accepted record leaves the queue exactly once, in the order it was
/// accepted, either to the writer or overwritten: what the run removed,
/// followed by what is still queued, is what was queued at the start
/// followed by what the run accepted. A sink that starts empty and stops
/// with its queue drained (`should_stop`) has removed exactly what it
/// accepted, in order.
pub proof fn law_accepted_records_leave_once_in_order(
    qs: Seq<Seq<u64>>,
    appended: Seq<Seq<u64>>,
    removed: Seq<Seq<u64>>,
)
    requires
        queue_run(qs, appended, removed),
    ensures
        qs[0] + concat_all(appended) == concat_all(removed) + qs.last(),
    decreases appended.len(),
{
    let n = appended.len();
    if n == 0 {
        assert(qs[0] + concat_all(appended) =~= qs[0]);
        assert(concat_all(removed) + qs.last() =~= qs.last());
    } else {
        let qs0 = qs.drop_last();
        let a0 = appended.drop_last();
        let r0 = removed.drop_last();
        assert forall|i: int| 0 <= i < a0.len() implies #[trigger] qs0[i] + a0[i] == r0[i] + qs0[i + 1] by {
            assert(qs[i] + appended[i] == removed[i] + qs[i + 1]);
        }
        law_accepted_records_leave_once_in_order(qs0, a0, r0);
        let i = n - 1;
        assert(qs[i] + appended[i] == removed[i] + qs[i + 1]);
        assert(qs0.last() == qs[i]);
        assert(qs[0] + concat_all(appended) =~= (qs[0] + concat_all(a0)) + appended[i]);
        assert(concat_all(removed) + qs.last() =~= concat_all(r0) + (removed[i] + qs[i + 1]));
        assert((concat_all(r0) + qs[i]) + appended[i] =~= concat_all(r0) + (qs[i] + appended[i]));
    }
}

/// A run of the writer's processed watermark: a step that writes the record
/// `s` needs `s` above the watermark and leaves the watermark at `s`
/// (`take_next`, then `record_write`); any other step leaves it alone.
pub open spec fn writer_run(marks: Seq<u64>, written: Seq<Option<u64>>) -> bool {
    &&& marks.len() == written.len() + 1
    &&& forall|i: int|
        0 <= i < written.len() ==> match #[trigger] written[i] {
            Some(s) => marks[i] < s && marks[i + 1] == s,
            None => marks[i + 1] == marks[i],
        }
}

proof fn lemma_marks_rise(marks: Seq<u64>, written: Seq<Option<u64>>, i: int, j: int)
    requires
        writer_run(marks, written),
        0 <= i <= j < marks.len(),
    ensures
        marks[i] <= marks[j],
    decreases j - i,
{
    if i < j {
        lemma_marks_rise(marks, written, i, j - 1);
        assert(written[j - 1] is Some || written[j - 1] is None);
    }
}

/// The writer is handed records in strictly increasing sequence order, so
/// none twice.
pub proof fn law_writes_strictly_increase(marks: Seq<u64>, written: Seq<Option<u64>>, i: int, j: int)
    requires
        writer_run(marks, written),
        0 <= i < j < written.len(),
        written[i] is Some,
        written[j] is Some,
    ensures
        written[i]->0 < written[j]->0,
{
    assert(written[i] is Some && written[j] is Some);
    lemma_marks_rise(marks, written, i + 1, j);
}

/// The owned copy of a scalar value.
pub open spec fn owned_scalar(v: ValueRef) -> Option<OwnedValue> {
    match v {
        ValueRef::Bool(b) => Some(OwnedValue::Bool(b)),
        ValueRef::I64(x) => Some(OwnedValue::I64(x)),
        ValueRef::U64(x) => Some(OwnedValue::U64(x)),
        ValueRef::F64Bits(x) => Some(OwnedValue::F64Bits(x)),
        _ => None,
    }
}

/// A rendered value shows the value: a boolean reads `Bool(true)` or
/// `Bool(false)` after its value, and the console and structured lines
/// render every scalar the same way.
pub proof fn law_rendered_values_show_the_value(v: ValueRef, float_text: Seq<char>)
    ensures
        v matches ValueRef::Bool(b) ==> value_ref_text(v, float_text) == "Bool("@ + (if b {
            "true"@
        } else {
            "false"@
        }) + ")"@,
        v matches ValueRef::Bool(b) ==> owned_value_text(OwnedValue::Bool(b), float_text) == "Bool("@
            + (if b {
            "true"@
        } else {
            "false"@
        }) + ")"@,
        v matches ValueRef::Bool(b) ==> value_ref_text(v, float_text)[5] == (if b {
            't'
        } else {
            'f'
        }),
        owned_scalar(v) matches Some(o) ==> value_ref_text(v, float_text) == owned_value_text(o, float_text),
{
    reveal_strlit("Bool(");
    reveal_strlit("true");
    reveal_strlit("false");
    reveal_strlit("I64(");
    reveal_strlit("U64(");
    reveal_strlit("F64(");
}

} // verus!
