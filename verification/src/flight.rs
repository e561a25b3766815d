//! The flight recorder: bounded, sharded structured history that hosts and
//! agents query after a failure or live. Reads never block on a busy shard:
//! they report it, and then do not advance the cursor past it.

use vstd::prelude::*;

use crate::model::Privacy;
use crate::sinks::{
    copies, copies_parts, truncation_parts, OwnedField, OwnedProjectedEvent, OwnedValue,
    ProjectedEvent, ProjectedField,
};
use crate::wire::wrap_add;

verus! {

/// The privacy projection applied while querying retained history.
#[derive(Clone, Copy, Debug, PartialEq, Eq, Structural)]
pub enum RecorderView {
    /// A trusted local view: support-safe and local-only fields.
    Local,
    /// A support-safe view suitable for a remote peer.
    Remote,
}

impl Default for RecorderView {
    fn default() -> (r: RecorderView)
        ensures
            r == RecorderView::Local,
    {
        RecorderView::Local
    }
}

/// A monotonically increasing position in the recorder stream.
#[derive(Clone, Copy, Debug, PartialEq, Eq, Structural)]
pub struct FlightCursor(pub u64);

impl Default for FlightCursor {
    fn default() -> (r: FlightCursor)
        ensures
            r.0 == 0,
    {
        FlightCursor(0)
    }
}

/// One retained structured event and its stream position.
#[derive(Debug)]
pub struct FlightRecord<'a> {
    pub sequence: u64,
    pub event: OwnedProjectedEvent<'a>,
}

/// Cumulative recorder accounting; counters wrap modulo 2^64.
#[derive(Clone, Copy, Debug, PartialEq, Eq, Structural)]
pub struct FlightRecorderStats {
    pub accepted: u64,
    pub dropped: u64,
    pub overwritten: u64,
    pub truncated_fields: u64,
}

impl Default for FlightRecorderStats {
    fn default() -> (r: FlightRecorderStats)
        ensures
            r == (FlightRecorderStats { accepted: 0, dropped: 0, overwritten: 0, truncated_fields: 0 }),
    {
        FlightRecorderStats { accepted: 0, dropped: 0, overwritten: 0, truncated_fields: 0 }
    }
}

/// The result of a nonblocking read. With busy shards the cursor does not
/// advance, so a retry cannot step over a record that was unavailable.
#[derive(Debug)]
pub struct FlightRead<'a> {
    pub requested_cursor: FlightCursor,
    pub next_cursor: FlightCursor,
    pub records: Vec<FlightRecord<'a>>,
    pub dropped_total: u64,
    pub overwritten_total: u64,
    pub truncated_fields_total: u64,
    pub omitted_fields: usize,
    pub busy_shards: usize,
}

impl<'a> FlightRead<'a> {
    pub fn is_complete(&self) -> (r: bool)
        ensures
            r == (self.busy_shards == 0),
    {
        self.busy_shards == 0
    }
}

/// One shard: a fixed number of slots, oldest record first.
#[derive(Debug)]
pub struct Shard<'a> {
    pub capacity: usize,
    pub records: std::collections::VecDeque<FlightRecord<'a>>,
}

/// A fixed-slot, sharded structured event recorder.
#[derive(Debug)]
pub struct FlightRecorder<'a> {
    capacity: usize,
    max_string_bytes: usize,
    next_sequence: u64,
    shards: Vec<Shard<'a>>,
    stats: FlightRecorderStats,
}

// ---------------------------------------------------------------------------
// Projection of retained records.
// ---------------------------------------------------------------------------

/// Whether a field of this privacy is visible in `view`. Secrets never are.
pub open spec fn visible(view: RecorderView, p: Privacy) -> bool {
    p != Privacy::Secret && (view == RecorderView::Local || p == Privacy::SupportSafe)
}

/// The fields of `fs` visible in `view`, in order.
pub open spec fn visible_fields<'a>(fs: Seq<OwnedField<'a>>, view: RecorderView) -> Seq<OwnedField<'a>>
    decreases fs.len(),
{
    if fs.len() == 0 {
        Seq::empty()
    } else {
        visible_fields(fs.drop_last(), view) + if visible(view, fs.last().privacy) {
            seq![fs.last()]
        } else {
            Seq::empty()
        }
    }
}

pub open spec fn same_value(a: OwnedValue, b: OwnedValue) -> bool {
    match (a, b) {
        (OwnedValue::String(x), OwnedValue::String(y)) => x@ == y@,
        (OwnedValue::String(_), _) => false,
        (_, OwnedValue::String(_)) => false,
        _ => a == b,
    }
}

pub open spec fn same_field(a: OwnedField, b: OwnedField) -> bool {
    &&& a.name == b.name
    &&& a.privacy == b.privacy
    &&& a.detail == b.detail
    &&& same_value(a.value, b.value)
}

pub open spec fn same_fields(a: Seq<OwnedField>, b: Seq<OwnedField>) -> bool {
    &&& a.len() == b.len()
    &&& forall|i: int| 0 <= i < a.len() ==> same_field(#[trigger] a[i], b[i])
}

/// `out` is `r` as `view` shows it: invisible fields removed and counted as
/// omitted, and no message in the remote view.
pub open spec fn projects(out: FlightRecord, r: FlightRecord, view: RecorderView) -> bool {
    let kept = visible_fields(r.event.fields@, view);
    &&& out.sequence == r.sequence
    &&& out.event.metadata == r.event.metadata
    &&& out.event.context == r.event.context
    &&& out.event.truncated_fields == r.event.truncated_fields
    &&& same_fields(out.event.fields@, kept)
    &&& out.event.omitted_fields == r.event.omitted_fields + (r.event.fields@.len() - kept.len())
    &&& if view == RecorderView::Remote {
        out.event.message is None
    } else {
        match r.event.message {
            None => out.event.message is None,
            Some(m) => out.event.message matches Some(t) && t@ == m@,
        }
    }
}

proof fn lemma_visible_fields(fs: Seq<OwnedField>, view: RecorderView)
    ensures
        visible_fields(fs, view).len() <= fs.len(),
        forall|i: int|
            0 <= i < visible_fields(fs, view).len() ==> visible(
                view,
                #[trigger] visible_fields(fs, view)[i].privacy,
            ),
    decreases fs.len(),
{
    if fs.len() > 0 {
        lemma_visible_fields(fs.drop_last(), view);
    }
}

fn copy_value(v: &OwnedValue) -> (r: OwnedValue)
    ensures
        same_value(r, *v),
{
    match v {
        OwnedValue::Bool(x) => OwnedValue::Bool(*x),
        OwnedValue::I64(x) => OwnedValue::I64(*x),
        OwnedValue::U64(x) => OwnedValue::U64(*x),
        OwnedValue::F64Bits(x) => OwnedValue::F64Bits(*x),
        OwnedValue::String(s) => OwnedValue::String(s.clone()),
    }
}

/// The fields that `view` hides, added to the record's omitted count, fit
/// in a `usize`.
pub open spec fn projectable(r: FlightRecord, view: RecorderView) -> bool {
    r.event.omitted_fields + (r.event.fields@.len() - visible_fields(r.event.fields@, view).len()) <= usize::MAX
}

/// How many of `fields` `view` hides.
fn hidden_count(fields: &Vec<OwnedField>, view: RecorderView) -> (r: usize)
    ensures
        r == fields@.len() - visible_fields(fields@, view).len(),
{
    let ghost fs = fields@;
    let mut hidden: usize = 0;
    let mut i: usize = 0;
    proof {
        assert(fs.subrange(0, 0) =~= Seq::<OwnedField>::empty());
    }
    while i < fields.len()
        invariant
            fs == fields@,
            i <= fs.len(),
            hidden == i - visible_fields(fs.subrange(0, i as int), view).len(),
            visible_fields(fs.subrange(0, i as int), view).len() <= i,
        decreases fs.len() - i,
    {
        let ghost pre = fs.subrange(0, i as int);
        let ghost post = fs.subrange(0, i + 1);
        proof {
            assert(post.drop_last() =~= pre);
            assert(post.last() == fs[i as int]);
        }
        let f = &fields[i];
        let keep = match f.privacy {
            Privacy::Secret => false,
            Privacy::SupportSafe => true,
            Privacy::LocalOnly => view == RecorderView::Local,
        };
        if !keep {
            hidden = hidden + 1;
        }
        i = i + 1;
    }
    proof {
        assert(fs.subrange(0, fs.len() as int) =~= fs);
    }
    hidden
}

/// A copy of `record` as `view` shows it.
fn project_record<'a>(record: &FlightRecord<'a>, view: RecorderView) -> (r: FlightRecord<'a>)
    requires
        projectable(*record, view),
    ensures
        projects(r, *record, view),
{
    let ev = &record.event;
    let ghost fs = ev.fields@;
    let mut fields: Vec<OwnedField<'a>> = Vec::new();
    let mut i: usize = 0;
    proof {
        assert(fs.subrange(0, 0) =~= Seq::<OwnedField<'a>>::empty());
    }
    while i < ev.fields.len()
        invariant
            fs == ev.fields@,
            i <= fs.len(),
            same_fields(fields@, visible_fields(fs.subrange(0, i as int), view)),
        decreases fs.len() - i,
    {
        let ghost pre = fs.subrange(0, i as int);
        let ghost post = fs.subrange(0, i + 1);
        proof {
            assert(post.drop_last() =~= pre);
            assert(post.last() == fs[i as int]);
        }
        let f = &ev.fields[i];
        let keep = match f.privacy {
            Privacy::Secret => false,
            Privacy::SupportSafe => true,
            Privacy::LocalOnly => view == RecorderView::Local,
        };
        if keep {
            let value = copy_value(&f.value);
            fields.push(OwnedField { name: f.name, privacy: f.privacy, detail: f.detail, value });
        }
        proof {
            let vp = visible_fields(pre, view);
            let vq = visible_fields(post, view);
            if keep {
                assert(vq =~= vp.push(fs[i as int]));
            } else {
                assert(vq =~= vp);
            }
            assert forall|x: int| 0 <= x < fields@.len() implies same_field(#[trigger] fields@[x], vq[x]) by {
                if x < vp.len() {
                    assert(vq[x] == vp[x]);
                }
            }
        }
        i = i + 1;
    }
    proof {
        assert(fs.subrange(0, fs.len() as int) =~= fs);
        lemma_visible_fields(fs, view);
    }
    let removed = ev.fields.len() - fields.len();
    let message = if view == RecorderView::Remote {
        None
    } else {
        match &ev.message {
            Some(m) => Some(m.clone()),
            None => None,
        }
    };
    FlightRecord {
        sequence: record.sequence,
        event: OwnedProjectedEvent {
            metadata: ev.metadata,
            context: ev.context,
            fields,
            message,
            omitted_fields: ev.omitted_fields + removed,
            truncated_fields: ev.truncated_fields,
        },
    }
}

// ---------------------------------------------------------------------------
// Capacity split.
// ---------------------------------------------------------------------------

/// How many shards a recorder of `capacity` gets when asked for `shards`.
pub open spec fn shard_count_for(capacity: usize, shards: usize) -> int {
    if capacity == 0 {
        1
    } else {
        let s = if shards < 1 {
            1
        } else {
            shards as int
        };
        if s < capacity {
            s
        } else {
            capacity as int
        }
    }
}

/// The capacity of shard `i` out of `n`: an even split, with the first
/// `capacity % n` shards holding one slot more.
pub open spec fn shard_capacity_for(capacity: int, n: int, i: int) -> int {
    capacity / n + if i < capacity % n {
        1int
    } else {
        0int
    }
}

pub open spec fn sum_capacities(caps: Seq<usize>) -> int
    decreases caps.len(),
{
    if caps.len() == 0 {
        0
    } else {
        sum_capacities(caps.drop_last()) + caps.last()
    }
}

proof fn lemma_split_sum(capacity: int, n: int, caps: Seq<usize>)
    requires
        n >= 1,
        capacity >= 0,
        caps.len() <= n,
        forall|i: int| 0 <= i < caps.len() ==> caps[i] == shard_capacity_for(capacity, n, i),
    ensures
        sum_capacities(caps) == caps.len() * (capacity / n) + if caps.len() < capacity % n {
            caps.len() as int
        } else {
            capacity % n
        },
    decreases caps.len(),
{
    let k = caps.len() as int;
    if k > 0 {
        lemma_split_sum(capacity, n, caps.drop_last());
        assert((k - 1) * (capacity / n) + capacity / n == k * (capacity / n)) by (nonlinear_arith);
    }
}

// ---------------------------------------------------------------------------
// The recorder.
// ---------------------------------------------------------------------------

/// Whether record position `(k, j)` exists.
pub open spec fn valid_pos(shards: Seq<Shard>, k: int, j: int) -> bool {
    0 <= k < shards.len() && 0 <= j < shards[k].records@.len()
}

pub open spec fn seq_at(shards: Seq<Shard>, k: int, j: int) -> u64 {
    shards[k].records@[j].sequence
}

/// Whether some record of an available shard lies in `(lo, hi]`.
pub open spec fn in_window(shards: Seq<Shard>, busy: Seq<bool>, k: int, j: int, lo: int, hi: int) -> bool {
    &&& valid_pos(shards, k, j)
    &&& !busy[k]
    &&& lo < seq_at(shards, k, j) <= hi
}

pub open spec fn count_busy(busy: Seq<bool>) -> nat
    decreases busy.len(),
{
    if busy.len() == 0 {
        0
    } else {
        count_busy(busy.drop_last()) + if busy.last() {
            1nat
        } else {
            0nat
        }
    }
}

/// Sum of omitted-field counts, wrapping like the recorder's counters.
pub open spec fn omitted_sum(rs: Seq<FlightRecord>) -> usize
    decreases rs.len(),
{
    if rs.len() == 0 {
        0
    } else {
        let a = omitted_sum(rs.drop_last()) as int;
        let b = rs.last().event.omitted_fields as int;
        if a + b > usize::MAX {
            (a + b - usize::MAX - 1) as usize
        } else {
            (a + b) as usize
        }
    }
}

/// `rec` is the projection of a record of an available shard in the window
/// `(lo, hi]`.
pub open spec fn from_window<'a>(
    shards: Seq<Shard<'a>>,
    busy: Seq<bool>,
    lo: u64,
    hi: u64,
    view: RecorderView,
    rec: FlightRecord<'a>,
) -> bool {
    exists|k: int, j: int|
        #![trigger shards[k].records@[j]]
        in_window(shards, busy, k, j, lo as int, hi as int) && projects(rec, shards[k].records@[j], view)
}

/// `out` is exactly what a read of the available shards over the window
/// `(cursor, watermark]` returns: in strictly increasing sequence order,
/// each a projection of a retained record in the window, and every such
/// record present.
pub open spec fn is_read_of(
    shards: Seq<Shard>,
    busy: Seq<bool>,
    cursor: u64,
    watermark: u64,
    view: RecorderView,
    out: Seq<FlightRecord>,
) -> bool {
    &&& forall|i: int, j: int| 0 <= i < j < out.len() ==> #[trigger] out[i].sequence < #[trigger] out[j].sequence
    &&& forall|i: int|
        0 <= i < out.len() ==> from_window(shards, busy, cursor, watermark, view, #[trigger] out[i])
    &&& forall|k: int, j: int|
        #![trigger shards[k].records@[j]]
        in_window(shards, busy, k, j, cursor as int, watermark as int) ==> exists|i: int|
            0 <= i < out.len() && #[trigger] out[i].sequence == seq_at(shards, k, j)
}

impl<'a> FlightRecorder<'a> {
    pub closed spec fn spec_shards(&self) -> Seq<Shard<'a>> {
        self.shards@
    }

    pub closed spec fn shard_capacities(&self) -> Seq<usize> {
        self.shards@.map_values(|s: Shard<'a>| s.capacity)
    }

    pub closed spec fn spec_capacity(&self) -> usize {
        self.capacity
    }

    pub closed spec fn spec_max_string_bytes(&self) -> usize {
        self.max_string_bytes
    }

    pub closed spec fn spec_next_sequence(&self) -> u64 {
        self.next_sequence
    }

    pub closed spec fn spec_stats(&self) -> FlightRecorderStats {
        self.stats
    }

    /// Records retained by shard `k`, oldest first.
    pub open spec fn shard_records(&self, k: int) -> Seq<FlightRecord<'a>> {
        self.spec_shards()[k].records@
    }

    /// The recorder's standing guarantees: shard capacities add up to the
    /// total; no shard holds more than its slots; sequences increase within
    /// a shard, are unique across shards and never exceed the last one
    /// issued; and no retained field is secret.
    pub closed spec fn wf(&self) -> bool {
        let sh = self.shards@;
        &&& sh.len() >= 1
        &&& sum_capacities(self.shard_capacities()) == self.capacity
        &&& forall|k: int| 0 <= k < sh.len() ==> (#[trigger] sh[k]).records@.len() <= sh[k].capacity
        &&& forall|k: int, i: int, j: int|
            0 <= k < sh.len() && 0 <= i < j < sh[k].records@.len() ==> #[trigger] sh[k].records@[i].sequence
                < #[trigger] sh[k].records@[j].sequence
        &&& forall|k1: int, j1: int, k2: int, j2: int|
            valid_pos(sh, k1, j1) && valid_pos(sh, k2, j2) && (k1 != k2 || j1 != j2) ==> #[trigger] sh[k1].records@[j1].sequence
                != #[trigger] sh[k2].records@[j2].sequence
        &&& forall|k: int, j: int| valid_pos(sh, k, j) ==> 0 < #[trigger] sh[k].records@[j].sequence <= self.next_sequence
        &&& forall|k: int, j: int, f: int|
            valid_pos(sh, k, j) && 0 <= f < sh[k].records@[j].event.fields@.len() ==> #[trigger] sh[k].records@[j].event.fields@[f].privacy
                != Privacy::Secret
    }

    /// Every retained record can be shown in `view` without its omitted
    /// count overflowing.
    pub open spec fn fits_view(&self, view: RecorderView) -> bool {
        forall|k: int, j: int|
            valid_pos(self.spec_shards(), k, j) ==> projectable(#[trigger] self.spec_shards()[k].records@[j], view)
    }
}


/// The fields of an event that are not secret, in order.
pub open spec fn public_fields<'a>(fs: Seq<ProjectedField<'a>>) -> Seq<ProjectedField<'a>>
    decreases fs.len(),
{
    if fs.len() == 0 {
        Seq::empty()
    } else {
        public_fields(fs.drop_last()) + if fs.last().privacy != Privacy::Secret {
            seq![fs.last()]
        } else {
            Seq::empty()
        }
    }
}

proof fn lemma_public_fields(fs: Seq<ProjectedField>)
    ensures
        public_fields(fs).len() <= fs.len(),
        forall|i: int|
            0 <= i < public_fields(fs).len() ==> (#[trigger] public_fields(fs)[i]).privacy
                != Privacy::Secret,
    decreases fs.len(),
{
    if fs.len() > 0 {
        lemma_public_fields(fs.drop_last());
    }
}

fn drop_secrets<'a>(fields: &Vec<ProjectedField<'a>>) -> (r: Vec<ProjectedField<'a>>)
    ensures
        r@ == public_fields(fields@),
{
    let mut out: Vec<ProjectedField<'a>> = Vec::new();
    let mut i: usize = 0;
    proof {
        assert(fields@.subrange(0, 0) =~= Seq::<ProjectedField<'a>>::empty());
    }
    while i < fields.len()
        invariant
            i <= fields@.len(),
            out@ == public_fields(fields@.subrange(0, i as int)),
        decreases fields@.len() - i,
    {
        let ghost pre = fields@.subrange(0, i as int);
        let ghost post = fields@.subrange(0, i + 1);
        proof {
            assert(post.drop_last() =~= pre);
        }
        let f = fields[i];
        if f.privacy != Privacy::Secret {
            out.push(f);
        }
        proof {
            assert(out@ =~= public_fields(post));
        }
        i = i + 1;
    }
    proof {
        assert(fields@.subrange(0, fields@.len() as int) =~= fields@);
    }
    out
}

/// What retaining `event` under `shard_key` does: the shard the key
/// selects drops it when it has no slots; otherwise the event, secrets
/// removed and counted as omitted, is copied in under the next sequence
/// number, evicting the shard's oldest record when full. Other shards are
/// untouched.
pub open spec fn emit_outcome<'a>(
    old: FlightRecorder<'a>,
    new: FlightRecorder<'a>,
    event: ProjectedEvent<'a>,
    shard_key: usize,
) -> bool {
    let n = old.spec_shards().len();
    let k = (shard_key as int) % (n as int);
    let st = old.spec_stats();
    let kept = public_fields(event.fields@);
    let omitted = (event.omitted_fields + (event.fields@.len() - kept.len())) as usize;
    let max = old.spec_max_string_bytes();
    let before = old.shard_records(k);
    let full = before.len() == old.shard_capacities()[k];
    &&& forall|j: int| 0 <= j < n && j != k ==> #[trigger] new.shard_records(j) == old.shard_records(j)
    &&& if old.shard_capacities()[k] == 0 {
        &&& new.shard_records(k) == before
        &&& new.spec_next_sequence() == old.spec_next_sequence()
        &&& new.spec_stats() == (FlightRecorderStats {
            dropped: wrap_add(st.dropped, 1),
            ..st
        })
    } else {
        let remaining = if full {
            before.drop_first()
        } else {
            before
        };
        let rec = new.shard_records(k).last();
        &&& new.spec_next_sequence() == old.spec_next_sequence() + 1
        &&& new.shard_records(k).len() == remaining.len() + 1
        &&& new.shard_records(k).drop_last() == remaining
        &&& rec.sequence == new.spec_next_sequence()
        &&& copies_parts(
            rec.event,
            event.metadata,
            event.context,
            kept,
            event.message,
            omitted,
            max,
        )
        &&& new.spec_stats() == (FlightRecorderStats {
            accepted: wrap_add(st.accepted, 1),
            overwritten: if full {
                wrap_add(st.overwritten, 1)
            } else {
                st.overwritten
            },
            truncated_fields: wrap_add(
                st.truncated_fields,
                truncation_parts(kept, event.message, max) as u64,
            ),
            ..st
        })
    }
}

impl<'a> FlightRecorder<'a> {
    /// A recorder of `capacity` slots split over `shards` shards (at least
    /// one, at most one per slot), retaining texts up to
    /// `max_string_bytes`. Total retention never exceeds `capacity`.
    pub fn with_shards(capacity: usize, max_string_bytes: usize, shards: usize) -> (r: Self)
        ensures
            r.wf(),
            r.spec_capacity() == capacity,
            r.spec_max_string_bytes() == max_string_bytes,
            r.spec_next_sequence() == 0,
            r.spec_stats() == (FlightRecorderStats {
                accepted: 0,
                dropped: 0,
                overwritten: 0,
                truncated_fields: 0,
            }),
            r.spec_shards().len() == shard_count_for(capacity, shards),
            forall|i: int|
                0 <= i < r.spec_shards().len() ==> #[trigger] r.shard_capacities()[i]
                    == shard_capacity_for(capacity as int, r.spec_shards().len() as int, i),
            forall|k: int| 0 <= k < r.spec_shards().len() ==> #[trigger] r.shard_records(k).len() == 0,
    {
        let count: usize = if capacity == 0 {
            1
        } else {
            let s: usize = if shards < 1 {
                1
            } else {
                shards
            };
            if s < capacity {
                s
            } else {
                capacity
            }
        };
        let base = capacity / count;
        let rem = capacity % count;
        proof {
            vstd::arithmetic::div_mod::lemma_fundamental_div_mod(capacity as int, count as int);
            assert(count * base >= base) by (nonlinear_arith)
                requires
                    count >= 1,
                    base >= 0,
            ;
        }
        let mut list: Vec<Shard<'a>> = Vec::new();
        let mut index: usize = 0;
        while index < count
            invariant
                count >= 1,
                index <= count,
                base == capacity / count,
                rem == capacity % count,
                capacity == count * base + rem,
                base + rem <= capacity,
                rem < count,
                list@.len() == index,
                forall|i: int|
                    0 <= i < index ==> (#[trigger] list@[i]).capacity == shard_capacity_for(
                        capacity as int,
                        count as int,
                        i,
                    ) && list@[i].records@.len() == 0,
            decreases count - index,
        {
            let cap = if index < rem {
                base + 1
            } else {
                base
            };
            list.push(Shard { capacity: cap, records: std::collections::VecDeque::new() });
            index = index + 1;
        }
        let r = FlightRecorder {
            capacity,
            max_string_bytes,
            next_sequence: 0,
            shards: list,
            stats: FlightRecorderStats { accepted: 0, dropped: 0, overwritten: 0, truncated_fields: 0 },
        };
        proof {
            let caps = r.shard_capacities();
            assert forall|i: int| 0 <= i < caps.len() implies caps[i] == shard_capacity_for(
                capacity as int,
                count as int,
                i,
            ) by {
                assert(caps[i] == list@[i].capacity);
            }
            lemma_split_sum(capacity as int, count as int, caps);
            assert(sum_capacities(caps) == capacity);
        }
        r
    }

    pub fn stats(&self) -> (r: FlightRecorderStats)
        ensures
            r == self.spec_stats(),
    {
        self.stats
    }

    /// Whether every retained record can be shown in `view`: a read in a
    /// view that does not fit would overflow a record's omitted count.
    pub fn fits(&self, view: RecorderView) -> (r: bool)
        ensures
            r == self.fits_view(view),
    {
        let ghost sh = self.shards@;
        let mut k: usize = 0;
        while k < self.shards.len()
            invariant
                sh == self.shards@,
                k <= sh.len(),
                forall|a: int, b: int| 0 <= a < k && valid_pos(sh, a, b) ==> projectable(#[trigger] sh[a].records@[b], view),
            decreases sh.len() - k,
        {
            let mut j: usize = 0;
            while j < self.shards[k].records.len()
                invariant
                    sh == self.shards@,
                    k < sh.len(),
                    j <= sh[k as int].records@.len(),
                    forall|a: int, b: int| 0 <= a < k && valid_pos(sh, a, b) ==> projectable(#[trigger] sh[a].records@[b], view),
                    forall|b: int| 0 <= b < j ==> projectable(#[trigger] sh[k as int].records@[b], view),
                decreases sh[k as int].records@.len() - j,
            {
                let record = &self.shards[k].records[j];
                let hidden = hidden_count(&record.event.fields, view);
                if record.event.omitted_fields > usize::MAX - hidden {
                    proof {
                        assert(valid_pos(self.spec_shards(), k as int, j as int));
                        assert(!projectable(self.spec_shards()[k as int].records@[j as int], view));
                    }
                    return false;
                }
                j = j + 1;
            }
            k = k + 1;
        }
        proof {
            assert forall|a: int, b: int| valid_pos(self.spec_shards(), a, b) implies projectable(
                #[trigger] self.spec_shards()[a].records@[b],
                view,
            ) by {
                assert(valid_pos(sh, a, b));
            }
        }
        true
    }

    /// The last sequence number issued (zero before the first record).
    pub fn next_sequence(&self) -> (r: u64)
        ensures
            r == self.spec_next_sequence(),
    {
        self.next_sequence
    }

    /// How many shards the slots are split over.
    pub fn shard_count(&self) -> (r: usize)
        ensures
            r == self.spec_shards().len(),
    {
        self.shards.len()
    }

    /// Retains `event` in the shard chosen by `shard_key` (the writing
    /// thread's hash). Secret fields are removed first and counted as
    /// omitted. A shard without slots drops the event; a full shard
    /// overwrites its oldest record.
    pub fn emit(&mut self, event: ProjectedEvent<'a>, shard_key: usize)
        requires
            old(self).wf(),
            old(self).spec_next_sequence() < u64::MAX,
            event.fields@.len() < usize::MAX,
            event.omitted_fields + (event.fields@.len() - public_fields(event.fields@).len()) <= usize::MAX,
        ensures
            final(self).wf(),
            final(self).spec_capacity() == old(self).spec_capacity(),
            final(self).spec_max_string_bytes() == old(self).spec_max_string_bytes(),
            final(self).shard_capacities() == old(self).shard_capacities(),
            emit_outcome(*old(self), *final(self), event, shard_key),
    {
        let kept = drop_secrets(&event.fields);
        proof {
            lemma_public_fields(event.fields@);
        }
        let removed = event.fields.len() - kept.len();
        let omitted = event.omitted_fields + removed;
        let ghost kept_view = kept@;
        let projected = ProjectedEvent {
            metadata: event.metadata,
            context: event.context,
            fields: kept,
            message: event.message,
            omitted_fields: omitted,
        };
        let owned = OwnedProjectedEvent::copy_from(projected, self.max_string_bytes);
        let k = shard_key % self.shards.len();
        let ghost old_shards = self.shards@;
        if self.shards[k].capacity == 0 {
            self.stats.dropped = self.stats.dropped.wrapping_add(1);
            return;
        }
        let full = self.shards[k].records.len() == self.shards[k].capacity;
        if full {
            self.shards[k].records.pop_front();
            self.stats.overwritten = self.stats.overwritten.wrapping_add(1);
        }
        let sequence = self.next_sequence + 1;
        self.next_sequence = sequence;
        self.stats.truncated_fields = self.stats.truncated_fields.wrapping_add(owned.truncated_fields as u64);
        self.shards[k].records.push_back(FlightRecord { sequence, event: owned });
        self.stats.accepted = self.stats.accepted.wrapping_add(1);
        proof {
            let ki = k as int;
            let sh = self.shards@;
            assert(sh.len() == old_shards.len());
            assert forall|j: int| 0 <= j < sh.len() && j != ki implies #[trigger] sh[j] == old_shards[j] by {}
            assert(self.shard_capacities() =~= old(self).shard_capacities());
            let before = old_shards[ki].records@;
            let remaining = if full {
                before.drop_first()
            } else {
                before
            };
            assert(sh[ki].records@.drop_last() =~= remaining);
            assert forall|j: int| 0 <= j < sh[ki].records@.len() implies (#[trigger] sh[ki].records@[j]).sequence
                <= sequence && (j < sh[ki].records@.len() - 1 ==> sh[ki].records@[j] == remaining[j]) by {
                if j < sh[ki].records@.len() - 1 {
                    assert(sh[ki].records@[j] == remaining[j]);
                    if full {
                        assert(remaining[j] == before[j + 1]);
                        assert(valid_pos(old_shards, ki, j + 1));
                    } else {
                        assert(valid_pos(old_shards, ki, j));
                    }
                }
            }
            assert forall|x: int, f: int|
                0 <= x < sh[ki].records@.len() && 0 <= f < sh[ki].records@[x].event.fields@.len() implies
                #[trigger] sh[ki].records@[x].event.fields@[f].privacy != Privacy::Secret by {
                if x == sh[ki].records@.len() - 1 {
                    assert(owned.fields@[f].privacy == kept_view[f].privacy);
                } else if full {
                    assert(valid_pos(old_shards, ki, x + 1));
                } else {
                    assert(valid_pos(old_shards, ki, x));
                }
            }
            assert(self.wf()) by {
                assert forall|k1: int, j1: int, k2: int, j2: int|
                    valid_pos(sh, k1, j1) && valid_pos(sh, k2, j2) && (k1 != k2 || j1 != j2) implies #[trigger] sh[k1].records@[j1].sequence
                        != #[trigger] sh[k2].records@[j2].sequence by {
                    let last = sh[ki].records@.len() - 1;
                    if k1 == ki && j1 == last {
                    } else if k2 == ki && j2 == last {
                    } else {
                        let o1 = if k1 == ki && full { j1 + 1 } else { j1 };
                        let o2 = if k2 == ki && full { j2 + 1 } else { j2 };
                        assert(valid_pos(old_shards, k1, o1));
                        assert(valid_pos(old_shards, k2, o2));
                        assert(sh[k1].records@[j1] == old_shards[k1].records@[o1]);
                        assert(sh[k2].records@[j2] == old_shards[k2].records@[o2]);
                    }
                }
                assert forall|kk: int, i: int, j: int|
                    0 <= kk < sh.len() && 0 <= i < j < sh[kk].records@.len() implies #[trigger] sh[kk].records@[i].sequence
                        < #[trigger] sh[kk].records@[j].sequence by {
                    if kk == ki {
                        let last = sh[ki].records@.len() - 1;
                        let oi = if full { i + 1 } else { i };
                        assert(valid_pos(old_shards, kk, oi));
                        if j != last {
                            let oj = if full { j + 1 } else { j };
                            assert(sh[kk].records@[j] == old_shards[kk].records@[oj]);
                        }
                    }
                }
                assert forall|kk: int, j: int| valid_pos(sh, kk, j) implies 0 < #[trigger] sh[kk].records@[j].sequence
                    <= self.next_sequence by {
                    if kk == ki {
                        let last = sh[ki].records@.len() - 1;
                        if j != last {
                            let oj = if full { j + 1 } else { j };
                            assert(valid_pos(old_shards, kk, oj));
                        }
                    } else {
                        assert(valid_pos(old_shards, kk, j));
                    }
                }
            }
        }
    }
}


impl<'a> FlightRecorder<'a> {
    /// Finds the record with the smallest sequence in `(lo, hi]` among the
    /// available shards.
    fn min_after(&self, busy: &[bool], lo: u64, hi: u64) -> (r: Option<(usize, usize)>)
        requires
            busy@.len() == self.shards@.len(),
        ensures
            match r {
                Some((k, j)) => {
                    &&& in_window(self.shards@, busy@, k as int, j as int, lo as int, hi as int)
                    &&& forall|k2: int, j2: int|
                        #![trigger self.shards@[k2].records@[j2]]
                        in_window(self.shards@, busy@, k2, j2, lo as int, hi as int) ==> seq_at(
                            self.shards@,
                            k as int,
                            j as int,
                        ) <= seq_at(self.shards@, k2, j2)
                },
                None => forall|k2: int, j2: int|
                    #![trigger self.shards@[k2].records@[j2]]
                    !in_window(self.shards@, busy@, k2, j2, lo as int, hi as int),
            },
    {
        let ghost sh = self.shards@;
        let mut best: Option<(usize, usize)> = None;
        let mut best_seq: u64 = 0;
        let mut k: usize = 0;
        while k < self.shards.len()
            invariant
                sh == self.shards@,
                busy@.len() == sh.len(),
                k <= sh.len(),
                match best {
                    Some((bk, bj)) => {
                        &&& in_window(sh, busy@, bk as int, bj as int, lo as int, hi as int)
                        &&& best_seq == seq_at(sh, bk as int, bj as int)
                        &&& forall|k2: int, j2: int|
                            #![trigger sh[k2].records@[j2]]
                            k2 < k && in_window(sh, busy@, k2, j2, lo as int, hi as int) ==> best_seq
                                <= seq_at(sh, k2, j2)
                    },
                    None => forall|k2: int, j2: int|
                        #![trigger sh[k2].records@[j2]]
                        k2 < k ==> !in_window(sh, busy@, k2, j2, lo as int, hi as int),
                },
            decreases sh.len() - k,
        {
            if !busy[k] {
                let mut j: usize = 0;
                while j < self.shards[k].records.len()
                    invariant
                        sh == self.shards@,
                        busy@.len() == sh.len(),
                        k < sh.len(),
                        !busy@[k as int],
                        j <= sh[k as int].records@.len(),
                        match best {
                            Some((bk, bj)) => {
                                &&& in_window(sh, busy@, bk as int, bj as int, lo as int, hi as int)
                                &&& best_seq == seq_at(sh, bk as int, bj as int)
                                &&& forall|k2: int, j2: int|
                                    #![trigger sh[k2].records@[j2]]
                                    (k2 < k || (k2 == k && j2 < j)) && in_window(
                                        sh,
                                        busy@,
                                        k2,
                                        j2,
                                        lo as int,
                                        hi as int,
                                    ) ==> best_seq <= seq_at(sh, k2, j2)
                            },
                            None => forall|k2: int, j2: int|
                                #![trigger sh[k2].records@[j2]]
                                (k2 < k || (k2 == k && j2 < j)) ==> !in_window(
                                    sh,
                                    busy@,
                                    k2,
                                    j2,
                                    lo as int,
                                    hi as int,
                                ),
                        },
                    decreases sh[k as int].records@.len() - j,
                {
                    let s = self.shards[k].records[j].sequence;
                    if lo < s && s <= hi {
                        let better = match best {
                            Some(_) => s < best_seq,
                            None => true,
                        };
                        if better {
                            best = Some((k, j));
                            best_seq = s;
                        }
                    }
                    j = j + 1;
                }
            }
            k = k + 1;
        }
        best
    }

    /// Reads the records newer than `cursor` from the shards that are not
    /// `busy`, as `view` shows them, in sequence order. Only a read that
    /// reached every shard advances the cursor, to the last sequence issued.
    pub fn read_partial(&self, cursor: FlightCursor, view: RecorderView, busy: &[bool]) -> (r: FlightRead<'a>)
        requires
            self.wf(),
            self.fits_view(view),
            busy@.len() == self.spec_shards().len(),
        ensures
            r.requested_cursor == cursor,
            r.busy_shards == count_busy(busy@),
            r.next_cursor == if count_busy(busy@) == 0 {
                FlightCursor(
                    if self.spec_next_sequence() > cursor.0 {
                        self.spec_next_sequence()
                    } else {
                        cursor.0
                    },
                )
            } else {
                cursor
            },
            is_read_of(self.spec_shards(), busy@, cursor.0, self.spec_next_sequence(), view, r.records@),
            r.dropped_total == self.spec_stats().dropped,
            r.overwritten_total == self.spec_stats().overwritten,
            r.truncated_fields_total == self.spec_stats().truncated_fields,
            r.omitted_fields == omitted_sum(r.records@),
    {
        let ghost sh = self.shards@;
        let watermark = self.next_sequence;
        let mut records: Vec<FlightRecord<'a>> = Vec::new();
        let mut last = cursor.0;
        loop
            invariant
                self.wf(),
                self.fits_view(view),
                sh == self.shards@,
                busy@.len() == sh.len(),
                watermark == self.next_sequence,
                cursor.0 <= last,
                forall|i: int, j: int|
                    0 <= i < j < records@.len() ==> #[trigger] records@[i].sequence
                        < #[trigger] records@[j].sequence,
                forall|i: int| 0 <= i < records@.len() ==> #[trigger] records@[i].sequence <= last,
                forall|i: int|
                    0 <= i < records@.len() ==> from_window(sh, busy@, cursor.0, watermark, view, #[trigger] records@[i]),
                forall|k: int, j: int|
                    #![trigger sh[k].records@[j]]
                    in_window(sh, busy@, k, j, cursor.0 as int, last as int) ==> exists|i: int|
                        0 <= i < records@.len() && #[trigger] records@[i].sequence == seq_at(sh, k, j),
            ensures
                is_read_of(sh, busy@, cursor.0, watermark, view, records@),
            decreases watermark as int - last as int,
        {
            match self.min_after(busy, last, watermark) {
                None => {
                    proof {
                        assert forall|k: int, j: int|
                            #![trigger sh[k].records@[j]]
                            in_window(sh, busy@, k, j, cursor.0 as int, watermark as int) implies exists|i: int|
                                0 <= i < records@.len() && #[trigger] records@[i].sequence == seq_at(sh, k, j) by {
                            assert(!in_window(sh, busy@, k, j, last as int, watermark as int));
                            assert(in_window(sh, busy@, k, j, cursor.0 as int, last as int));
                        }
                        assert(is_read_of(sh, busy@, cursor.0, watermark, view, records@));
                    }
                    break;
                },
                Some((k, j)) => {
                    proof {
                        assert(valid_pos(sh, k as int, j as int));
                        assert(valid_pos(self.spec_shards(), k as int, j as int));
                        assert(projectable(self.spec_shards()[k as int].records@[j as int], view));
                    }
                    let rec = project_record(&self.shards[k].records[j], view);
                    let s = rec.sequence;
                    let ghost before = records@;
                    records.push(rec);
                    proof {
                        assert(in_window(sh, busy@, k as int, j as int, cursor.0 as int, watermark as int));
                        assert forall|i: int|
                            0 <= i < records@.len() implies from_window(sh, busy@, cursor.0, watermark, view, #[trigger] records@[i]) by {
                            if i < before.len() {
                                assert(records@[i] == before[i]);
                            } else {
                                assert(projects(records@[i], sh[k as int].records@[j as int], view));
                            }
                        }
                        assert forall|k2: int, j2: int|
                            #![trigger sh[k2].records@[j2]]
                            in_window(sh, busy@, k2, j2, cursor.0 as int, s as int) implies exists|i: int|
                                0 <= i < records@.len() && #[trigger] records@[i].sequence == seq_at(sh, k2, j2) by {
                            if seq_at(sh, k2, j2) <= last {
                                assert(in_window(sh, busy@, k2, j2, cursor.0 as int, last as int));
                                let i = choose|i: int|
                                    0 <= i < before.len() && #[trigger] before[i].sequence == seq_at(sh, k2, j2);
                                assert(records@[i] == before[i]);
                            } else {
                                assert(in_window(sh, busy@, k2, j2, last as int, watermark as int));
                                assert(records@[before.len() as int].sequence == seq_at(sh, k2, j2));
                            }
                        }
                    }
                    last = s;
                },
            }
        }
        let busy_shards = busy_count(busy);
        let omitted = sum_omitted(&records);
        let next_cursor = if busy_shards == 0 {
            FlightCursor(
                if watermark > cursor.0 {
                    watermark
                } else {
                    cursor.0
                },
            )
        } else {
            cursor
        };
        FlightRead {
            requested_cursor: cursor,
            next_cursor,
            records,
            dropped_total: self.stats.dropped,
            overwritten_total: self.stats.overwritten,
            truncated_fields_total: self.stats.truncated_fields,
            omitted_fields: omitted,
            busy_shards,
        }
    }

    /// Reads the records newer than `cursor`, as `view` shows them, in
    /// sequence order, and advances the cursor to the last sequence issued.
    pub fn read_since(&self, cursor: FlightCursor, view: RecorderView) -> (r: FlightRead<'a>)
        requires
            self.wf(),
            self.fits_view(view),
        ensures
            r.requested_cursor == cursor,
            r.busy_shards == 0,
            r.next_cursor == FlightCursor(
                if self.spec_next_sequence() > cursor.0 {
                    self.spec_next_sequence()
                } else {
                    cursor.0
                },
            ),
            is_read_of(
                self.spec_shards(),
                Seq::new(self.spec_shards().len(), |k: int| false),
                cursor.0,
                self.spec_next_sequence(),
                view,
                r.records@,
            ),
            r.dropped_total == self.spec_stats().dropped,
            r.overwritten_total == self.spec_stats().overwritten,
            r.truncated_fields_total == self.spec_stats().truncated_fields,
            r.omitted_fields == omitted_sum(r.records@),
    {
        let mut busy: Vec<bool> = Vec::new();
        let mut k: usize = 0;
        while k < self.shards.len()
            invariant
                k <= self.shards@.len(),
                busy@ == Seq::new(k as nat, |x: int| false),
            decreases self.shards@.len() - k,
        {
            busy.push(false);
            k = k + 1;
            proof {
                assert(busy@ =~= Seq::new(k as nat, |x: int| false));
            }
        }
        proof {
            lemma_no_busy(busy@);
        }
        self.read_partial(cursor, view, busy.as_slice())
    }

    /// The newest `limit` records of a full read from the start, as `view`
    /// shows them; the accounting is that of the full read.
    pub fn tail(&self, limit: usize, view: RecorderView) -> (r: FlightRead<'a>)
        requires
            self.wf(),
            self.fits_view(view),
        ensures
            r.requested_cursor == FlightCursor(0),
            r.busy_shards == 0,
            r.next_cursor == FlightCursor(self.spec_next_sequence()),
            exists|all: Seq<FlightRecord<'a>>| {
                &&& is_read_of(
                    self.spec_shards(),
                    Seq::new(self.spec_shards().len(), |k: int| false),
                    0,
                    self.spec_next_sequence(),
                    view,
                    all,
                )
                &&& r.records@ == if all.len() > limit {
                    all.subrange(all.len() - limit, all.len() as int)
                } else {
                    all
                }
                &&& r.omitted_fields == omitted_sum(all)
            },
            r.dropped_total == self.spec_stats().dropped,
            r.overwritten_total == self.spec_stats().overwritten,
            r.truncated_fields_total == self.spec_stats().truncated_fields,
    {
        let mut read = self.read_since(FlightCursor(0), view);
        let ghost all = read.records@;
        if read.records.len() > limit {
            let at = read.records.len() - limit;
            let kept = read.records.split_off(at);
            read.records = kept;
        }
        read
    }
}

fn busy_count(busy: &[bool]) -> (r: usize)
    ensures
        r == count_busy(busy@),
{
    let mut busy_shards: usize = 0;
    let mut b: usize = 0;
    proof {
        assert(busy@.subrange(0, 0) =~= Seq::<bool>::empty());
    }
    while b < busy.len()
        invariant
            b <= busy@.len(),
            busy_shards == count_busy(busy@.subrange(0, b as int)),
            busy_shards <= b,
        decreases busy@.len() - b,
    {
        proof {
            assert(busy@.subrange(0, b + 1).drop_last() =~= busy@.subrange(0, b as int));
        }
        if busy[b] {
            busy_shards = busy_shards + 1;
        }
        b = b + 1;
    }
    proof {
        assert(busy@.subrange(0, busy@.len() as int) =~= busy@);
    }
    busy_shards
}

fn sum_omitted(records: &Vec<FlightRecord>) -> (r: usize)
    ensures
        r == omitted_sum(records@),
{
    let mut omitted: usize = 0;
    let mut i: usize = 0;
    proof {
        assert(records@.subrange(0, 0) =~= Seq::<FlightRecord>::empty());
    }
    while i < records.len()
        invariant
            i <= records@.len(),
            omitted == omitted_sum(records@.subrange(0, i as int)),
        decreases records@.len() - i,
    {
        proof {
            assert(records@.subrange(0, i + 1).drop_last() =~= records@.subrange(0, i as int));
        }
        omitted = omitted.wrapping_add(records[i].event.omitted_fields);
        i = i + 1;
    }
    proof {
        assert(records@.subrange(0, records@.len() as int) =~= records@);
    }
    omitted
}

proof fn lemma_no_busy(busy: Seq<bool>)
    requires
        forall|i: int| 0 <= i < busy.len() ==> !busy[i],
    ensures
        count_busy(busy) == 0,
    decreases busy.len(),
{
    if busy.len() > 0 {
        lemma_no_busy(busy.drop_last());
    }
}


/// How many records the shards hold together.
pub open spec fn retained_count(shards: Seq<Shard>) -> int
    decreases shards.len(),
{
    if shards.len() == 0 {
        0
    } else {
        retained_count(shards.drop_last()) + shards.last().records@.len()
    }
}

pub open spec fn capacities_of(shards: Seq<Shard>) -> Seq<usize> {
    shards.map_values(|s: Shard| s.capacity)
}

proof fn lemma_retained_within(shards: Seq<Shard>)
    requires
        forall|k: int| 0 <= k < shards.len() ==> (#[trigger] shards[k]).records@.len() <= shards[k].capacity,
    ensures
        retained_count(shards) <= sum_capacities(capacities_of(shards)),
    decreases shards.len(),
{
    if shards.len() > 0 {
        let rest = shards.drop_last();
        assert(capacities_of(shards).drop_last() =~= capacities_of(rest));
        assert forall|k: int| 0 <= k < rest.len() implies (#[trigger] rest[k]).records@.len() <= rest[k].capacity by {
            assert(rest[k] == shards[k]);
        }
        lemma_retained_within(rest);
        assert(shards.last() == shards[shards.len() - 1]);
    }
}

impl<'a> FlightRecorder<'a> {
    /// How many records the recorder holds.
    pub open spec fn retained(&self) -> int {
        retained_count(self.spec_shards())
    }
}

/// Total retention never exceeds the capacity the recorder was made with,
/// however the slots are split over shards.
pub proof fn law_retention_never_exceeds_capacity(fr: &FlightRecorder)
    requires
        fr.wf(),
    ensures
        fr.retained() <= fr.spec_capacity(),
{
    let sh = fr.spec_shards();
    assert(capacities_of(sh) =~= fr.shard_capacities());
    lemma_retained_within(sh);
}

/// A read in the remote view carries only support-safe fields and no
/// message.
pub proof fn law_remote_reads_are_support_safe(
    shards: Seq<Shard>,
    busy: Seq<bool>,
    cursor: u64,
    watermark: u64,
    out: Seq<FlightRecord>,
)
    requires
        is_read_of(shards, busy, cursor, watermark, RecorderView::Remote, out),
    ensures
        forall|i: int, f: int|
            0 <= i < out.len() && 0 <= f < out[i].event.fields@.len() ==> #[trigger] out[i].event.fields@[f].privacy
                == Privacy::SupportSafe,
        forall|i: int| 0 <= i < out.len() ==> (#[trigger] out[i]).event.message is None,
{
    assert forall|i: int, f: int|
        0 <= i < out.len() && 0 <= f < out[i].event.fields@.len() implies #[trigger] out[i].event.fields@[f].privacy
            == Privacy::SupportSafe by {
        assert(from_window(shards, busy, cursor, watermark, RecorderView::Remote, out[i]));
        let (k, j) = choose|k: int, j: int|
            #![trigger shards[k].records@[j]]
            in_window(shards, busy, k, j, cursor as int, watermark as int) && projects(
                out[i],
                shards[k].records@[j],
                RecorderView::Remote,
            );
        lemma_visible_fields(shards[k].records@[j].event.fields@, RecorderView::Remote);
        let vis = visible_fields(shards[k].records@[j].event.fields@, RecorderView::Remote);
        assert(same_field(out[i].event.fields@[f], vis[f]));
        assert(visible(RecorderView::Remote, vis[f].privacy));
    }
    assert forall|i: int| 0 <= i < out.len() implies (#[trigger] out[i]).event.message is None by {
        assert(from_window(shards, busy, cursor, watermark, RecorderView::Remote, out[i]));
    }
}

/// No read, in any view, carries a secret field.
pub proof fn law_reads_never_carry_secrets(
    shards: Seq<Shard>,
    busy: Seq<bool>,
    cursor: u64,
    watermark: u64,
    view: RecorderView,
    out: Seq<FlightRecord>,
)
    requires
        is_read_of(shards, busy, cursor, watermark, view, out),
    ensures
        forall|i: int, f: int|
            0 <= i < out.len() && 0 <= f < out[i].event.fields@.len() ==> #[trigger] out[i].event.fields@[f].privacy
                != Privacy::Secret,
{
    assert forall|i: int, f: int|
        0 <= i < out.len() && 0 <= f < out[i].event.fields@.len() implies #[trigger] out[i].event.fields@[f].privacy
            != Privacy::Secret by {
        assert(from_window(shards, busy, cursor, watermark, view, out[i]));
        let (k, j) = choose|k: int, j: int|
            #![trigger shards[k].records@[j]]
            in_window(shards, busy, k, j, cursor as int, watermark as int) && projects(
                out[i],
                shards[k].records@[j],
                view,
            );
        lemma_visible_fields(shards[k].records@[j].event.fields@, view);
        let vis = visible_fields(shards[k].records@[j].event.fields@, view);
        assert(same_field(out[i].event.fields@[f], vis[f]));
        assert(visible(view, vis[f].privacy));
    }
}


/// Secret fields are rejected at recorder ingress: no retained record holds
/// one, and every retained sequence number was issued exactly once.
pub proof fn law_retained_records_hold_no_secrets(fr: &FlightRecorder)
    requires
        fr.wf(),
    ensures
        forall|k: int, j: int, f: int|
            0 <= k < fr.spec_shards().len() && 0 <= j < fr.shard_records(k).len() && 0 <= f
                < fr.shard_records(k)[j].event.fields@.len() ==> #[trigger] fr.shard_records(
                k,
            )[j].event.fields@[f].privacy != Privacy::Secret,
        forall|k1: int, j1: int, k2: int, j2: int|
            valid_pos(fr.spec_shards(), k1, j1) && valid_pos(fr.spec_shards(), k2, j2) && (k1 != k2
                || j1 != j2) ==> #[trigger] fr.shard_records(k1)[j1].sequence != #[trigger] fr.shard_records(
                k2,
            )[j2].sequence,
{
    assert forall|k: int, j: int, f: int|
        0 <= k < fr.spec_shards().len() && 0 <= j < fr.shard_records(k).len() && 0 <= f
            < fr.shard_records(k)[j].event.fields@.len() implies #[trigger] fr.shard_records(
            k,
        )[j].event.fields@[f].privacy != Privacy::Secret by {
        assert(valid_pos(fr.spec_shards(), k, j));
    }
}


proof fn lemma_busy_zero(busy: Seq<bool>)
    requires
        count_busy(busy) == 0,
    ensures
        forall|i: int| 0 <= i < busy.len() ==> !busy[i],
    decreases busy.len(),
{
    if busy.len() > 0 {
        lemma_busy_zero(busy.drop_last());
        assert forall|i: int| 0 <= i < busy.len() implies !busy[i] by {
            if i < busy.len() - 1 {
                assert(busy.drop_last()[i] == busy[i]);
            }
        }
    }
}

/// Resuming from the cursor a read hands back never skips a retained
/// record: every record up to that cursor is in the read. A read that found
/// a shard busy keeps the cursor where it was, so the unavailable records
/// are read on a retry.
pub proof fn law_resuming_from_the_cursor_skips_nothing(
    shards: Seq<Shard>,
    busy: Seq<bool>,
    cursor: u64,
    watermark: u64,
    view: RecorderView,
    out: Seq<FlightRecord>,
    next: u64,
)
    requires
        busy.len() == shards.len(),
        is_read_of(shards, busy, cursor, watermark, view, out),
        next == if count_busy(busy) == 0 {
            if watermark > cursor {
                watermark
            } else {
                cursor
            }
        } else {
            cursor
        },
        forall|k: int, j: int| valid_pos(shards, k, j) ==> #[trigger] seq_at(shards, k, j) <= watermark,
    ensures
        forall|k: int, j: int|
            valid_pos(shards, k, j) && cursor < #[trigger] seq_at(shards, k, j) <= next ==> exists|i: int|
                0 <= i < out.len() && #[trigger] out[i].sequence == seq_at(shards, k, j),
{
    assert forall|k: int, j: int|
        valid_pos(shards, k, j) && cursor < #[trigger] seq_at(shards, k, j) <= next implies exists|i: int|
            0 <= i < out.len() && #[trigger] out[i].sequence == seq_at(shards, k, j) by {
        if count_busy(busy) == 0 {
            lemma_busy_zero(busy);
            assert(in_window(shards, busy, k, j, cursor as int, watermark as int));
            let r = shards[k].records@[j];
        }
    }
}


/// What a write puts in the recorder a read gives back: after an event is
/// retained, a full read from any earlier cursor returns the record it was
/// retained under, as the read's view shows it.
pub proof fn law_a_read_returns_what_was_retained<'a>(
    old: FlightRecorder<'a>,
    new: FlightRecorder<'a>,
    event: ProjectedEvent<'a>,
    shard_key: usize,
    cursor: u64,
    view: RecorderView,
    out: Seq<FlightRecord<'a>>,
)
    requires
        old.wf(),
        new.wf(),
        new.spec_shards().len() == old.spec_shards().len(),
        emit_outcome(old, new, event, shard_key),
        old.shard_capacities()[(shard_key as int) % (old.spec_shards().len() as int)] > 0,
        cursor < new.spec_next_sequence(),
        is_read_of(
            new.spec_shards(),
            Seq::new(new.spec_shards().len(), |k: int| false),
            cursor,
            new.spec_next_sequence(),
            view,
            out,
        ),
    ensures
        exists|i: int|
            0 <= i < out.len() && out[i].sequence == new.spec_next_sequence() && #[trigger] projects(
                out[i],
                new.shard_records((shard_key as int) % (old.spec_shards().len() as int)).last(),
                view,
            ),
{
    let sh = new.spec_shards();
    let busy = Seq::new(sh.len(), |k: int| false);
    let k = (shard_key as int) % (old.spec_shards().len() as int);
    let j = new.shard_records(k).len() - 1;
    assert(0 <= k < sh.len());
    assert(valid_pos(sh, k, j));
    assert(in_window(sh, busy, k, j, cursor as int, new.spec_next_sequence() as int));
    let i = choose|i: int| 0 <= i < out.len() && #[trigger] out[i].sequence == seq_at(sh, k, j);
    assert(from_window(sh, busy, cursor, new.spec_next_sequence(), view, out[i]));
    let (k2, j2) = choose|k2: int, j2: int|
        #![trigger sh[k2].records@[j2]]
        in_window(sh, busy, k2, j2, cursor as int, new.spec_next_sequence() as int) && projects(
            out[i],
            sh[k2].records@[j2],
            view,
        );
    law_retained_records_hold_no_secrets(&new);
    assert(k2 == k && j2 == j);
    assert(projects(out[i], new.shard_records(k).last(), view));
}

/// The sequences of every retained record, shard by shard.
pub open spec fn all_sequences(shards: Seq<Shard>) -> Seq<u64>
    decreases shards.len(),
{
    if shards.len() == 0 {
        Seq::empty()
    } else {
        all_sequences(shards.drop_last()) + shards.last().records@.map_values(|r: FlightRecord| r.sequence)
    }
}

proof fn lemma_all_sequences(shards: Seq<Shard>, k: int, j: int)
    ensures
        all_sequences(shards).len() == retained_count(shards),
        valid_pos(shards, k, j) ==> all_sequences(shards).contains(seq_at(shards, k, j)),
    decreases shards.len(),
{
    if shards.len() > 0 {
        let rest = shards.drop_last();
        let last = shards.last().records@.map_values(|r: FlightRecord| r.sequence);
        if valid_pos(shards, k, j) && k < shards.len() - 1 {
            assert(rest[k] == shards[k]);
            assert(valid_pos(rest, k, j));
            lemma_all_sequences(rest, k, j);
            let p = choose|p: int| 0 <= p < all_sequences(rest).len() && all_sequences(rest)[p] == seq_at(rest, k, j);
            assert(all_sequences(shards)[p] == seq_at(shards, k, j));
        } else {
            lemma_all_sequences(rest, k, j);
            if valid_pos(shards, k, j) {
                let p = all_sequences(rest).len() + j;
                assert(last[j] == seq_at(shards, k, j));
                assert(all_sequences(shards)[p] == seq_at(shards, k, j));
            }
        }
    }
}

/// A read never returns more records than the recorder was made to hold,
/// whichever shards were available and whatever the window.
pub proof fn law_a_read_never_exceeds_capacity(
    fr: &FlightRecorder,
    busy: Seq<bool>,
    cursor: u64,
    watermark: u64,
    view: RecorderView,
    out: Seq<FlightRecord>,
)
    requires
        fr.wf(),
        is_read_of(fr.spec_shards(), busy, cursor, watermark, view, out),
    ensures
        out.len() <= fr.spec_capacity(),
{
    let sh = fr.spec_shards();
    let os = out.map_values(|r: FlightRecord| r.sequence);
    let all = all_sequences(sh);
    lemma_all_sequences(sh, 0, 0);
    assert forall|i: int, j: int| 0 <= i < os.len() && 0 <= j < os.len() && i != j implies os[i] != os[j] by {
        if i < j {
            assert(out[i].sequence < out[j].sequence);
        } else {
            assert(out[j].sequence < out[i].sequence);
        }
    }
    assert(os.no_duplicates());
    os.unique_seq_to_set();
    assert forall|x: u64| os.to_set().contains(x) implies all.to_set().contains(x) by {
        let i = choose|i: int| 0 <= i < os.len() && os[i] == x;
        assert(from_window(sh, busy, cursor, watermark, view, out[i]));
        let (k, j) = choose|k: int, j: int|
            #![trigger sh[k].records@[j]]
            in_window(sh, busy, k, j, cursor as int, watermark as int) && projects(out[i], sh[k].records@[j], view);
        lemma_all_sequences(sh, k, j);
    }
    vstd::set_lib::lemma_len_subset(os.to_set(), all.to_set());
    all.lemma_cardinality_of_set();
    law_retention_never_exceeds_capacity(fr);
}

proof fn lemma_read_member(
    shards: Seq<Shard>,
    busy: Seq<bool>,
    cursor: u64,
    watermark: u64,
    view: RecorderView,
    rec: FlightRecord,
    b: Seq<FlightRecord>,
)
    requires
        from_window(shards, busy, cursor, watermark, view, rec),
        forall|k: int, j: int|
            #![trigger shards[k].records@[j]]
            in_window(shards, busy, k, j, cursor as int, watermark as int) ==> exists|i: int|
                0 <= i < b.len() && #[trigger] b[i].sequence == seq_at(shards, k, j),
    ensures
        exists|p: int| 0 <= p < b.len() && b[p].sequence == rec.sequence,
{
    let (k, j) = choose|k: int, j: int|
        #![trigger shards[k].records@[j]]
        in_window(shards, busy, k, j, cursor as int, watermark as int) && projects(rec, shards[k].records@[j], view);
    assert(in_window(shards, busy, k, j, cursor as int, watermark as int));
    let p = choose|p: int| 0 <= p < b.len() && #[trigger] b[p].sequence == seq_at(shards, k, j);
    assert(b[p].sequence == rec.sequence);
}

pub open spec fn strictly_increasing(x: Seq<u64>) -> bool {
    forall|i: int, j: int| 0 <= i < j < x.len() ==> x[i] < x[j]
}

proof fn lemma_sorted_agree_below(x: Seq<u64>, y: Seq<u64>, n: int)
    requires
        strictly_increasing(x),
        strictly_increasing(y),
        forall|i: int| 0 <= i < x.len() ==> y.contains(#[trigger] x[i]),
        forall|i: int| 0 <= i < y.len() ==> x.contains(#[trigger] y[i]),
        0 <= n <= x.len(),
        n <= y.len(),
    ensures
        forall|i: int| 0 <= i < n ==> x[i] == y[i],
    decreases n,
{
    if n > 0 {
        let i = n - 1;
        lemma_sorted_agree_below(x, y, i);
        assert(y.contains(x[i]));
        assert(x.contains(y[i]));
        let p = choose|p: int| 0 <= p < y.len() && y[p] == x[i];
        let q = choose|q: int| 0 <= q < x.len() && x[q] == y[i];
        if x[i] != y[i] {
            if p < i {
                assert(x[p] == y[p]);
                assert(x[p] < x[i]);
            } else {
                assert(y[i] < y[p]);
                if q < i {
                    assert(x[q] == y[q]);
                    assert(y[q] < y[i]);
                } else {
                    assert(x[i] < x[q]);
                }
            }
        }
    }
}

/// Two strictly increasing sequences with the same members are equal.
proof fn lemma_sorted_same_members(x: Seq<u64>, y: Seq<u64>)
    requires
        strictly_increasing(x),
        strictly_increasing(y),
        forall|i: int| 0 <= i < x.len() ==> y.contains(#[trigger] x[i]),
        forall|i: int| 0 <= i < y.len() ==> x.contains(#[trigger] y[i]),
    ensures
        x == y,
{
    let n = if x.len() <= y.len() {
        x.len() as int
    } else {
        y.len() as int
    };
    lemma_sorted_agree_below(x, y, n);
    if x.len() > y.len() {
        assert(y.contains(x[n]));
        let p = choose|p: int| 0 <= p < y.len() && y[p] == x[n];
        assert(x[p] == y[p]);
        assert(x[p] < x[n]);
    } else if y.len() > x.len() {
        assert(x.contains(y[n]));
        let p = choose|p: int| 0 <= p < x.len() && x[p] == y[n];
        assert(x[p] == y[p]);
        assert(y[p] < y[n]);
    }
    assert(x =~= y);
}

/// `x` and `y` are projections of one retained record.
pub open spec fn same_source(shards: Seq<Shard>, x: FlightRecord, y: FlightRecord, view: RecorderView) -> bool {
    exists|k: int, j: int|
        #![trigger shards[k].records@[j]]
        valid_pos(shards, k, j) && projects(x, shards[k].records@[j], view) && projects(y, shards[k].records@[j], view)
}

/// Two reads of one state, over the same window and shards, agree: the
/// same number of records, in the same sequence order, each the projection
/// of the same retained record.
#[verifier::spinoff_prover]
#[verifier::rlimit(40)]
pub proof fn law_two_reads_of_one_state_agree(
    fr: &FlightRecorder,
    busy: Seq<bool>,
    cursor: u64,
    watermark: u64,
    view: RecorderView,
    a: Seq<FlightRecord>,
    b: Seq<FlightRecord>,
)
    requires
        fr.wf(),
        is_read_of(fr.spec_shards(), busy, cursor, watermark, view, a),
        is_read_of(fr.spec_shards(), busy, cursor, watermark, view, b),
    ensures
        a.len() == b.len(),
        forall|i: int| 0 <= i < a.len() ==> a[i].sequence == b[i].sequence,
        forall|i: int| 0 <= i < a.len() ==> same_source(fr.spec_shards(), #[trigger] a[i], b[i], view),
{
    let sh = fr.spec_shards();
    let xa = a.map_values(|r: FlightRecord| r.sequence);
    let xb = b.map_values(|r: FlightRecord| r.sequence);
    assert forall|i: int| 0 <= i < xa.len() implies xb.contains(#[trigger] xa[i]) by {
        assert(from_window(sh, busy, cursor, watermark, view, a[i]));
        lemma_read_member(sh, busy, cursor, watermark, view, a[i], b);
        let p = choose|p: int| 0 <= p < b.len() && b[p].sequence == a[i].sequence;
        assert(xb[p] == xa[i]);
    }
    assert forall|i: int| 0 <= i < xb.len() implies xa.contains(#[trigger] xb[i]) by {
        assert(from_window(sh, busy, cursor, watermark, view, b[i]));
        lemma_read_member(sh, busy, cursor, watermark, view, b[i], a);
        let p = choose|p: int| 0 <= p < a.len() && a[p].sequence == b[i].sequence;
        assert(xa[p] == xb[i]);
    }
    assert forall|i: int, j: int| 0 <= i < j < xa.len() implies xa[i] < xa[j] by {
        assert(a[i].sequence < a[j].sequence);
    }
    assert forall|i: int, j: int| 0 <= i < j < xb.len() implies xb[i] < xb[j] by {
        assert(b[i].sequence < b[j].sequence);
    }
    lemma_sorted_same_members(xa, xb);
    assert forall|i: int| 0 <= i < a.len() implies a[i].sequence == b[i].sequence by {
        assert(xa[i] == xb[i]);
    }
    assert forall|i: int| 0 <= i < a.len() implies same_source(sh, #[trigger] a[i], b[i], view) by {
        assert(from_window(sh, busy, cursor, watermark, view, a[i]));
        assert(from_window(sh, busy, cursor, watermark, view, b[i]));
        let (k1, j1) = choose|k: int, j: int|
            #![trigger sh[k].records@[j]]
            in_window(sh, busy, k, j, cursor as int, watermark as int) && projects(a[i], sh[k].records@[j], view);
        let (k2, j2) = choose|k: int, j: int|
            #![trigger sh[k].records@[j]]
            in_window(sh, busy, k, j, cursor as int, watermark as int) && projects(b[i], sh[k].records@[j], view);
        assert(xa[i] == xb[i]);
        assert(k1 == k2 && j1 == j2);
        let rec = fr.spec_shards()[k1].records@[j1];
        assert(valid_pos(fr.spec_shards(), k1, j1) && projects(a[i], rec, view) && projects(b[i], rec, view));
    }
}

/// The newest `limit` of `all`, in order.
pub open spec fn newest<'a>(all: Seq<FlightRecord<'a>>, limit: usize) -> Seq<FlightRecord<'a>> {
    if all.len() > limit {
        all.subrange(all.len() - limit, all.len() as int)
    } else {
        all
    }
}

proof fn lemma_newest_agree<'a>(
    shards: Seq<Shard<'a>>,
    view: RecorderView,
    all: Seq<FlightRecord<'a>>,
    full: Seq<FlightRecord<'a>>,
    limit: usize,
)
    requires
        all.len() == full.len(),
        forall|i: int| 0 <= i < all.len() ==> all[i].sequence == full[i].sequence,
        forall|i: int| 0 <= i < all.len() ==> same_source(shards, #[trigger] all[i], full[i], view),
    ensures
        newest(all, limit).len() == newest(full, limit).len(),
        newest(all, limit).len() <= limit,
        forall|i: int|
            0 <= i < newest(all, limit).len() ==> (#[trigger] newest(all, limit)[i]).sequence == newest(
                full,
                limit,
            )[i].sequence && same_source(shards, newest(all, limit)[i], newest(full, limit)[i], view),
{
    let t = newest(all, limit);
    let off = all.len() - t.len();
    assert forall|i: int| 0 <= i < t.len() implies (#[trigger] t[i]).sequence == newest(full, limit)[i].sequence
        && same_source(shards, t[i], newest(full, limit)[i], view) by {
        assert(t[i] == all[off + i]);
        assert(newest(full, limit)[i] == full[off + i]);
        assert(same_source(shards, all[off + i], full[off + i], view));
    }
}

/// What `tail` returns is the newest `limit` records of any full read of
/// the same state: as many records, in the same sequence order, each from
/// the same retained record.
#[verifier::spinoff_prover]
#[verifier::rlimit(40)]
pub proof fn law_tail_is_the_newest_of_a_full_read<'a>(
    fr: &FlightRecorder<'a>,
    limit: usize,
    view: RecorderView,
    full: Seq<FlightRecord<'a>>,
    tailed: Seq<FlightRecord<'a>>,
)
    requires
        fr.wf(),
        is_read_of(
            fr.spec_shards(),
            Seq::new(fr.spec_shards().len(), |k: int| false),
            0,
            fr.spec_next_sequence(),
            view,
            full,
        ),
        exists|all: Seq<FlightRecord<'a>>|
            is_read_of(
                fr.spec_shards(),
                Seq::new(fr.spec_shards().len(), |k: int| false),
                0,
                fr.spec_next_sequence(),
                view,
                all,
            ) && tailed == newest(all, limit),
    ensures
        tailed.len() == newest(full, limit).len(),
        tailed.len() <= limit,
        forall|i: int|
            0 <= i < tailed.len() ==> (#[trigger] tailed[i]).sequence == newest(full, limit)[i].sequence
                && same_source(fr.spec_shards(), tailed[i], newest(full, limit)[i], view),
{
    let busy = Seq::new(fr.spec_shards().len(), |k: int| false);
    let all = choose|all: Seq<FlightRecord<'a>>|
        is_read_of(fr.spec_shards(), busy, 0, fr.spec_next_sequence(), view, all) && tailed == newest(all, limit);
    law_two_reads_of_one_state_agree(fr, busy, 0, fr.spec_next_sequence(), view, all, full);
    lemma_newest_agree(fr.spec_shards(), view, all, full, limit);
}

/// The accepted count is the last sequence number issued: it holds of a
/// new recorder (both are zero) and every emit keeps it, so a full read's
/// `next_cursor` equals `stats().accepted`.
pub proof fn law_accepted_is_the_last_sequence<'a>(
    old: FlightRecorder<'a>,
    new: FlightRecorder<'a>,
    event: ProjectedEvent<'a>,
    shard_key: usize,
)
    requires
        old.wf(),
        old.spec_next_sequence() < u64::MAX,
        emit_outcome(old, new, event, shard_key),
        old.spec_stats().accepted == old.spec_next_sequence(),
    ensures
        new.spec_stats().accepted == new.spec_next_sequence(),
{
}

proof fn lemma_public_fields_visible_locally(fs: Seq<OwnedField>)
    requires
        forall|f: int| 0 <= f < fs.len() ==> (#[trigger] fs[f]).privacy != Privacy::Secret,
    ensures
        visible_fields(fs, RecorderView::Local).len() == fs.len(),
    decreases fs.len(),
{
    if fs.len() > 0 {
        lemma_public_fields_visible_locally(fs.drop_last());
        assert(fs.last() == fs[fs.len() - 1]);
    }
}

/// A read in the local view never overflows an omitted count: retained
/// records hold no secrets, so the local view hides nothing more.
pub proof fn law_local_reads_always_fit(fr: &FlightRecorder)
    requires
        fr.wf(),
    ensures
        fr.fits_view(RecorderView::Local),
{
    let sh = fr.spec_shards();
    assert forall|k: int, j: int| valid_pos(sh, k, j) implies projectable(#[trigger] sh[k].records@[j], RecorderView::Local) by {
        let fs = sh[k].records@[j].event.fields@;
        assert forall|f: int| 0 <= f < fs.len() implies (#[trigger] fs[f]).privacy != Privacy::Secret by {
            assert(sh[k].records@[j].event.fields@[f].privacy != Privacy::Secret);
        }
        lemma_public_fields_visible_locally(fs);
    }
}

} // verus!
