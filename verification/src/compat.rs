//! The `log` and `tracing` bridges: foreign records become quarantined,
//! origin-marked, local-only ad-hoc events; tracing span parentage becomes
//! context lineage; and a reentrancy guard keeps a sink that itself logs
//! from looping back through the bridge.

use vstd::prelude::*;

use crate::model::{
    Class, Detail, FieldMetadata, FieldRef, Interest, Kind, Metadata, Privacy, Severity, ValueRef,
};
use crate::runtime::ContextSlot;
use crate::model::ContextToken;
use crate::sinks::severity_name;
use crate::text::push_char;
use vstd::string::StringExecFns;

verus! {

/// A foreign record's level.
#[derive(Clone, Copy, Debug, PartialEq, Eq, Structural)]
pub enum ForeignLevel {
    Trace,
    Debug,
    Info,
    Warn,
    Error,
}

pub open spec fn level_severity(l: ForeignLevel) -> Severity {
    match l {
        ForeignLevel::Trace => Severity::Trace,
        ForeignLevel::Debug => Severity::Debug,
        ForeignLevel::Info => Severity::Info,
        ForeignLevel::Warn => Severity::Warn,
        ForeignLevel::Error => Severity::Error,
    }
}

pub open spec fn level_suffix(l: ForeignLevel) -> Seq<char> {
    match l {
        ForeignLevel::Trace => "trace"@,
        ForeignLevel::Debug => "debug"@,
        ForeignLevel::Info => "info"@,
        ForeignLevel::Warn => "warn"@,
        ForeignLevel::Error => "error"@,
    }
}

/// The per-thread flag that marks code running inside a bridge.
#[derive(Debug)]
pub struct BridgeState {
    pub in_bridge: bool,
}

impl BridgeState {
    pub fn new() -> (r: BridgeState)
        ensures
            !r.in_bridge,
    {
        BridgeState { in_bridge: false }
    }

    /// Takes the guard. Returns `false`, changing nothing, when the bridge
    /// is already active: a record produced while the bridge runs (a sink
    /// that itself logs) is dropped instead of recursing.
    pub fn enter(&mut self) -> (took: bool)
        ensures
            took == !old(self).in_bridge,
            final(self).in_bridge,
    {
        if self.in_bridge {
            false
        } else {
            self.in_bridge = true;
            true
        }
    }

    pub fn active(&self) -> (r: bool)
        ensures
            r == self.in_bridge,
    {
        self.in_bridge
    }

    /// Releases the guard.
    pub fn leave(&mut self)
        ensures
            !final(self).in_bridge,
    {
        self.in_bridge = false;
    }
}

// ---------------------------------------------------------------------------
// The `log` bridge.
// ---------------------------------------------------------------------------

/// The `log::Log` bridge.
#[derive(Clone, Copy, Debug)]
pub struct LogwiseLogger;

impl LogwiseLogger {
    pub fn new() -> (r: LogwiseLogger)
        ensures
            r == LogwiseLogger,
    {
        LogwiseLogger
    }
}

pub open spec fn log_field_name(i: int) -> Seq<char> {
    if i == 0 {
        "origin"@
    } else if i == 1 {
        "target"@
    } else if i == 2 {
        "module"@
    } else if i == 3 {
        "file"@
    } else if i == 4 {
        "line"@
    } else if i == 5 {
        "message"@
    } else {
        "fields"@
    }
}

/// The declared fields of an imported `log` record, all local-only core.
pub fn log_schema() -> (r: [FieldMetadata<'static>; 7])
    ensures
        forall|i: int|
            0 <= i < 7 ==> (#[trigger] r[i]).name@ == log_field_name(i) && r[i].privacy
                == Privacy::LocalOnly && r[i].detail == Detail::Core,
{
    [
        FieldMetadata { name: "origin", privacy: Privacy::LocalOnly, detail: Detail::Core },
        FieldMetadata { name: "target", privacy: Privacy::LocalOnly, detail: Detail::Core },
        FieldMetadata { name: "module", privacy: Privacy::LocalOnly, detail: Detail::Core },
        FieldMetadata { name: "file", privacy: Privacy::LocalOnly, detail: Detail::Core },
        FieldMetadata { name: "line", privacy: Privacy::LocalOnly, detail: Detail::Core },
        FieldMetadata { name: "message", privacy: Privacy::LocalOnly, detail: Detail::Core },
        FieldMetadata { name: "fields", privacy: Privacy::LocalOnly, detail: Detail::Core },
    ]
}

fn level_name(prefix_tracing: bool, level: ForeignLevel) -> (r: &'static str)
    ensures
        r@ == (if prefix_tracing {
            "foreign.tracing."@
        } else {
            "foreign.log."@
        }) + level_suffix(level),
{
    proof {
        reveal_strlit("foreign.tracing.trace");
        reveal_strlit("foreign.tracing.debug");
        reveal_strlit("foreign.tracing.info");
        reveal_strlit("foreign.tracing.warn");
        reveal_strlit("foreign.tracing.error");
        reveal_strlit("foreign.log.trace");
        reveal_strlit("foreign.log.debug");
        reveal_strlit("foreign.log.info");
        reveal_strlit("foreign.log.warn");
        reveal_strlit("foreign.log.error");
        reveal_strlit("foreign.tracing.");
        reveal_strlit("foreign.log.");
        reveal_strlit("trace");
        reveal_strlit("debug");
        reveal_strlit("info");
        reveal_strlit("warn");
        reveal_strlit("error");
    }
    let r = if prefix_tracing {
        match level {
            ForeignLevel::Trace => "foreign.tracing.trace",
            ForeignLevel::Debug => "foreign.tracing.debug",
            ForeignLevel::Info => "foreign.tracing.info",
            ForeignLevel::Warn => "foreign.tracing.warn",
            ForeignLevel::Error => "foreign.tracing.error",
        }
    } else {
        match level {
            ForeignLevel::Trace => "foreign.log.trace",
            ForeignLevel::Debug => "foreign.log.debug",
            ForeignLevel::Info => "foreign.log.info",
            ForeignLevel::Warn => "foreign.log.warn",
            ForeignLevel::Error => "foreign.log.error",
        }
    };
    proof {
        assert(r@ =~= (if prefix_tracing {
            "foreign.tracing."@
        } else {
            "foreign.log."@
        }) + level_suffix(level));
    }
    r
}

/// The call-site metadata a `log` record of `level` is imported under:
/// `foreign.log.<level>`, a diagnostic ad-hoc event in the `foreign.log`
/// domain.
pub fn log_metadata<'a>(level: ForeignLevel, fields: &'a [FieldMetadata<'a>]) -> (r: Metadata<'a>)
    ensures
        r.event_name@ == "foreign.log."@ + level_suffix(level),
        r.package@ == "logwise_compat_log"@,
        r.target@ == "foreign.log"@,
        r.module@ == "logwise_compat_log"@,
        r.domain matches Some(d) && d@ == "foreign.log"@,
        r.severity == level_severity(level),
        r.class == Class::Diagnostic,
        r.kind == Kind::AdHocText,
        r.location is None,
        r.fields == fields,
{
    let severity = match level {
        ForeignLevel::Trace => Severity::Trace,
        ForeignLevel::Debug => Severity::Debug,
        ForeignLevel::Info => Severity::Info,
        ForeignLevel::Warn => Severity::Warn,
        ForeignLevel::Error => Severity::Error,
    };
    Metadata {
        event_name: level_name(false, level),
        package: "logwise_compat_log",
        target: "foreign.log",
        module: "logwise_compat_log",
        domain: Some("foreign.log"),
        severity,
        class: Class::Diagnostic,
        kind: Kind::AdHocText,
        location: None,
        fields,
    }
}

/// A field of `schema[i]` with `value`, when local-only core fields are
/// wanted.
pub open spec fn local_field<'a>(schema: FieldMetadata<'a>, value: ValueRef<'a>, interest: Interest) -> Option<FieldRef<'a>> {
    if interest.bits & crate::model::interest_bit(Privacy::LocalOnly, Detail::Core) != 0 {
        Some(FieldRef { metadata: schema, value })
    } else {
        None
    }
}

fn local<'a>(schema: FieldMetadata<'a>, value: ValueRef<'a>, interest: Interest) -> (r: Option<FieldRef<'a>>)
    ensures
        r == local_field(schema, value, interest),
{
    if interest.wants(Privacy::LocalOnly, Detail::Core) {
        Some(FieldRef { metadata: schema, value })
    } else {
        None
    }
}

/// The evaluated fields of an imported `log` record: origin `log`, target,
/// module and file (empty when unknown), line (0 when unknown), the
/// rendered message and the rendered key-values. Each is present only when
/// local-only core fields are wanted.
pub fn log_values<'a>(
    schema: &'a [FieldMetadata<'a>; 7],
    interest: Interest,
    target: &'a str,
    module: Option<&'a str>,
    file: Option<&'a str>,
    line: Option<u32>,
    message: &'a str,
    key_values: &'a str,
) -> (r: [Option<FieldRef<'a>>; 7])
    ensures
        r[0] == local_field(schema[0], ValueRef::Str("log"), interest),
        r[1] == local_field(schema[1], ValueRef::Str(target), interest),
        r[2] == local_field(
            schema[2],
            ValueRef::Str(
                match module {
                    Some(m) => m,
                    None => "",
                },
            ),
            interest,
        ),
        r[3] == local_field(
            schema[3],
            ValueRef::Str(
                match file {
                    Some(f) => f,
                    None => "",
                },
            ),
            interest,
        ),
        r[4] == local_field(
            schema[4],
            ValueRef::U64(
                match line {
                    Some(l) => l as u64,
                    None => 0,
                },
            ),
            interest,
        ),
        r[5] == local_field(schema[5], ValueRef::Display(message), interest),
        r[6] == local_field(schema[6], ValueRef::Display(key_values), interest),
{
    let module_text = match module {
        Some(m) => m,
        None => "",
    };
    let file_text = match file {
        Some(f) => f,
        None => "",
    };
    let line_value: u64 = match line {
        Some(l) => l as u64,
        None => 0,
    };
    [
        local(schema[0], ValueRef::Str("log"), interest),
        local(schema[1], ValueRef::Str(target), interest),
        local(schema[2], ValueRef::Str(module_text), interest),
        local(schema[3], ValueRef::Str(file_text), interest),
        local(schema[4], ValueRef::U64(line_value), interest),
        local(schema[5], ValueRef::Display(message), interest),
        local(schema[6], ValueRef::Display(key_values), interest),
    ]
}

/// `{k1=v1, k2=v2}` over already-rendered keys and values.
pub open spec fn key_values_text(pairs: Seq<(Seq<char>, Seq<char>)>) -> Seq<char> {
    "{"@ + joined_pairs(pairs) + "}"@
}

pub open spec fn joined_pairs(pairs: Seq<(Seq<char>, Seq<char>)>) -> Seq<char>
    decreases pairs.len(),
{
    if pairs.len() == 0 {
        Seq::empty()
    } else if pairs.len() == 1 {
        pairs[0].0 + "="@ + pairs[0].1
    } else {
        joined_pairs(pairs.drop_last()) + ", "@ + pairs.last().0 + "="@ + pairs.last().1
    }
}

pub open spec fn pairs_view(v: Seq<(String, String)>) -> Seq<(Seq<char>, Seq<char>)> {
    v.map_values(|p: (String, String)| (p.0@, p.1@))
}

/// Renders a record's key-values as `{key=value, ...}`; each value is its
/// already-rendered `Debug` text.
pub fn render_key_values(pairs: &Vec<(String, String)>) -> (r: String)
    ensures
        r@ == key_values_text(pairs_view(pairs@)),
{
    let ghost pv = pairs_view(pairs@);
    let mut out = String::from_str("{");
    let mut i: usize = 0;
    proof {
        assert(pv.subrange(0, 0) =~= Seq::<(Seq<char>, Seq<char>)>::empty());
        assert(out@ =~= "{"@ + joined_pairs(pv.subrange(0, 0)));
    }
    while i < pairs.len()
        invariant
            pv == pairs_view(pairs@),
            i <= pairs@.len(),
            out@ == "{"@ + joined_pairs(pv.subrange(0, i as int)),
        decreases pairs@.len() - i,
    {
        let ghost before = out@;
        let ghost pre = pv.subrange(0, i as int);
        let ghost post = pv.subrange(0, i + 1);
        proof {
            assert(post.drop_last() =~= pre);
            assert(post.last() == pv[i as int]);
            assert(pv[i as int] == (pairs@[i as int].0@, pairs@[i as int].1@));
        }
        if i > 0 {
            out.append(", ");
        }
        out.append(pairs[i].0.as_str());
        out.append("=");
        out.append(pairs[i].1.as_str());
        proof {
            if i == 0 {
                assert(post.len() == 1);
                assert(post[0] == pv[0]);
            }
            assert(out@ =~= "{"@ + joined_pairs(post));
        }
        i = i + 1;
    }
    out.append("}");
    proof {
        assert(pv.subrange(0, pairs@.len() as int) =~= pv);
        assert(out@ =~= key_values_text(pv));
    }
    out
}

// ---------------------------------------------------------------------------
// The `tracing` bridge.
// ---------------------------------------------------------------------------

/// The `tracing` layer bridge.
#[derive(Clone, Copy, Debug)]
pub struct LogwiseLayer;

impl LogwiseLayer {
    pub fn new() -> (r: LogwiseLayer)
        ensures
            r == LogwiseLayer,
    {
        LogwiseLayer
    }
}

/// The call-site metadata a tracing record of `level` is imported under:
/// `foreign.tracing.<level>`, a diagnostic ad-hoc event in the
/// `foreign.tracing` domain.
pub fn tracing_metadata<'a>(level: ForeignLevel, fields: &'a [FieldMetadata<'a>]) -> (r: Metadata<'a>)
    ensures
        r.event_name@ == "foreign.tracing."@ + level_suffix(level),
        r.package@ == "logwise_compat_tracing"@,
        r.target@ == "foreign.tracing"@,
        r.module@ == "logwise_compat_tracing"@,
        r.domain matches Some(d) && d@ == "foreign.tracing"@,
        r.severity == level_severity(level),
        r.class == Class::Diagnostic,
        r.kind == Kind::AdHocText,
        r.location is None,
        r.fields == fields,
{
    let severity = match level {
        ForeignLevel::Trace => Severity::Trace,
        ForeignLevel::Debug => Severity::Debug,
        ForeignLevel::Info => Severity::Info,
        ForeignLevel::Warn => Severity::Warn,
        ForeignLevel::Error => Severity::Error,
    };
    Metadata {
        event_name: level_name(true, level),
        package: "logwise_compat_tracing",
        target: "foreign.tracing",
        module: "logwise_compat_tracing",
        domain: Some("foreign.tracing"),
        severity,
        class: Class::Diagnostic,
        kind: Kind::AdHocText,
        location: None,
        fields,
    }
}

pub open spec fn tracing_field_name(i: int) -> Seq<char> {
    if i == 0 {
        "origin"@
    } else if i == 1 {
        "operation"@
    } else if i == 2 {
        "target"@
    } else if i == 3 {
        "name"@
    } else if i == 4 {
        "tracing_id"@
    } else if i == 5 {
        "parent_id"@
    } else {
        "fields"@
    }
}

/// The declared fields of an imported tracing record, all local-only core.
pub fn tracing_schema() -> (r: [FieldMetadata<'static>; 7])
    ensures
        forall|i: int|
            0 <= i < 7 ==> (#[trigger] r[i]).name@ == tracing_field_name(i) && r[i].privacy
                == Privacy::LocalOnly && r[i].detail == Detail::Core,
{
    [
        FieldMetadata { name: "origin", privacy: Privacy::LocalOnly, detail: Detail::Core },
        FieldMetadata { name: "operation", privacy: Privacy::LocalOnly, detail: Detail::Core },
        FieldMetadata { name: "target", privacy: Privacy::LocalOnly, detail: Detail::Core },
        FieldMetadata { name: "name", privacy: Privacy::LocalOnly, detail: Detail::Core },
        FieldMetadata { name: "tracing_id", privacy: Privacy::LocalOnly, detail: Detail::Core },
        FieldMetadata { name: "parent_id", privacy: Privacy::LocalOnly, detail: Detail::Core },
        FieldMetadata { name: "fields", privacy: Privacy::LocalOnly, detail: Detail::Core },
    ]
}

/// The evaluated fields of an imported tracing record (`span.new`,
/// `span.record`, `span.link`, `span.close` or `event`).
pub fn tracing_values<'a>(
    schema: &'a [FieldMetadata<'a>; 7],
    interest: Interest,
    operation: &'a str,
    target: &'a str,
    name: &'a str,
    tracing_id: u64,
    parent_id: u64,
    imported_fields: &'a str,
) -> (r: [Option<FieldRef<'a>>; 7])
    ensures
        r[0] == local_field(schema[0], ValueRef::Str("tracing"), interest),
        r[1] == local_field(schema[1], ValueRef::Str(operation), interest),
        r[2] == local_field(schema[2], ValueRef::Str(target), interest),
        r[3] == local_field(schema[3], ValueRef::Str(name), interest),
        r[4] == local_field(schema[4], ValueRef::U64(tracing_id), interest),
        r[5] == local_field(schema[5], ValueRef::U64(parent_id), interest),
        r[6] == local_field(schema[6], ValueRef::Str(imported_fields), interest),
{
    [
        local(schema[0], ValueRef::Str("tracing"), interest),
        local(schema[1], ValueRef::Str(operation), interest),
        local(schema[2], ValueRef::Str(target), interest),
        local(schema[3], ValueRef::Str(name), interest),
        local(schema[4], ValueRef::U64(tracing_id), interest),
        local(schema[5], ValueRef::U64(parent_id), interest),
        local(schema[6], ValueRef::Str(imported_fields), interest),
    ]
}

/// Appends one visited field as `name=value` (its `Debug` text), separated
/// from earlier ones by `, `.
pub fn record_field(output: &mut String, name: &str, value: &str)
    ensures
        final(output)@ == old(output)@ + (if old(output)@.len() == 0 {
            Seq::<char>::empty()
        } else {
            ", "@
        }) + name@ + "="@ + value@,
{
    let ghost before = output@;
    if !output.as_str().is_empty() {
        output.append(", ");
    }
    output.append(name);
    output.append("=");
    output.append(value);
    proof {
        assert(output@ =~= before + (if before.len() == 0 {
            Seq::<char>::empty()
        } else {
            ", "@
        }) + name@ + "="@ + value@);
    }
}

/// One tracing span entered on this thread: its id, the context it entered
/// and the context its exit restores.
#[derive(Clone, Copy, Debug)]
pub struct EnteredSpan {
    pub id: u64,
    pub context: ContextToken,
    pub previous: ContextToken,
}

/// The spans entered on this thread, innermost last.
#[derive(Debug)]
pub struct EnteredStack {
    pub entries: Vec<EnteredSpan>,
}

/// Entries form a restoration chain from `base`: each restores the context
/// of the one below it, the first restores `base`, and the current context
/// is the innermost entered one.
pub open spec fn chained(entries: Seq<EnteredSpan>, base: ContextToken, current: ContextToken) -> bool {
    &&& forall|i: int|
        0 <= i < entries.len() ==> (#[trigger] entries[i]).previous == if i == 0 {
            base
        } else {
            entries[i - 1].context
        }
    &&& current == if entries.len() == 0 {
        base
    } else {
        entries.last().context
    }
}

/// The spans and contexts entered, innermost last.
pub open spec fn entered_view(entries: Seq<EnteredSpan>) -> Seq<(u64, ContextToken)> {
    entries.map_values(|e: EnteredSpan| (e.id, e.context))
}

/// The innermost position at which span `id` is entered.
pub open spec fn last_position(entries: Seq<EnteredSpan>, id: u64) -> Option<int>
    decreases entries.len(),
{
    if entries.len() == 0 {
        None
    } else if entries.last().id == id {
        Some(entries.len() - 1)
    } else {
        last_position(entries.drop_last(), id)
    }
}

proof fn lemma_last_position(entries: Seq<EnteredSpan>, id: u64)
    ensures
        last_position(entries, id) matches Some(p) ==> 0 <= p < entries.len() && entries[p].id == id
            && forall|q: int| p < q < entries.len() ==> entries[q].id != id,
        last_position(entries, id) is None ==> forall|q: int| 0 <= q < entries.len() ==> entries[q].id != id,
    decreases entries.len(),
{
    if entries.len() > 0 && entries.last().id != id {
        let rest = entries.drop_last();
        lemma_last_position(rest, id);
        assert forall|q: int| 0 <= q < rest.len() implies rest[q] == entries[q] by {}
        if let Some(p) = last_position(rest, id) {
            assert(rest[p] == entries[p]);
            assert forall|q: int| p < q < entries.len() implies entries[q].id != id by {
                if q < rest.len() {
                    assert(rest[q] == entries[q]);
                }
            }
        } else {
            assert forall|q: int| 0 <= q < entries.len() implies entries[q].id != id by {
                if q < rest.len() {
                    assert(rest[q] == entries[q]);
                }
            }
        }
    }
}

impl EnteredStack {
    pub fn new() -> (r: EnteredStack)
        ensures
            r.entries@.len() == 0,
    {
        EnteredStack { entries: Vec::new() }
    }

    /// Span `id` was entered: makes `context` current and remembers what
    /// its exit restores.
    pub fn enter(&mut self, slot: &mut ContextSlot, id: u64, context: ContextToken)
        ensures
            entered_view(final(self).entries@) == entered_view(old(self).entries@).push((id, context)),
            forall|base: ContextToken|
                chained(old(self).entries@, base, old(slot).current) ==> chained(
                    final(self).entries@,
                    base,
                    final(slot).current,
                ),
    {
        let previous = slot.enter(context);
        let ghost before = self.entries@;
        self.entries.push(EnteredSpan { id, context, previous });
        proof {
            assert(entered_view(self.entries@) =~= entered_view(before).push((id, context)));
            assert forall|base: ContextToken| chained(before, base, old(slot).current) implies chained(
                self.entries@,
                base,
                slot.current,
            ) by {
                assert forall|i: int| 0 <= i < self.entries@.len() implies (#[trigger] self.entries@[i]).previous
                    == if i == 0 {
                    base
                } else {
                    self.entries@[i - 1].context
                } by {
                    if i < before.len() {
                        assert(self.entries@[i] == before[i]);
                        if i > 0 {
                            assert(self.entries@[i - 1] == before[i - 1]);
                        }
                    } else if i > 0 {
                        assert(self.entries@[i - 1] == before[i - 1]);
                    }
                }
            }
        }
    }

    /// Span `id` was exited. Spans may be exited out of order, and each
    /// entry restores the context that was current when it was entered, so
    /// the stack is unwound from the top down to the span's innermost entry,
    /// that entry is dropped, and the spans above it are entered again in
    /// their original order. A span not entered on this thread is ignored.
    pub fn exit(&mut self, slot: &mut ContextSlot, id: u64)
        ensures
            match last_position(old(self).entries@, id) {
                None => final(self).entries@ == old(self).entries@ && final(slot).current == old(
                    slot,
                ).current,
                Some(p) => entered_view(final(self).entries@) == entered_view(old(self).entries@).remove(p),
            },
            forall|base: ContextToken|
                chained(old(self).entries@, base, old(slot).current) ==> chained(
                    final(self).entries@,
                    base,
                    final(slot).current,
                ),
    {
        let ghost orig = self.entries@;
        let ghost cur0 = slot.current;
        proof {
            lemma_last_position(orig, id);
        }
        let mut position: Option<usize> = None;
        let mut k = self.entries.len();
        while k > 0
            invariant_except_break
                position is None,
            invariant
                k <= orig.len(),
                orig == self.entries@,
                forall|q: int| k <= q < orig.len() ==> orig[q].id != id,
            ensures
                match position {
                    Some(p) => p < orig.len() && orig[p as int].id == id && forall|q: int|
                        p < q < orig.len() ==> orig[q].id != id,
                    None => forall|q: int| 0 <= q < orig.len() ==> orig[q].id != id,
                },
            decreases k,
        {
            if self.entries[k - 1].id == id {
                position = Some(k - 1);
                break;
            }
            k = k - 1;
        }
        let p = match position {
            None => {
                proof {
                    assert(last_position(orig, id) is None) by {
                        if let Some(x) = last_position(orig, id) {
                            assert(orig[x].id == id);
                        }
                    }
                }
                return;
            },
            Some(p) => p,
        };
        proof {
            assert(last_position(orig, id) == Some(p as int)) by {
                if let Some(x) = last_position(orig, id) {
                    if x < p {
                        assert(orig[p as int].id == id);
                    }
                    if x > p {
                        assert(orig[x].id == id);
                    }
                } else {
                    assert(orig[p as int].id == id);
                }
            }
        }
        let mut above: Vec<EnteredSpan> = Vec::new();
        while self.entries.len() > p + 1
            invariant
                p < orig.len(),
                p + 1 <= self.entries@.len() <= orig.len(),
                self.entries@ == orig.subrange(0, self.entries@.len() as int),
                above@.len() == orig.len() - self.entries@.len(),
                forall|x: int| 0 <= x < above@.len() ==> #[trigger] above@[x] == orig[orig.len() - 1 - x],
                forall|base: ContextToken|
                    chained(orig, base, cur0) ==> chained(self.entries@, base, slot.current),
            decreases self.entries@.len(),
        {
            let ghost before = self.entries@;
            let e = self.entries.pop().unwrap();
            slot.exit(e.previous);
            above.push(e);
            proof {
                assert(self.entries@ =~= orig.subrange(0, self.entries@.len() as int));
                assert forall|base: ContextToken| chained(orig, base, cur0) implies chained(
                    self.entries@,
                    base,
                    slot.current,
                ) by {
                    assert(before[before.len() - 1] == e);
                    if self.entries@.len() > 0 {
                        assert(self.entries@.last() == before[before.len() - 2]);
                    }
                    assert forall|i: int| 0 <= i < self.entries@.len() implies (#[trigger] self.entries@[i]).previous
                        == if i == 0 {
                        base
                    } else {
                        self.entries@[i - 1].context
                    } by {
                        assert(self.entries@[i] == before[i]);
                        if i > 0 {
                            assert(self.entries@[i - 1] == before[i - 1]);
                        }
                    }
                }
            }
        }
        let ghost below = orig.subrange(0, p as int);
        let e = self.entries.pop().unwrap();
        slot.exit(e.previous);
        proof {
            assert(self.entries@ =~= below);
        }
        let mut i = above.len();
        while i > 0
            invariant
                p < orig.len(),
                i <= above@.len(),
                above@.len() == orig.len() - 1 - p,
                forall|x: int| 0 <= x < above@.len() ==> #[trigger] above@[x] == orig[orig.len() - 1 - x],
                self.entries@.len() == p + (above@.len() - i),
                entered_view(self.entries@) == entered_view(orig).remove(p as int).subrange(
                    0,
                    self.entries@.len() as int,
                ),
                forall|base: ContextToken|
                    chained(orig, base, cur0) ==> chained(self.entries@, base, slot.current),
            decreases i,
        {
            let a = above[i - 1];
            let ghost before = self.entries@;
            let previous = slot.enter(a.context);
            self.entries.push(EnteredSpan { id: a.id, context: a.context, previous });
            proof {
                let n = before.len();
                assert(a == orig[orig.len() - i]);
                assert(orig.len() - i == n + 1);
                assert(entered_view(self.entries@) =~= entered_view(orig).remove(p as int).subrange(
                    0,
                    self.entries@.len() as int,
                )) by {
                    assert forall|x: int| 0 <= x < self.entries@.len() implies entered_view(self.entries@)[x]
                        == entered_view(orig).remove(p as int)[x] by {
                        if x < n {
                            assert(entered_view(self.entries@)[x] == entered_view(before)[x]);
                            assert(entered_view(before)[x] == entered_view(orig).remove(p as int).subrange(0, n as int)[x]);
                        }
                    }
                }
                assert forall|base: ContextToken| chained(orig, base, cur0) implies chained(
                    self.entries@,
                    base,
                    slot.current,
                ) by {
                    assert forall|j: int| 0 <= j < self.entries@.len() implies (#[trigger] self.entries@[j]).previous
                        == if j == 0 {
                        base
                    } else {
                        self.entries@[j - 1].context
                    } by {
                        if j < n {
                            assert(self.entries@[j] == before[j]);
                            if j > 0 {
                                assert(self.entries@[j - 1] == before[j - 1]);
                            }
                        } else if j > 0 {
                            assert(self.entries@[j - 1] == before[j - 1]);
                        }
                    }
                }
            }
            i = i - 1;
        }
        proof {
            assert(entered_view(self.entries@) =~= entered_view(orig).remove(p as int));
        }
    }
}

/// Once every entered span has been exited, in any order, the context that
/// was current before the first of them is current again.
pub proof fn law_exits_in_any_order_restore_the_entry_context(
    entries: Seq<EnteredSpan>,
    base: ContextToken,
    current: ContextToken,
)
    requires
        chained(entries, base, current),
        entries.len() == 0,
    ensures
        current == base,
{
}

/// `c` in lower case, for ASCII letters.
pub open spec fn ascii_lower(c: char) -> char {
    if 'A' <= c <= 'Z' {
        ((c as int) + 32) as char
    } else {
        c
    }
}

pub open spec fn lower_case(s: Seq<char>) -> Seq<char> {
    s.map_values(|c: char| ascii_lower(c))
}

/// A foreign record keeps its level: the severity it is imported under is
/// the one of the same name (the severity's name in lower case is the
/// level's suffix in the event name), and different levels never share a
/// severity.
pub proof fn law_imported_severity_is_the_foreign_level(l: ForeignLevel, other: ForeignLevel)
    ensures
        lower_case(severity_name(level_severity(l))) == level_suffix(l),
        l != other ==> level_severity(l) != level_severity(other),
{
    reveal_strlit("Trace");
    reveal_strlit("Debug");
    reveal_strlit("Info");
    reveal_strlit("Warn");
    reveal_strlit("Error");
    reveal_strlit("trace");
    reveal_strlit("debug");
    reveal_strlit("info");
    reveal_strlit("warn");
    reveal_strlit("error");
    assert(lower_case(severity_name(level_severity(l))) =~= level_suffix(l));
}

} // verus!
