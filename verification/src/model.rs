//! The facade data model that every runtime component consumes: privacy and
//! detail tiers, severities, classes, call-site metadata, borrowed values and
//! context tokens.

use vstd::prelude::*;

verus! {

/// Who may observe a field.
#[derive(Clone, Copy, Debug, PartialEq, Eq, Structural)]
pub enum Privacy {
    /// Safe to leave the machine.
    SupportSafe,
    /// Retained locally only.
    LocalOnly,
    /// Never retained at all.
    Secret,
}

/// Whether a field is part of the cheap core record or expensive detail.
#[derive(Clone, Copy, Debug, PartialEq, Eq, Structural)]
pub enum Detail {
    Core,
    Detail,
}

/// Event severity, ordered from noisiest to most severe.
#[derive(Clone, Copy, Debug, PartialEq, Eq, Structural)]
pub enum Severity {
    Trace,
    Debug,
    Info,
    Warn,
    Error,
}

/// Why an event exists.
#[derive(Clone, Copy, Debug, PartialEq, Eq, Structural)]
pub enum Class {
    Operational,
    Diagnostic,
    Forensic,
    Performance,
    Metric,
}

/// The shape of an event's payload.
#[derive(Clone, Copy, Debug, PartialEq, Eq, Structural)]
pub enum Kind {
    /// A durable event with a stable schema.
    Event,
    /// Opaque text without field-level privacy; never routed remotely.
    AdHocText,
}

/// Wire code of a privacy tier.
pub open spec fn privacy_code_spec(p: Privacy) -> u8 {
    match p {
        Privacy::SupportSafe => 0,
        Privacy::LocalOnly => 1,
        Privacy::Secret => 2,
    }
}

/// Wire code of a detail tier.
pub open spec fn detail_code_spec(d: Detail) -> u8 {
    match d {
        Detail::Core => 0,
        Detail::Detail => 1,
    }
}

/// Wire code of a severity.
pub open spec fn severity_code_spec(s: Severity) -> u8 {
    match s {
        Severity::Trace => 0,
        Severity::Debug => 1,
        Severity::Info => 2,
        Severity::Warn => 3,
        Severity::Error => 4,
    }
}

/// Wire code of a class.
pub open spec fn class_code_spec(c: Class) -> u8 {
    match c {
        Class::Operational => 0,
        Class::Diagnostic => 1,
        Class::Forensic => 2,
        Class::Performance => 3,
        Class::Metric => 4,
    }
}

/// Wire code of a kind.
pub open spec fn kind_code_spec(k: Kind) -> u8 {
    match k {
        Kind::Event => 0,
        Kind::AdHocText => 1,
    }
}

impl Privacy {
    pub fn code(self) -> (r: u8)
        ensures
            r == privacy_code_spec(self),
    {
        match self {
            Privacy::SupportSafe => 0,
            Privacy::LocalOnly => 1,
            Privacy::Secret => 2,
        }
    }
}

impl Detail {
    pub fn code(self) -> (r: u8)
        ensures
            r == detail_code_spec(self),
    {
        match self {
            Detail::Core => 0,
            Detail::Detail => 1,
        }
    }
}

impl Severity {
    pub fn code(self) -> (r: u8)
        ensures
            r == severity_code_spec(self),
    {
        match self {
            Severity::Trace => 0,
            Severity::Debug => 1,
            Severity::Info => 2,
            Severity::Warn => 3,
            Severity::Error => 4,
        }
    }
}

impl Class {
    pub fn code(self) -> (r: u8)
        ensures
            r == class_code_spec(self),
    {
        match self {
            Class::Operational => 0,
            Class::Diagnostic => 1,
            Class::Forensic => 2,
            Class::Performance => 3,
            Class::Metric => 4,
        }
    }
}

impl Kind {
    pub fn code(self) -> (r: u8)
        ensures
            r == kind_code_spec(self),
    {
        match self {
            Kind::Event => 0,
            Kind::AdHocText => 1,
        }
    }
}

/// A fixed-size, copyable handle naming a logical context.
#[derive(Clone, Copy, Debug, PartialEq, Eq, Structural)]
pub struct ContextToken {
    pub id: u64,
    pub flags: u64,
}

impl ContextToken {
    /// The absent context.
    pub fn none() -> (r: ContextToken)
        ensures
            r.id == 0,
            r.flags == 0,
    {
        ContextToken { id: 0, flags: 0 }
    }

    pub fn from_parts(id: u64, flags: u64) -> (r: ContextToken)
        ensures
            r.id == id,
            r.flags == flags,
    {
        ContextToken { id, flags }
    }

    pub fn into_parts(self) -> (r: (u64, u64))
        ensures
            r == (self.id, self.flags),
    {
        (self.id, self.flags)
    }

    pub fn is_none(self) -> (r: bool)
        ensures
            r == (self.id == 0),
    {
        self.id == 0
    }
}

/// A source location.
#[derive(Clone, Copy, Debug)]
pub struct Location<'a> {
    pub file: &'a str,
    pub line: u32,
    pub column: u32,
}

/// Static description of one declared field.
#[derive(Clone, Copy, Debug)]
pub struct FieldMetadata<'a> {
    pub name: &'a str,
    pub privacy: Privacy,
    pub detail: Detail,
}

/// Static description of a call site.
#[derive(Clone, Copy, Debug)]
pub struct Metadata<'a> {
    pub event_name: &'a str,
    pub package: &'a str,
    pub target: &'a str,
    pub module: &'a str,
    pub domain: Option<&'a str>,
    pub severity: Severity,
    pub class: Class,
    pub kind: Kind,
    pub location: Option<Location<'a>>,
    pub fields: &'a [FieldMetadata<'a>],
}

/// A borrowed field value. Floating-point values travel as their IEEE-754
/// bit pattern; `Debug` and `Display` values carry the text their formatting
/// produced.
#[derive(Clone, Copy, Debug)]
pub enum ValueRef<'a> {
    Bool(bool),
    I64(i64),
    U64(u64),
    F64Bits(u64),
    Str(&'a str),
    Debug(&'a str),
    Display(&'a str),
}

/// One evaluated field of an event.
#[derive(Clone, Copy, Debug)]
pub struct FieldRef<'a> {
    pub metadata: FieldMetadata<'a>,
    pub value: ValueRef<'a>,
}

/// A borrowed event as a call site hands it to the dispatcher. A `None`
/// field was not evaluated because no observer asked for it.
#[derive(Clone, Copy, Debug)]
pub struct EventRef<'a> {
    pub metadata: &'a Metadata<'a>,
    pub context: ContextToken,
    pub fields: &'a [Option<FieldRef<'a>>],
    pub message: Option<&'a str>,
}


/// The interest bit of one field group: core fields use the low three
/// bits (support-safe, local-only, secret), detail fields the next three.
pub open spec fn interest_bit(privacy: Privacy, detail: Detail) -> usize {
    let tier: usize = match privacy {
        Privacy::SupportSafe => 1,
        Privacy::LocalOnly => 2,
        Privacy::Secret => 4,
    };
    match detail {
        Detail::Core => tier,
        Detail::Detail => (tier * 8) as usize,
    }
}

fn field_group_bit(privacy: Privacy, detail: Detail) -> (r: usize)
    ensures
        r == interest_bit(privacy, detail),
{
    let tier: usize = match privacy {
        Privacy::SupportSafe => 1,
        Privacy::LocalOnly => 2,
        Privacy::Secret => 4,
    };
    match detail {
        Detail::Core => tier,
        Detail::Detail => tier * 8,
    }
}

/// Bit of an interest mask that asks call sites to consult the dispatcher
/// per context because a targeted activation is live.
pub const INTEREST_CONTEXTUAL: usize = 0x40;

/// Which field groups some observer wants recorded, as a bit mask over
/// core/detail cost and privacy tier, plus the contextual refinement bit.
#[derive(Clone, Copy, Debug, PartialEq, Eq, Structural)]
pub struct Interest {
    pub bits: usize,
}

impl Interest {
    pub fn none() -> (r: Interest)
        ensures
            r.bits == 0,
    {
        Interest { bits: 0 }
    }

    pub fn from_bits(bits: usize) -> (r: Interest)
        ensures
            r.bits == bits,
    {
        Interest { bits }
    }

    pub fn bits(self) -> (r: usize)
        ensures
            r == self.bits,
    {
        self.bits
    }

    /// Everything either mask asks for.
    pub fn union(self, other: Interest) -> (r: Interest)
        ensures
            r.bits == self.bits | other.bits,
    {
        Interest { bits: self.bits | other.bits }
    }

    /// The mask without its contextual refinement bit.
    pub fn without_contextual(self) -> (r: Interest)
        ensures
            r.bits == self.bits & !INTEREST_CONTEXTUAL,
    {
        Interest { bits: self.bits & !INTEREST_CONTEXTUAL }
    }

    /// Whether anything at all is asked for.
    pub fn any(self) -> (r: bool)
        ensures
            r == (self.bits != 0),
    {
        self.bits != 0
    }

    /// Whether fields of this privacy tier and cost are asked for.
    pub fn wants(self, privacy: Privacy, detail: Detail) -> (r: bool)
        ensures
            r == (self.bits & interest_bit(privacy, detail) != 0),
    {
        self.bits & field_group_bit(privacy, detail) != 0
    }

    pub fn is_contextual(self) -> (r: bool)
        ensures
            r == (self.bits & INTEREST_CONTEXTUAL != 0),
    {
        self.bits & INTEREST_CONTEXTUAL != 0
    }
}

/// What a span measures.
#[derive(Clone, Copy, Debug, PartialEq, Eq, Structural)]
pub enum SpanTiming {
    WallTime,
    ActiveTime,
    WakeLatency,
}

/// A fixed-size handle naming a started span.
#[derive(Clone, Copy, Debug, PartialEq, Eq, Structural)]
pub struct SpanToken {
    pub id: u64,
    pub flags: u64,
}

impl SpanToken {
    pub fn from_parts(id: u64, flags: u64) -> (r: SpanToken)
        ensures
            r.id == id,
            r.flags == flags,
    {
        SpanToken { id, flags }
    }

    pub fn into_parts(self) -> (r: (u64, u64))
        ensures
            r == (self.id, self.flags),
    {
        (self.id, self.flags)
    }
}

/// A span as a call site starts it: the event it belongs to, what it
/// measures, and an optional warning threshold in nanoseconds.
#[derive(Clone, Copy, Debug)]
pub struct SpanRef<'a> {
    pub event: EventRef<'a>,
    pub timing: SpanTiming,
    pub warning_threshold: Option<u64>,
}

} // verus!
