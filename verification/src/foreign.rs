//! Foreign text ingress: text intercepted from outside the facade lands in
//! one quarantine lane, the ad-hoc `foreign.text` event with local-only
//! `origin` and `text` fields.

use vstd::prelude::*;

use crate::model::{
    Class, ContextToken, Detail, EventRef, FieldMetadata, FieldRef, Kind, Metadata, Privacy,
    Severity, ValueRef,
};

verus! {

/// Where imported text came from.
#[derive(Clone, Copy, Debug, PartialEq, Eq, Structural)]
pub enum ForeignOrigin {
    RustStdout,
    RustStderr,
    NightlyRustPrint,
    PanicHook,
    JsConsoleLog,
    JsConsoleDebug,
    JsConsoleInfo,
    JsConsoleWarn,
    JsConsoleError,
}

/// The stable name of an origin.
pub open spec fn origin_name(o: ForeignOrigin) -> Seq<char> {
    match o {
        ForeignOrigin::RustStdout => "rust.stdout"@,
        ForeignOrigin::RustStderr => "rust.stderr"@,
        ForeignOrigin::NightlyRustPrint => "rust.print.nightly"@,
        ForeignOrigin::PanicHook => "rust.panic"@,
        ForeignOrigin::JsConsoleLog => "js.console.log"@,
        ForeignOrigin::JsConsoleDebug => "js.console.debug"@,
        ForeignOrigin::JsConsoleInfo => "js.console.info"@,
        ForeignOrigin::JsConsoleWarn => "js.console.warn"@,
        ForeignOrigin::JsConsoleError => "js.console.error"@,
    }
}

impl ForeignOrigin {
    pub fn as_str(self) -> (r: &'static str)
        ensures
            r@ == origin_name(self),
    {
        match self {
            ForeignOrigin::RustStdout => "rust.stdout",
            ForeignOrigin::RustStderr => "rust.stderr",
            ForeignOrigin::NightlyRustPrint => "rust.print.nightly",
            ForeignOrigin::PanicHook => "rust.panic",
            ForeignOrigin::JsConsoleLog => "js.console.log",
            ForeignOrigin::JsConsoleDebug => "js.console.debug",
            ForeignOrigin::JsConsoleInfo => "js.console.info",
            ForeignOrigin::JsConsoleWarn => "js.console.warn",
            ForeignOrigin::JsConsoleError => "js.console.error",
        }
    }
}

/// A native output stream that can be captured.
#[derive(Clone, Copy, Debug, PartialEq, Eq, Structural)]
pub enum NativeFd {
    Stdout,
    Stderr,
}

impl NativeFd {
    /// The stream's file descriptor number.
    pub fn raw(self) -> (r: i32)
        ensures
            r == match self {
                NativeFd::Stdout => 1i32,
                NativeFd::Stderr => 2i32,
            },
    {
        match self {
            NativeFd::Stdout => 1,
            NativeFd::Stderr => 2,
        }
    }

    /// The origin that text captured from the stream is recorded under.
    pub fn origin(self) -> (r: ForeignOrigin)
        ensures
            r == match self {
                NativeFd::Stdout => ForeignOrigin::RustStdout,
                NativeFd::Stderr => ForeignOrigin::RustStderr,
            },
    {
        match self {
            NativeFd::Stdout => ForeignOrigin::RustStdout,
            NativeFd::Stderr => ForeignOrigin::RustStderr,
        }
    }
}

/// The console method a host intercepted.
#[derive(Clone, Copy, Debug, PartialEq, Eq, Structural)]
pub enum ConsoleOrigin {
    Log,
    Debug,
    Info,
    Warn,
    Error,
}

/// The foreign origin of each console method.
pub open spec fn console_foreign(o: ConsoleOrigin) -> ForeignOrigin {
    match o {
        ConsoleOrigin::Log => ForeignOrigin::JsConsoleLog,
        ConsoleOrigin::Debug => ForeignOrigin::JsConsoleDebug,
        ConsoleOrigin::Info => ForeignOrigin::JsConsoleInfo,
        ConsoleOrigin::Warn => ForeignOrigin::JsConsoleWarn,
        ConsoleOrigin::Error => ForeignOrigin::JsConsoleError,
    }
}

impl ConsoleOrigin {
    /// The foreign origin console text is recorded under.
    pub fn foreign(self) -> (r: ForeignOrigin)
        ensures
            r == console_foreign(self),
    {
        match self {
            ConsoleOrigin::Log => ForeignOrigin::JsConsoleLog,
            ConsoleOrigin::Debug => ForeignOrigin::JsConsoleDebug,
            ConsoleOrigin::Info => ForeignOrigin::JsConsoleInfo,
            ConsoleOrigin::Warn => ForeignOrigin::JsConsoleWarn,
            ConsoleOrigin::Error => ForeignOrigin::JsConsoleError,
        }
    }

    /// The origin name, the same as the matching foreign origin's.
    pub fn as_str(self) -> (r: &'static str)
        ensures
            r@ == origin_name(console_foreign(self)),
    {
        match self {
            ConsoleOrigin::Log => "js.console.log",
            ConsoleOrigin::Debug => "js.console.debug",
            ConsoleOrigin::Info => "js.console.info",
            ConsoleOrigin::Warn => "js.console.warn",
            ConsoleOrigin::Error => "js.console.error",
        }
    }
}

/// The declared fields of `foreign.text`: `origin` then `text`, both
/// local-only core fields.
pub fn foreign_text_schema() -> (r: [FieldMetadata<'static>; 2])
    ensures
        r[0].name@ == "origin"@,
        r[1].name@ == "text"@,
        r[0].privacy == Privacy::LocalOnly,
        r[1].privacy == Privacy::LocalOnly,
        r[0].detail == Detail::Core,
        r[1].detail == Detail::Core,
{
    [
        FieldMetadata { name: "origin", privacy: Privacy::LocalOnly, detail: Detail::Core },
        FieldMetadata { name: "text", privacy: Privacy::LocalOnly, detail: Detail::Core },
    ]
}

/// The call-site metadata of `foreign.text`: a diagnostic, debug-severity,
/// ad-hoc text event with the given declared fields.
pub fn foreign_text_metadata<'a>(fields: &'a [FieldMetadata<'a>]) -> (r: Metadata<'a>)
    ensures
        r.event_name@ == "foreign.text"@,
        r.package@ == "logwise_runtime"@,
        r.target@ == "logwise_runtime::foreign"@,
        r.module@ == "logwise_runtime::foreign"@,
        r.domain is None,
        r.severity == Severity::Debug,
        r.class == Class::Diagnostic,
        r.kind == Kind::AdHocText,
        r.location is None,
        r.fields == fields,
{
    Metadata {
        event_name: "foreign.text",
        package: "logwise_runtime",
        target: "logwise_runtime::foreign",
        module: "logwise_runtime::foreign",
        domain: None,
        severity: Severity::Debug,
        class: Class::Diagnostic,
        kind: Kind::AdHocText,
        location: None,
        fields,
    }
}

/// `f` carries the name of `origin` under `meta`.
pub open spec fn origin_field(f: Option<FieldRef>, meta: FieldMetadata, origin: ForeignOrigin) -> bool {
    match f {
        Some(x) => x.metadata == meta && match x.value {
            ValueRef::Str(o) => o@ == origin_name(origin),
            _ => false,
        },
        None => false,
    }
}

/// The evaluated fields of one `foreign.text` record: the origin's name and
/// the imported text, under the declared schema.
pub fn foreign_text_values<'a>(schema: &'a [FieldMetadata<'a>; 2], origin: ForeignOrigin, text: &'a str) -> (r: [Option<FieldRef<'a>>; 2])
    ensures
        origin_field(r[0], schema[0], origin),
        r[1] == Some(FieldRef { metadata: schema[1], value: ValueRef::Str(text) }),
{
    [
        Some(FieldRef { metadata: schema[0], value: ValueRef::Str(origin.as_str()) }),
        Some(FieldRef { metadata: schema[1], value: ValueRef::Str(text) }),
    ]
}

/// The `foreign.text` event for already-evaluated fields, in `context`.
pub fn foreign_text_event<'a>(
    metadata: &'a Metadata<'a>,
    fields: &'a [Option<FieldRef<'a>>],
    context: ContextToken,
) -> (r: EventRef<'a>)
    ensures
        r.metadata == metadata,
        r.fields == fields,
        r.context == context,
        r.message is None,
{
    EventRef { metadata, context, fields, message: None }
}

} // verus!
