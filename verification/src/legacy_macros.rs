//! Expansions of the legacy runtime logging macros (`info_sync!`,
//! `warn_sync!` and their kin), which address the runtime crate directly.

use vstd::prelude::*;

use crate::lformat::{lformat_impl, lformat_spec, lone_quote_literal};
use crate::parser::TokenTree;
use vstd::string::StringExecFns;

verus! {

/// Expansion of `trace_sync!`: the formatter calls `lformat_impl` generates for
/// `input`, inside this macro's record set-up and hand-off.
pub fn trace_sync_impl(input: &[TokenTree]) -> (r: String)
    requires
        !lone_quote_literal(input@),
    ensures
        r@ == "\n        #[cfg(debug_assertions)]\n        {\n            if logwise_runtime::log_enabled!(logwise_runtime::Level::Trace) {\n                let mut __logwise_record = logwise_runtime::hidden::trace_sync_pre(file!(),line!(),column!());\n\n                let mut __logwise_formatter = logwise_runtime::hidden::PrivateFormatter::new(&mut __logwise_record);\n\n                "@ + lformat_spec(input@, "__logwise_formatter"@).0 + "\n                logwise_runtime::hidden::trace_sync_post(__logwise_record);\n            }\n        }\n    "@,
{
    let lf = lformat_impl(input, String::from_str("__logwise_formatter"));
    let mut src = String::from_str("\n        #[cfg(debug_assertions)]\n        {\n            if logwise_runtime::log_enabled!(logwise_runtime::Level::Trace) {\n                let mut __logwise_record = logwise_runtime::hidden::trace_sync_pre(file!(),line!(),column!());\n\n                let mut __logwise_formatter = logwise_runtime::hidden::PrivateFormatter::new(&mut __logwise_record);\n\n                ");
    src.append(lf.output.as_str());
    src.append("\n                logwise_runtime::hidden::trace_sync_post(__logwise_record);\n            }\n        }\n    ");
    proof {
        assert(src@ =~= "\n        #[cfg(debug_assertions)]\n        {\n            if logwise_runtime::log_enabled!(logwise_runtime::Level::Trace) {\n                let mut __logwise_record = logwise_runtime::hidden::trace_sync_pre(file!(),line!(),column!());\n\n                let mut __logwise_formatter = logwise_runtime::hidden::PrivateFormatter::new(&mut __logwise_record);\n\n                "@ + lformat_spec(input@, "__logwise_formatter"@).0 + "\n                logwise_runtime::hidden::trace_sync_post(__logwise_record);\n            }\n        }\n    "@);
    }
    src
}

/// Expansion of `trace_async!`: the formatter calls `lformat_impl` generates for
/// `input`, inside this macro's record set-up and hand-off.
pub fn trace_async_impl(input: &[TokenTree]) -> (r: String)
    requires
        !lone_quote_literal(input@),
    ensures
        r@ == "\n        #[cfg(debug_assertions)]\n        {\n            if logwise_runtime::log_enabled!(logwise_runtime::Level::Trace) {\n                let mut __logwise_record = logwise_runtime::hidden::trace_sync_pre(file!(),line!(),column!());\n\n                let mut __logwise_formatter = logwise_runtime::hidden::PrivateFormatter::new(&mut __logwise_record);\n\n                "@ + lformat_spec(input@, "__logwise_formatter"@).0 + "\n                logwise_runtime::hidden::trace_async_post(__logwise_record).await;\n            }\n        }\n    "@,
{
    let lf = lformat_impl(input, String::from_str("__logwise_formatter"));
    let mut src = String::from_str("\n        #[cfg(debug_assertions)]\n        {\n            if logwise_runtime::log_enabled!(logwise_runtime::Level::Trace) {\n                let mut __logwise_record = logwise_runtime::hidden::trace_sync_pre(file!(),line!(),column!());\n\n                let mut __logwise_formatter = logwise_runtime::hidden::PrivateFormatter::new(&mut __logwise_record);\n\n                ");
    src.append(lf.output.as_str());
    src.append("\n                logwise_runtime::hidden::trace_async_post(__logwise_record).await;\n            }\n        }\n    ");
    proof {
        assert(src@ =~= "\n        #[cfg(debug_assertions)]\n        {\n            if logwise_runtime::log_enabled!(logwise_runtime::Level::Trace) {\n                let mut __logwise_record = logwise_runtime::hidden::trace_sync_pre(file!(),line!(),column!());\n\n                let mut __logwise_formatter = logwise_runtime::hidden::PrivateFormatter::new(&mut __logwise_record);\n\n                "@ + lformat_spec(input@, "__logwise_formatter"@).0 + "\n                logwise_runtime::hidden::trace_async_post(__logwise_record).await;\n            }\n        }\n    "@);
    }
    src
}

/// Expansion of `debuginternal_sync!`: the formatter calls `lformat_impl` generates for
/// `input`, inside this macro's record set-up and hand-off.
pub fn debuginternal_sync_impl(input: &[TokenTree]) -> (r: String)
    requires
        !lone_quote_literal(input@),
    ensures
        r@ == "\n        #[cfg(debug_assertions)] {\n            if logwise_runtime::log_enabled!(logwise_runtime::Level::DebugInternal) {\n                    let mut __logwise_record = logwise_runtime::hidden::debuginternal_pre(file!(),line!(),column!());\n                    let mut __logwise_formatter = logwise_runtime::hidden::PrivateFormatter::new(&mut __logwise_record);\n                    "@ + lformat_spec(input@, "__logwise_formatter"@).0 + "\n                    logwise_runtime::hidden::debuginternal_sync_post(__logwise_record);\n           }\n        }\n    "@,
{
    let lf = lformat_impl(input, String::from_str("__logwise_formatter"));
    let mut src = String::from_str("\n        #[cfg(debug_assertions)] {\n            if logwise_runtime::log_enabled!(logwise_runtime::Level::DebugInternal) {\n                    let mut __logwise_record = logwise_runtime::hidden::debuginternal_pre(file!(),line!(),column!());\n                    let mut __logwise_formatter = logwise_runtime::hidden::PrivateFormatter::new(&mut __logwise_record);\n                    ");
    src.append(lf.output.as_str());
    src.append("\n                    logwise_runtime::hidden::debuginternal_sync_post(__logwise_record);\n           }\n        }\n    ");
    proof {
        assert(src@ =~= "\n        #[cfg(debug_assertions)] {\n            if logwise_runtime::log_enabled!(logwise_runtime::Level::DebugInternal) {\n                    let mut __logwise_record = logwise_runtime::hidden::debuginternal_pre(file!(),line!(),column!());\n                    let mut __logwise_formatter = logwise_runtime::hidden::PrivateFormatter::new(&mut __logwise_record);\n                    "@ + lformat_spec(input@, "__logwise_formatter"@).0 + "\n                    logwise_runtime::hidden::debuginternal_sync_post(__logwise_record);\n           }\n        }\n    "@);
    }
    src
}

/// Expansion of `debuginternal_async!`: the formatter calls `lformat_impl` generates for
/// `input`, inside this macro's record set-up and hand-off.
pub fn debuginternal_async_impl(input: &[TokenTree]) -> (r: String)
    requires
        !lone_quote_literal(input@),
    ensures
        r@ == "\n        #[cfg(debug_assertions)] {\n            if logwise_runtime::log_enabled!(logwise_runtime::Level::DebugInternal) {\n               let mut __logwise_record = logwise_runtime::hidden::debuginternal_pre(file!(),line!(),column!());\n                let mut __logwise_formatter = logwise_runtime::hidden::PrivateFormatter::new(&mut __logwise_record);\n\n                "@ + lformat_spec(input@, "__logwise_formatter"@).0 + "\n                logwise_runtime::hidden::debuginternal_async_post(__logwise_record).await;\n            }\n        }\n    "@,
{
    let lf = lformat_impl(input, String::from_str("__logwise_formatter"));
    let mut src = String::from_str("\n        #[cfg(debug_assertions)] {\n            if logwise_runtime::log_enabled!(logwise_runtime::Level::DebugInternal) {\n               let mut __logwise_record = logwise_runtime::hidden::debuginternal_pre(file!(),line!(),column!());\n                let mut __logwise_formatter = logwise_runtime::hidden::PrivateFormatter::new(&mut __logwise_record);\n\n                ");
    src.append(lf.output.as_str());
    src.append("\n                logwise_runtime::hidden::debuginternal_async_post(__logwise_record).await;\n            }\n        }\n    ");
    proof {
        assert(src@ =~= "\n        #[cfg(debug_assertions)] {\n            if logwise_runtime::log_enabled!(logwise_runtime::Level::DebugInternal) {\n               let mut __logwise_record = logwise_runtime::hidden::debuginternal_pre(file!(),line!(),column!());\n                let mut __logwise_formatter = logwise_runtime::hidden::PrivateFormatter::new(&mut __logwise_record);\n\n                "@ + lformat_spec(input@, "__logwise_formatter"@).0 + "\n                logwise_runtime::hidden::debuginternal_async_post(__logwise_record).await;\n            }\n        }\n    "@);
    }
    src
}

/// Expansion of `info_sync!`: the formatter calls `lformat_impl` generates for
/// `input`, inside this macro's record set-up and hand-off.
pub fn info_sync_impl(input: &[TokenTree]) -> (r: String)
    requires
        !lone_quote_literal(input@),
    ensures
        r@ == "\n        #[cfg(debug_assertions)]\n        {\n            if logwise_runtime::log_enabled!(logwise_runtime::Level::Info) {\n                let mut __logwise_record = logwise_runtime::hidden::info_sync_pre(file!(),line!(),column!());\n\n                let mut __logwise_formatter = logwise_runtime::hidden::PrivateFormatter::new(&mut __logwise_record);\n\n                "@ + lformat_spec(input@, "__logwise_formatter"@).0 + "\n                logwise_runtime::hidden::info_sync_post(__logwise_record);\n            }\n        }\n    "@,
{
    let lf = lformat_impl(input, String::from_str("__logwise_formatter"));
    let mut src = String::from_str("\n        #[cfg(debug_assertions)]\n        {\n            if logwise_runtime::log_enabled!(logwise_runtime::Level::Info) {\n                let mut __logwise_record = logwise_runtime::hidden::info_sync_pre(file!(),line!(),column!());\n\n                let mut __logwise_formatter = logwise_runtime::hidden::PrivateFormatter::new(&mut __logwise_record);\n\n                ");
    src.append(lf.output.as_str());
    src.append("\n                logwise_runtime::hidden::info_sync_post(__logwise_record);\n            }\n        }\n    ");
    proof {
        assert(src@ =~= "\n        #[cfg(debug_assertions)]\n        {\n            if logwise_runtime::log_enabled!(logwise_runtime::Level::Info) {\n                let mut __logwise_record = logwise_runtime::hidden::info_sync_pre(file!(),line!(),column!());\n\n                let mut __logwise_formatter = logwise_runtime::hidden::PrivateFormatter::new(&mut __logwise_record);\n\n                "@ + lformat_spec(input@, "__logwise_formatter"@).0 + "\n                logwise_runtime::hidden::info_sync_post(__logwise_record);\n            }\n        }\n    "@);
    }
    src
}

/// Expansion of `info_async!`: the formatter calls `lformat_impl` generates for
/// `input`, inside this macro's record set-up and hand-off.
pub fn info_async_impl(input: &[TokenTree]) -> (r: String)
    requires
        !lone_quote_literal(input@),
    ensures
        r@ == "\n        #[cfg(debug_assertions)] {\n            if logwise_runtime::log_enabled!(logwise_runtime::Level::Info) {\n                let mut __logwise_record = logwise_runtime::hidden::info_sync_pre(file!(),line!(),column!());\n                let mut __logwise_formatter = logwise_runtime::hidden::PrivateFormatter::new(&mut __logwise_record);\n                "@ + lformat_spec(input@, "__logwise_formatter"@).0 + "\n                logwise_runtime::hidden::info_async_post(__logwise_record).await;\n            }\n        }\n    "@,
{
    let lf = lformat_impl(input, String::from_str("__logwise_formatter"));
    let mut src = String::from_str("\n        #[cfg(debug_assertions)] {\n            if logwise_runtime::log_enabled!(logwise_runtime::Level::Info) {\n                let mut __logwise_record = logwise_runtime::hidden::info_sync_pre(file!(),line!(),column!());\n                let mut __logwise_formatter = logwise_runtime::hidden::PrivateFormatter::new(&mut __logwise_record);\n                ");
    src.append(lf.output.as_str());
    src.append("\n                logwise_runtime::hidden::info_async_post(__logwise_record).await;\n            }\n        }\n    ");
    proof {
        assert(src@ =~= "\n        #[cfg(debug_assertions)] {\n            if logwise_runtime::log_enabled!(logwise_runtime::Level::Info) {\n                let mut __logwise_record = logwise_runtime::hidden::info_sync_pre(file!(),line!(),column!());\n                let mut __logwise_formatter = logwise_runtime::hidden::PrivateFormatter::new(&mut __logwise_record);\n                "@ + lformat_spec(input@, "__logwise_formatter"@).0 + "\n                logwise_runtime::hidden::info_async_post(__logwise_record).await;\n            }\n        }\n    "@);
    }
    src
}

/// Expansion of `warn_sync!`: the formatter calls `lformat_impl` generates for
/// `input`, inside this macro's record set-up and hand-off.
pub fn warn_sync_impl(input: &[TokenTree]) -> (r: String)
    requires
        !lone_quote_literal(input@),
    ensures
        r@ == "\n        {\n            if logwise_runtime::log_enabled!(logwise_runtime::Level::Warning) {\n                let mut __logwise_record = logwise_runtime::hidden::warn_sync_pre(file!(),line!(),column!());\n\n                let mut __logwise_formatter = logwise_runtime::hidden::PrivateFormatter::new(&mut __logwise_record);\n\n                "@ + lformat_spec(input@, "__logwise_formatter"@).0 + "\n                logwise_runtime::hidden::warn_sync_post(__logwise_record);\n            }\n        }\n    "@,
{
    let lf = lformat_impl(input, String::from_str("__logwise_formatter"));
    let mut src = String::from_str("\n        {\n            if logwise_runtime::log_enabled!(logwise_runtime::Level::Warning) {\n                let mut __logwise_record = logwise_runtime::hidden::warn_sync_pre(file!(),line!(),column!());\n\n                let mut __logwise_formatter = logwise_runtime::hidden::PrivateFormatter::new(&mut __logwise_record);\n\n                ");
    src.append(lf.output.as_str());
    src.append("\n                logwise_runtime::hidden::warn_sync_post(__logwise_record);\n            }\n        }\n    ");
    proof {
        assert(src@ =~= "\n        {\n            if logwise_runtime::log_enabled!(logwise_runtime::Level::Warning) {\n                let mut __logwise_record = logwise_runtime::hidden::warn_sync_pre(file!(),line!(),column!());\n\n                let mut __logwise_formatter = logwise_runtime::hidden::PrivateFormatter::new(&mut __logwise_record);\n\n                "@ + lformat_spec(input@, "__logwise_formatter"@).0 + "\n                logwise_runtime::hidden::warn_sync_post(__logwise_record);\n            }\n        }\n    "@);
    }
    src
}

} // verus!
