//! Expansions of the logging macros: each wraps the formatter calls that
//! `lformat_impl` generates in the record set-up and hand-off of its level,
//! and `#[profile]` wraps a function body in a profiling interval.

use vstd::prelude::*;

use crate::lformat::{lformat_impl, lformat_spec, lone_quote_literal};
use crate::parser::{
    push_rendered, push_token_text, render, token_text, token_view, tokens_view, Delimiter,
    TokenSpec, TokenTree,
};
use crate::text::same_text;
use vstd::string::StringExecFns;

verus! {

/// The first `{...}` group at or after `i`: a function's body.
pub open spec fn body_index(ts: Seq<TokenTree>, i: int) -> Option<int>
    decreases ts.len() - i,
{
    if i < 0 || i >= ts.len() {
        None
    } else if ts[i] matches TokenTree::Group(Delimiter::Brace, _) {
        Some(i)
    } else {
        body_index(ts, i + 1)
    }
}

pub open spec fn is_fn_keyword(t: TokenTree) -> bool {
    match t {
        TokenTree::Ident(f) => f@ == "fn"@,
        _ => false,
    }
}

/// The name following the last `fn` among the first `k` tokens.
pub open spec fn fn_name_before(ts: Seq<TokenTree>, k: int) -> Option<Seq<char>>
    decreases k,
{
    if k <= 0 {
        None
    } else {
        let prev = fn_name_before(ts, k - 1);
        if k - 1 < ts.len() && is_fn_keyword(ts[k - 1]) {
            if k < ts.len() && ts[k] is Ident {
                Some(token_text(ts[k]))
            } else {
                prev
            }
        } else {
            prev
        }
    }
}

pub open spec fn profile_not_fn_error() -> Seq<char> {
    "compile_error!(\"#[profile] can only be applied to functions\")"@
}

pub open spec fn profile_no_body_error() -> Seq<char> {
    "compile_error!(\"#[profile] requires a function with a body\")"@
}

/// The body that times the original one: a profiling guard named after the
/// function, then the original statements in a block of their own.
pub open spec fn profiled_body(fn_name: Seq<char>, body: Seq<char>) -> Seq<char> {
    "\n            let _logwise_profile_guard = {\n                let (id, mut record) = logwise::hidden::profile_begin_pre(file!(), line!(), column!());\n                let name = concat!(module_path!(), \"::\", \""@
        + fn_name
        + "\");\n                record.log(name);\n                logwise::hidden::profile_begin_post(id, record, name)\n            };\n            { "@
        + body + " }\n        "@
}

/// What `#[profile]` makes of a function's tokens: the body group replaced
/// by the profiled body, or the source of a `compile_error!`.
pub open spec fn profile_attr_spec(ts: Seq<TokenTree>) -> Result<Seq<TokenSpec>, Seq<char>> {
    let end = match body_index(ts, 0) {
        Some(b) => b,
        None => ts.len() as int,
    };
    match fn_name_before(ts, end) {
        None => Err(profile_not_fn_error()),
        Some(name) => match body_index(ts, 0) {
            None => Err(profile_no_body_error()),
            Some(b) => match ts[b] {
                TokenTree::Group(_, inner) => Ok(
                    tokens_view(ts).update(
                        b,
                        TokenSpec::Group(Delimiter::Brace, profiled_body(name, inner@)),
                    ),
                ),
                _ => Err(profile_no_body_error()),
            },
        },
    }
}

proof fn lemma_body_index(ts: Seq<TokenTree>, i: int)
    requires
        0 <= i <= ts.len(),
    ensures
        body_index(ts, i) matches Some(b) ==> i <= b < ts.len() && ts[b] matches TokenTree::Group(
            Delimiter::Brace,
            _,
        ),
    decreases ts.len() - i,
{
    if i < ts.len() && !(ts[i] matches TokenTree::Group(Delimiter::Brace, _)) {
        lemma_body_index(ts, i + 1);
    }
}

/// The `#[profile]` attribute: wraps the body of the annotated function in
/// a profiling interval named after the function.
pub fn profile_attr_impl(_attr: &[TokenTree], item: Vec<TokenTree>) -> (r: Result<
    Vec<TokenTree>,
    String,
>)
    ensures
        match r {
            Ok(out) => profile_attr_spec(item@) == Ok::<Seq<TokenSpec>, Seq<char>>(tokens_view(out@)),
            Err(e) => profile_attr_spec(item@) == Err::<Seq<TokenSpec>, Seq<char>>(e@),
        },
{
    let mut tokens = item;
    let ghost ts = tokens@;
    let mut fn_name: Option<String> = None;
    let mut body_idx: Option<usize> = None;
    let mut i: usize = 0;
    while i < tokens.len()
        invariant_except_break
            body_idx is None,
            body_index(ts, 0) == body_index(ts, i as int),
        invariant
            ts == tokens@,
            i <= ts.len(),
            match fn_name {
                Some(n) => fn_name_before(ts, i as int) == Some(n@),
                None => fn_name_before(ts, i as int) is None,
            },
        ensures
            match body_idx {
                Some(b) => b == i && body_index(ts, 0) == Some(b as int),
                None => i == ts.len() && body_index(ts, 0) is None,
            },
        decreases ts.len() - i,
    {
        match &tokens[i] {
            TokenTree::Ident(ident) => {
                if same_text(ident.as_str(), "fn") && i + 1 < tokens.len() {
                    match &tokens[i + 1] {
                        TokenTree::Ident(name) => {
                            fn_name = Some(name.clone());
                        },
                        _ => {},
                    }
                }
            },
            TokenTree::Group(Delimiter::Brace, _) => {
                body_idx = Some(i);
                break;
            },
            _ => {},
        }
        i = i + 1;
    }
    proof {
        lemma_body_index(ts, 0);
    }
    let name = match fn_name {
        Some(name) => name,
        None => {
            return Err(String::from_str("compile_error!(\"#[profile] can only be applied to functions\")"));
        },
    };
    let b = match body_idx {
        Some(b) => b,
        None => {
            return Err(String::from_str("compile_error!(\"#[profile] requires a function with a body\")"));
        },
    };
    let mut body = String::from_str(
        "\n            let _logwise_profile_guard = {\n                let (id, mut record) = logwise::hidden::profile_begin_pre(file!(), line!(), column!());\n                let name = concat!(module_path!(), \"::\", \"",
    );
    body.append(name.as_str());
    body.append(
        "\");\n                record.log(name);\n                logwise::hidden::profile_begin_post(id, record, name)\n            };\n            { ",
    );
    match &tokens[b] {
        TokenTree::Group(_, inner) => {
            body.append(inner.as_str());
            body.append(" }\n        ");
            proof {
                assert(body@ =~= profiled_body(name@, inner@));
            }
        },
        _ => {
            return Err(String::from_str("compile_error!(\"#[profile] requires a function with a body\")"));
        },
    }
    let ghost tv = tokens_view(tokens@);
    tokens.set(b, TokenTree::Group(Delimiter::Brace, body));
    proof {
        assert(tokens_view(tokens@) =~= tv.update(b as int, TokenSpec::Group(Delimiter::Brace, body@)));
    }
    Ok(tokens)
}


/// Expansion of `trace_sync!`: the formatter calls `lformat_impl` generates for
/// `input`, inside this macro's record set-up and hand-off.
pub fn trace_sync_impl(input: &[TokenTree]) -> (r: String)
    requires
        !lone_quote_literal(input@),
    ensures
        r@ == "\n        #[cfg(debug_assertions)]\n        {\n            if logwise::log_enabled!(logwise::Level::Trace) {\n                let mut __logwise_record = logwise::hidden::trace_sync_pre(file!(),line!(),column!());\n\n                let mut __logwise_formatter = logwise::hidden::PrivateFormatter::new(&mut __logwise_record);\n\n                "@ + lformat_spec(input@, "__logwise_formatter"@).0 + "\n                logwise::hidden::trace_sync_post(__logwise_record);\n            }\n        }\n    "@,
{
    let lf = lformat_impl(input, String::from_str("__logwise_formatter"));
    let mut src = String::from_str("\n        #[cfg(debug_assertions)]\n        {\n            if logwise::log_enabled!(logwise::Level::Trace) {\n                let mut __logwise_record = logwise::hidden::trace_sync_pre(file!(),line!(),column!());\n\n                let mut __logwise_formatter = logwise::hidden::PrivateFormatter::new(&mut __logwise_record);\n\n                ");
    src.append(lf.output.as_str());
    src.append("\n                logwise::hidden::trace_sync_post(__logwise_record);\n            }\n        }\n    ");
    proof {
        assert(src@ =~= "\n        #[cfg(debug_assertions)]\n        {\n            if logwise::log_enabled!(logwise::Level::Trace) {\n                let mut __logwise_record = logwise::hidden::trace_sync_pre(file!(),line!(),column!());\n\n                let mut __logwise_formatter = logwise::hidden::PrivateFormatter::new(&mut __logwise_record);\n\n                "@ + lformat_spec(input@, "__logwise_formatter"@).0 + "\n                logwise::hidden::trace_sync_post(__logwise_record);\n            }\n        }\n    "@);
    }
    src
}

/// Expansion of `trace_async!`: the formatter calls `lformat_impl` generates for
/// `input`, inside this macro's record set-up and hand-off.
pub fn trace_async_impl(input: &[TokenTree]) -> (r: String)
    requires
        !lone_quote_literal(input@),
    ensures
        r@ == "\n        #[cfg(debug_assertions)]\n        {\n            if logwise::log_enabled!(logwise::Level::Trace) {\n                let mut __logwise_record = logwise::hidden::trace_sync_pre(file!(),line!(),column!());\n\n                let mut __logwise_formatter = logwise::hidden::PrivateFormatter::new(&mut __logwise_record);\n\n                "@ + lformat_spec(input@, "__logwise_formatter"@).0 + "\n                logwise::hidden::trace_async_post(__logwise_record).await;\n            }\n        }\n    "@,
{
    let lf = lformat_impl(input, String::from_str("__logwise_formatter"));
    let mut src = String::from_str("\n        #[cfg(debug_assertions)]\n        {\n            if logwise::log_enabled!(logwise::Level::Trace) {\n                let mut __logwise_record = logwise::hidden::trace_sync_pre(file!(),line!(),column!());\n\n                let mut __logwise_formatter = logwise::hidden::PrivateFormatter::new(&mut __logwise_record);\n\n                ");
    src.append(lf.output.as_str());
    src.append("\n                logwise::hidden::trace_async_post(__logwise_record).await;\n            }\n        }\n    ");
    proof {
        assert(src@ =~= "\n        #[cfg(debug_assertions)]\n        {\n            if logwise::log_enabled!(logwise::Level::Trace) {\n                let mut __logwise_record = logwise::hidden::trace_sync_pre(file!(),line!(),column!());\n\n                let mut __logwise_formatter = logwise::hidden::PrivateFormatter::new(&mut __logwise_record);\n\n                "@ + lformat_spec(input@, "__logwise_formatter"@).0 + "\n                logwise::hidden::trace_async_post(__logwise_record).await;\n            }\n        }\n    "@);
    }
    src
}

/// Expansion of `debuginternal_sync!`: the formatter calls `lformat_impl` generates for
/// `input`, inside this macro's record set-up and hand-off.
pub fn debuginternal_sync_impl(input: &[TokenTree]) -> (r: String)
    requires
        !lone_quote_literal(input@),
    ensures
        r@ == "\n        #[cfg(debug_assertions)] {\n            if logwise::log_enabled!(logwise::Level::DebugInternal, || crate::__LOGWISE_DOMAIN.is_internal()) {\n                    let mut record = logwise::hidden::debuginternal_pre(file!(),line!(),column!());\n                    let mut formatter = logwise::hidden::PrivateFormatter::new(&mut record);\n                    "@ + lformat_spec(input@, "formatter"@).0 + "\n                    logwise::hidden::debuginternal_sync_post(record);\n           }\n        }\n    "@,
{
    let lf = lformat_impl(input, String::from_str("formatter"));
    let mut src = String::from_str("\n        #[cfg(debug_assertions)] {\n            if logwise::log_enabled!(logwise::Level::DebugInternal, || crate::__LOGWISE_DOMAIN.is_internal()) {\n                    let mut record = logwise::hidden::debuginternal_pre(file!(),line!(),column!());\n                    let mut formatter = logwise::hidden::PrivateFormatter::new(&mut record);\n                    ");
    src.append(lf.output.as_str());
    src.append("\n                    logwise::hidden::debuginternal_sync_post(record);\n           }\n        }\n    ");
    proof {
        assert(src@ =~= "\n        #[cfg(debug_assertions)] {\n            if logwise::log_enabled!(logwise::Level::DebugInternal, || crate::__LOGWISE_DOMAIN.is_internal()) {\n                    let mut record = logwise::hidden::debuginternal_pre(file!(),line!(),column!());\n                    let mut formatter = logwise::hidden::PrivateFormatter::new(&mut record);\n                    "@ + lformat_spec(input@, "formatter"@).0 + "\n                    logwise::hidden::debuginternal_sync_post(record);\n           }\n        }\n    "@);
    }
    src
}

/// Expansion of `debuginternal_async!`: the formatter calls `lformat_impl` generates for
/// `input`, inside this macro's record set-up and hand-off.
pub fn debuginternal_async_impl(input: &[TokenTree]) -> (r: String)
    requires
        !lone_quote_literal(input@),
    ensures
        r@ == "\n        #[cfg(debug_assertions)] {\n            if logwise::log_enabled!(logwise::Level::DebugInternal, || crate::__LOGWISE_DOMAIN.is_internal()) {\n               let mut record = logwise::hidden::debuginternal_pre(file!(),line!(),column!());\n                let mut formatter = logwise::hidden::PrivateFormatter::new(&mut record);\n\n                "@ + lformat_spec(input@, "formatter"@).0 + "\n                logwise::hidden::debuginternal_async_post(record).await;\n            }\n        }\n    "@,
{
    let lf = lformat_impl(input, String::from_str("formatter"));
    let mut src = String::from_str("\n        #[cfg(debug_assertions)] {\n            if logwise::log_enabled!(logwise::Level::DebugInternal, || crate::__LOGWISE_DOMAIN.is_internal()) {\n               let mut record = logwise::hidden::debuginternal_pre(file!(),line!(),column!());\n                let mut formatter = logwise::hidden::PrivateFormatter::new(&mut record);\n\n                ");
    src.append(lf.output.as_str());
    src.append("\n                logwise::hidden::debuginternal_async_post(record).await;\n            }\n        }\n    ");
    proof {
        assert(src@ =~= "\n        #[cfg(debug_assertions)] {\n            if logwise::log_enabled!(logwise::Level::DebugInternal, || crate::__LOGWISE_DOMAIN.is_internal()) {\n               let mut record = logwise::hidden::debuginternal_pre(file!(),line!(),column!());\n                let mut formatter = logwise::hidden::PrivateFormatter::new(&mut record);\n\n                "@ + lformat_spec(input@, "formatter"@).0 + "\n                logwise::hidden::debuginternal_async_post(record).await;\n            }\n        }\n    "@);
    }
    src
}

/// Expansion of `error_sync!`: the formatter calls `lformat_impl` generates for
/// `input`, inside this macro's record set-up and hand-off.
pub fn error_sync_impl(input: &[TokenTree]) -> (r: String)
    requires
        !lone_quote_literal(input@),
    ensures
        r@ == "\n        {\n            if logwise::log_enabled!(logwise::Level::Error) {\n                let mut __logwise_record = logwise::hidden::error_sync_pre(file!(),line!(),column!());\n\n                let mut __logwise_formatter = logwise::hidden::PrivateFormatter::new(&mut __logwise_record);\n\n                "@ + lformat_spec(input@, "__logwise_formatter"@).0 + "\n                logwise::hidden::error_sync_post(__logwise_record);\n            }\n        }\n    "@,
{
    let lf = lformat_impl(input, String::from_str("__logwise_formatter"));
    let mut src = String::from_str("\n        {\n            if logwise::log_enabled!(logwise::Level::Error) {\n                let mut __logwise_record = logwise::hidden::error_sync_pre(file!(),line!(),column!());\n\n                let mut __logwise_formatter = logwise::hidden::PrivateFormatter::new(&mut __logwise_record);\n\n                ");
    src.append(lf.output.as_str());
    src.append("\n                logwise::hidden::error_sync_post(__logwise_record);\n            }\n        }\n    ");
    proof {
        assert(src@ =~= "\n        {\n            if logwise::log_enabled!(logwise::Level::Error) {\n                let mut __logwise_record = logwise::hidden::error_sync_pre(file!(),line!(),column!());\n\n                let mut __logwise_formatter = logwise::hidden::PrivateFormatter::new(&mut __logwise_record);\n\n                "@ + lformat_spec(input@, "__logwise_formatter"@).0 + "\n                logwise::hidden::error_sync_post(__logwise_record);\n            }\n        }\n    "@);
    }
    src
}

/// Expansion of `error_async!`: the formatter calls `lformat_impl` generates for
/// `input`, inside this macro's record set-up and hand-off.
pub fn error_async_impl(input: &[TokenTree]) -> (r: String)
    requires
        !lone_quote_literal(input@),
    ensures
        r@ == "\n        {\n            if logwise::log_enabled!(logwise::Level::Error) {\n                let mut __logwise_record = logwise::hidden::error_sync_pre(file!(),line!(),column!());\n\n                let mut __logwise_formatter = logwise::hidden::PrivateFormatter::new(&mut __logwise_record);\n\n                "@ + lformat_spec(input@, "__logwise_formatter"@).0 + "\n                logwise::hidden::error_async_post(__logwise_record).await;\n            }\n        }\n    "@,
{
    let lf = lformat_impl(input, String::from_str("__logwise_formatter"));
    let mut src = String::from_str("\n        {\n            if logwise::log_enabled!(logwise::Level::Error) {\n                let mut __logwise_record = logwise::hidden::error_sync_pre(file!(),line!(),column!());\n\n                let mut __logwise_formatter = logwise::hidden::PrivateFormatter::new(&mut __logwise_record);\n\n                ");
    src.append(lf.output.as_str());
    src.append("\n                logwise::hidden::error_async_post(__logwise_record).await;\n            }\n        }\n    ");
    proof {
        assert(src@ =~= "\n        {\n            if logwise::log_enabled!(logwise::Level::Error) {\n                let mut __logwise_record = logwise::hidden::error_sync_pre(file!(),line!(),column!());\n\n                let mut __logwise_formatter = logwise::hidden::PrivateFormatter::new(&mut __logwise_record);\n\n                "@ + lformat_spec(input@, "__logwise_formatter"@).0 + "\n                logwise::hidden::error_async_post(__logwise_record).await;\n            }\n        }\n    "@);
    }
    src
}

/// Expansion of `mandatory_sync!`: the formatter calls `lformat_impl` generates for
/// `input`, inside this macro's record set-up and hand-off.
pub fn mandatory_sync_impl(input: &[TokenTree]) -> (r: String)
    requires
        !lone_quote_literal(input@),
    ensures
        r@ == "\n        {\n            if logwise::log_enabled!(logwise::Level::Mandatory) {\n                let mut __logwise_record = logwise::hidden::mandatory_sync_pre(file!(),line!(),column!());\n\n                let mut __logwise_formatter = logwise::hidden::PrivateFormatter::new(&mut __logwise_record);\n\n                "@ + lformat_spec(input@, "__logwise_formatter"@).0 + "\n                logwise::hidden::mandatory_sync_post(__logwise_record);\n            }\n        }\n    "@,
{
    let lf = lformat_impl(input, String::from_str("__logwise_formatter"));
    let mut src = String::from_str("\n        {\n            if logwise::log_enabled!(logwise::Level::Mandatory) {\n                let mut __logwise_record = logwise::hidden::mandatory_sync_pre(file!(),line!(),column!());\n\n                let mut __logwise_formatter = logwise::hidden::PrivateFormatter::new(&mut __logwise_record);\n\n                ");
    src.append(lf.output.as_str());
    src.append("\n                logwise::hidden::mandatory_sync_post(__logwise_record);\n            }\n        }\n    ");
    proof {
        assert(src@ =~= "\n        {\n            if logwise::log_enabled!(logwise::Level::Mandatory) {\n                let mut __logwise_record = logwise::hidden::mandatory_sync_pre(file!(),line!(),column!());\n\n                let mut __logwise_formatter = logwise::hidden::PrivateFormatter::new(&mut __logwise_record);\n\n                "@ + lformat_spec(input@, "__logwise_formatter"@).0 + "\n                logwise::hidden::mandatory_sync_post(__logwise_record);\n            }\n        }\n    "@);
    }
    src
}

/// Expansion of `mandatory_async!`: the formatter calls `lformat_impl` generates for
/// `input`, inside this macro's record set-up and hand-off.
pub fn mandatory_async_impl(input: &[TokenTree]) -> (r: String)
    requires
        !lone_quote_literal(input@),
    ensures
        r@ == "\n        {\n            if logwise::log_enabled!(logwise::Level::Mandatory) {\n                let mut __logwise_record = logwise::hidden::mandatory_sync_pre(file!(),line!(),column!());\n\n                let mut __logwise_formatter = logwise::hidden::PrivateFormatter::new(&mut __logwise_record);\n\n                "@ + lformat_spec(input@, "__logwise_formatter"@).0 + "\n                logwise::hidden::mandatory_async_post(__logwise_record).await;\n            }\n        }\n    "@,
{
    let lf = lformat_impl(input, String::from_str("__logwise_formatter"));
    let mut src = String::from_str("\n        {\n            if logwise::log_enabled!(logwise::Level::Mandatory) {\n                let mut __logwise_record = logwise::hidden::mandatory_sync_pre(file!(),line!(),column!());\n\n                let mut __logwise_formatter = logwise::hidden::PrivateFormatter::new(&mut __logwise_record);\n\n                ");
    src.append(lf.output.as_str());
    src.append("\n                logwise::hidden::mandatory_async_post(__logwise_record).await;\n            }\n        }\n    ");
    proof {
        assert(src@ =~= "\n        {\n            if logwise::log_enabled!(logwise::Level::Mandatory) {\n                let mut __logwise_record = logwise::hidden::mandatory_sync_pre(file!(),line!(),column!());\n\n                let mut __logwise_formatter = logwise::hidden::PrivateFormatter::new(&mut __logwise_record);\n\n                "@ + lformat_spec(input@, "__logwise_formatter"@).0 + "\n                logwise::hidden::mandatory_async_post(__logwise_record).await;\n            }\n        }\n    "@);
    }
    src
}

/// Expansion of `perfwarn_begin!`: the formatter calls `lformat_impl` generates for
/// `input`, inside this macro's record set-up and hand-off.
pub fn perfwarn_begin_impl(input: &[TokenTree]) -> (r: String)
    requires
        !lone_quote_literal(input@),
    ensures
        r@ == "\n        {\n            if logwise::log_enabled!(logwise::Level::PerfWarn) {\n                let mut __logwise_record = logwise::hidden::perfwarn_begin_pre(file!(),line!(),column!());\n                let mut __logwise_formatter = logwise::hidden::PrivateFormatter::new(&mut __logwise_record);\n                "@ + lformat_spec(input@, "__logwise_formatter"@).0 + "\n                logwise::hidden::perfwarn_begin_post(__logwise_record,\""@ + lformat_spec(input@, "__logwise_formatter"@).1 + "\")\n            } else {\n                logwise::hidden::perfwarn_begin_post(\n                    logwise::hidden::perfwarn_begin_pre(file!(),line!(),column!()),\n                    \""@ + lformat_spec(input@, "__logwise_formatter"@).1 + "\",\n                )\n            }\n        }\n    "@,
{
    let lf = lformat_impl(input, String::from_str("__logwise_formatter"));
    let mut src = String::from_str("\n        {\n            if logwise::log_enabled!(logwise::Level::PerfWarn) {\n                let mut __logwise_record = logwise::hidden::perfwarn_begin_pre(file!(),line!(),column!());\n                let mut __logwise_formatter = logwise::hidden::PrivateFormatter::new(&mut __logwise_record);\n                ");
    src.append(lf.output.as_str());
    src.append("\n                logwise::hidden::perfwarn_begin_post(__logwise_record,\"");
    src.append(lf.name.as_str());
    src.append("\")\n            } else {\n                logwise::hidden::perfwarn_begin_post(\n                    logwise::hidden::perfwarn_begin_pre(file!(),line!(),column!()),\n                    \"");
    src.append(lf.name.as_str());
    src.append("\",\n                )\n            }\n        }\n    ");
    proof {
        assert(src@ =~= "\n        {\n            if logwise::log_enabled!(logwise::Level::PerfWarn) {\n                let mut __logwise_record = logwise::hidden::perfwarn_begin_pre(file!(),line!(),column!());\n                let mut __logwise_formatter = logwise::hidden::PrivateFormatter::new(&mut __logwise_record);\n                "@ + lformat_spec(input@, "__logwise_formatter"@).0 + "\n                logwise::hidden::perfwarn_begin_post(__logwise_record,\""@ + lformat_spec(input@, "__logwise_formatter"@).1 + "\")\n            } else {\n                logwise::hidden::perfwarn_begin_post(\n                    logwise::hidden::perfwarn_begin_pre(file!(),line!(),column!()),\n                    \""@ + lformat_spec(input@, "__logwise_formatter"@).1 + "\",\n                )\n            }\n        }\n    "@);
    }
    src
}

/// Expansion of `profile_begin!`: the formatter calls `lformat_impl` generates for
/// `input`, inside this macro's record set-up and hand-off.
pub fn profile_begin_impl(input: &[TokenTree]) -> (r: String)
    requires
        !lone_quote_literal(input@),
    ensures
        r@ == "\n        {\n            if logwise::log_enabled!(logwise::Level::Profile) {\n                let (__logwise_id, mut __logwise_record) = logwise::hidden::profile_begin_pre(file!(),line!(),column!());\n                let mut __logwise_formatter = logwise::hidden::PrivateFormatter::new(&mut __logwise_record);\n                "@ + lformat_spec(input@, "__logwise_formatter"@).0 + "\n                logwise::hidden::profile_begin_post(__logwise_id, __logwise_record, \""@ + lformat_spec(input@, "__logwise_formatter"@).1 + "\")\n            } else {\n                let (__logwise_id, __logwise_record) = logwise::hidden::profile_begin_pre(file!(),line!(),column!());\n                logwise::hidden::profile_begin_post(__logwise_id, __logwise_record, \""@ + lformat_spec(input@, "__logwise_formatter"@).1 + "\")\n            }\n        }\n    "@,
{
    let lf = lformat_impl(input, String::from_str("__logwise_formatter"));
    let mut src = String::from_str("\n        {\n            if logwise::log_enabled!(logwise::Level::Profile) {\n                let (__logwise_id, mut __logwise_record) = logwise::hidden::profile_begin_pre(file!(),line!(),column!());\n                let mut __logwise_formatter = logwise::hidden::PrivateFormatter::new(&mut __logwise_record);\n                ");
    src.append(lf.output.as_str());
    src.append("\n                logwise::hidden::profile_begin_post(__logwise_id, __logwise_record, \"");
    src.append(lf.name.as_str());
    src.append("\")\n            } else {\n                let (__logwise_id, __logwise_record) = logwise::hidden::profile_begin_pre(file!(),line!(),column!());\n                logwise::hidden::profile_begin_post(__logwise_id, __logwise_record, \"");
    src.append(lf.name.as_str());
    src.append("\")\n            }\n        }\n    ");
    proof {
        assert(src@ =~= "\n        {\n            if logwise::log_enabled!(logwise::Level::Profile) {\n                let (__logwise_id, mut __logwise_record) = logwise::hidden::profile_begin_pre(file!(),line!(),column!());\n                let mut __logwise_formatter = logwise::hidden::PrivateFormatter::new(&mut __logwise_record);\n                "@ + lformat_spec(input@, "__logwise_formatter"@).0 + "\n                logwise::hidden::profile_begin_post(__logwise_id, __logwise_record, \""@ + lformat_spec(input@, "__logwise_formatter"@).1 + "\")\n            } else {\n                let (__logwise_id, __logwise_record) = logwise::hidden::profile_begin_pre(file!(),line!(),column!());\n                logwise::hidden::profile_begin_post(__logwise_id, __logwise_record, \""@ + lformat_spec(input@, "__logwise_formatter"@).1 + "\")\n            }\n        }\n    "@);
    }
    src
}

/// Expansion of `profile_sync!`: the formatter calls `lformat_impl` generates for
/// `input`, inside this macro's record set-up and hand-off.
pub fn profile_sync_impl(input: &[TokenTree]) -> (r: String)
    requires
        !lone_quote_literal(input@),
    ensures
        r@ == "\n        {\n            if logwise::log_enabled!(logwise::Level::Profile) {\n                let mut __logwise_record = logwise::hidden::profile_sync_pre(file!(),line!(),column!());\n\n                let mut __logwise_formatter = logwise::hidden::PrivateFormatter::new(&mut __logwise_record);\n\n                "@ + lformat_spec(input@, "__logwise_formatter"@).0 + "\n                logwise::hidden::profile_sync_post(__logwise_record);\n            }\n        }\n    "@,
{
    let lf = lformat_impl(input, String::from_str("__logwise_formatter"));
    let mut src = String::from_str("\n        {\n            if logwise::log_enabled!(logwise::Level::Profile) {\n                let mut __logwise_record = logwise::hidden::profile_sync_pre(file!(),line!(),column!());\n\n                let mut __logwise_formatter = logwise::hidden::PrivateFormatter::new(&mut __logwise_record);\n\n                ");
    src.append(lf.output.as_str());
    src.append("\n                logwise::hidden::profile_sync_post(__logwise_record);\n            }\n        }\n    ");
    proof {
        assert(src@ =~= "\n        {\n            if logwise::log_enabled!(logwise::Level::Profile) {\n                let mut __logwise_record = logwise::hidden::profile_sync_pre(file!(),line!(),column!());\n\n                let mut __logwise_formatter = logwise::hidden::PrivateFormatter::new(&mut __logwise_record);\n\n                "@ + lformat_spec(input@, "__logwise_formatter"@).0 + "\n                logwise::hidden::profile_sync_post(__logwise_record);\n            }\n        }\n    "@);
    }
    src
}

/// Expansion of `profile_async!`: the formatter calls `lformat_impl` generates for
/// `input`, inside this macro's record set-up and hand-off.
pub fn profile_async_impl(input: &[TokenTree]) -> (r: String)
    requires
        !lone_quote_literal(input@),
    ensures
        r@ == "\n        {\n            if logwise::log_enabled!(logwise::Level::Profile) {\n                let mut __logwise_record = logwise::hidden::profile_sync_pre(file!(),line!(),column!());\n\n                let mut __logwise_formatter = logwise::hidden::PrivateFormatter::new(&mut __logwise_record);\n\n                "@ + lformat_spec(input@, "__logwise_formatter"@).0 + "\n                logwise::hidden::profile_async_post(__logwise_record).await;\n            }\n        }\n    "@,
{
    let lf = lformat_impl(input, String::from_str("__logwise_formatter"));
    let mut src = String::from_str("\n        {\n            if logwise::log_enabled!(logwise::Level::Profile) {\n                let mut __logwise_record = logwise::hidden::profile_sync_pre(file!(),line!(),column!());\n\n                let mut __logwise_formatter = logwise::hidden::PrivateFormatter::new(&mut __logwise_record);\n\n                ");
    src.append(lf.output.as_str());
    src.append("\n                logwise::hidden::profile_async_post(__logwise_record).await;\n            }\n        }\n    ");
    proof {
        assert(src@ =~= "\n        {\n            if logwise::log_enabled!(logwise::Level::Profile) {\n                let mut __logwise_record = logwise::hidden::profile_sync_pre(file!(),line!(),column!());\n\n                let mut __logwise_formatter = logwise::hidden::PrivateFormatter::new(&mut __logwise_record);\n\n                "@ + lformat_spec(input@, "__logwise_formatter"@).0 + "\n                logwise::hidden::profile_async_post(__logwise_record).await;\n            }\n        }\n    "@);
    }
    src
}

pub open spec fn expected_block_error() -> Seq<char> {
    "compile_error!(\"Expected block\")"@
}

pub open spec fn expected_threshold_error() -> Seq<char> {
    "compile_error!(\"Expected threshold argument\")"@
}

/// What `perfwarn!(format..., { block })` expands to: a perfwarn interval
/// named after the format string around the block's value.
pub open spec fn perfwarn_spec(ts: Seq<TokenTree>) -> Seq<char> {
    if ts.len() == 0 {
        expected_block_error()
    } else {
        let lf = lformat_spec(ts.drop_last(), "__logwise_formatter"@);
        match ts.last() {
            TokenTree::Group(Delimiter::Brace, _) => "\n        {\n            let __logwise_interval = if logwise::log_enabled!(logwise::Level::PerfWarn) {\n                let mut __logwise_record = logwise::hidden::perfwarn_begin_pre(file!(),line!(),column!());\n                let mut __logwise_formatter = logwise::hidden::PrivateFormatter::new(&mut __logwise_record);\n                "@
                + lf.0 + "\n                Some(logwise::hidden::perfwarn_begin_post(__logwise_record,\""@ + lf.1
                + "\"))\n            } else {\n                None\n            };\n            let __logwise_result = "@
                + token_text(ts.last())
                + ";\n            drop(__logwise_interval);\n            __logwise_result\n        }\n    "@,
            _ => expected_block_error(),
        }
    }
}

/// Expansion of `perfwarn!`: times the trailing block under a perfwarn
/// interval whose record the format string and arguments describe.
pub fn perfwarn_impl(input: &[TokenTree]) -> (r: String)
    requires
        input@.len() > 0 ==> !lone_quote_literal(input@.drop_last()),
    ensures
        r@ == perfwarn_spec(input@),
{
    if input.len() == 0 {
        return String::from_str("compile_error!(\"Expected block\")");
    }
    let n = input.len();
    let rest = vstd::slice::slice_subrange(input, 0, n - 1);
    proof {
        assert(rest@ =~= input@.drop_last());
    }
    let lf = lformat_impl(rest, String::from_str("__logwise_formatter"));
    let last = &input[n - 1];
    match last {
        TokenTree::Group(Delimiter::Brace, _) => {},
        _ => {
            return String::from_str("compile_error!(\"Expected block\")");
        },
    }
    let mut src = String::from_str(
        "\n        {\n            let __logwise_interval = if logwise::log_enabled!(logwise::Level::PerfWarn) {\n                let mut __logwise_record = logwise::hidden::perfwarn_begin_pre(file!(),line!(),column!());\n                let mut __logwise_formatter = logwise::hidden::PrivateFormatter::new(&mut __logwise_record);\n                ",
    );
    src.append(lf.output.as_str());
    src.append("\n                Some(logwise::hidden::perfwarn_begin_post(__logwise_record,\"");
    src.append(lf.name.as_str());
    src.append(
        "\"))\n            } else {\n                None\n            };\n            let __logwise_result = ",
    );
    push_token_text(&mut src, last);
    src.append(";\n            drop(__logwise_interval);\n            __logwise_result\n        }\n    ");
    proof {
        assert(input@.last() == *last);
        assert(src@ =~= perfwarn_spec(input@));
    }
    src
}

/// The position of the first `,` token.
pub open spec fn first_comma(ts: Seq<TokenTree>, i: int) -> Option<int>
    decreases ts.len() - i,
{
    if i < 0 || i >= ts.len() {
        None
    } else if ts[i] matches TokenTree::Punct(',', _) {
        Some(i)
    } else {
        first_comma(ts, i + 1)
    }
}

proof fn lemma_first_comma(ts: Seq<TokenTree>, i: int)
    requires
        0 <= i <= ts.len(),
    ensures
        first_comma(ts, i) matches Some(c) ==> i <= c < ts.len(),
    decreases ts.len() - i,
{
    if i < ts.len() && !(ts[i] matches TokenTree::Punct(',', _)) {
        lemma_first_comma(ts, i + 1);
    }
}

/// What `perfwarn_begin_if!(threshold, format...)` expands to: an interval
/// that warns when it outlasts the threshold expression.
pub open spec fn perfwarn_begin_if_spec(ts: Seq<TokenTree>) -> Seq<char> {
    match first_comma(ts, 0) {
        None => expected_threshold_error(),
        Some(c) => {
            let threshold = render(ts.subrange(0, c));
            let lf = lformat_spec(ts.subrange(c + 1, ts.len() as int), "__logwise_formatter"@);
            "\n        {\n            if logwise::log_enabled!(logwise::Level::PerfWarn) {\n                let mut __logwise_record = logwise::hidden::perfwarn_begin_if_pre(file!(),line!(),column!());\n                let mut __logwise_formatter = logwise::hidden::PrivateFormatter::new(&mut __logwise_record);\n                "@
                + lf.0 + "\n                logwise::hidden::perfwarn_begin_if_post(__logwise_record, \""@ + lf.1 + "\", "@
                + threshold
                + ")\n            } else {\n                logwise::hidden::perfwarn_begin_if_post(\n                    logwise::hidden::perfwarn_begin_if_pre(file!(),line!(),column!()),\n                    \""@
                + lf.1 + "\",\n                    "@ + threshold + "\n                )\n            }\n        }\n    "@
        },
    }
}

/// Expansion of `perfwarn_begin_if!`: the tokens before the first comma are
/// the threshold; the rest is the format string and its arguments.
pub fn perfwarn_begin_if_impl(input: &[TokenTree]) -> (r: String)
    requires
        first_comma(input@, 0) matches Some(c) ==> !lone_quote_literal(
            input@.subrange(c + 1, input@.len() as int),
        ),
    ensures
        r@ == perfwarn_begin_if_spec(input@),
{
    proof {
        lemma_first_comma(input@, 0);
    }
    let mut c: usize = 0;
    while c < input.len()
        invariant
            c <= input@.len(),
            first_comma(input@, c as int) == first_comma(input@, 0),
        ensures
            c < input@.len() ==> input@[c as int] matches TokenTree::Punct(',', _),
        decreases input@.len() - c,
    {
        let is_comma = match &input[c] {
            TokenTree::Punct(ch, _) => *ch == ',',
            _ => false,
        };
        if is_comma {
            break;
        }
        c = c + 1;
    }
    if c >= input.len() {
        return String::from_str("compile_error!(\"Expected threshold argument\")");
    }
    proof {
        assert(first_comma(input@, c as int) == Some(c as int));
    }
    let mut threshold = String::new();
    push_rendered(&mut threshold, input, 0, c);
    proof {
        assert(threshold@ =~= render(input@.subrange(0, c as int)));
    }
    let rest = vstd::slice::slice_subrange(input, c + 1, input.len());
    let lf = lformat_impl(rest, String::from_str("__logwise_formatter"));
    let mut src = String::from_str(
        "\n        {\n            if logwise::log_enabled!(logwise::Level::PerfWarn) {\n                let mut __logwise_record = logwise::hidden::perfwarn_begin_if_pre(file!(),line!(),column!());\n                let mut __logwise_formatter = logwise::hidden::PrivateFormatter::new(&mut __logwise_record);\n                ",
    );
    src.append(lf.output.as_str());
    src.append("\n                logwise::hidden::perfwarn_begin_if_post(__logwise_record, \"");
    src.append(lf.name.as_str());
    src.append("\", ");
    src.append(threshold.as_str());
    src.append(
        ")\n            } else {\n                logwise::hidden::perfwarn_begin_if_post(\n                    logwise::hidden::perfwarn_begin_if_pre(file!(),line!(),column!()),\n                    \"",
    );
    src.append(lf.name.as_str());
    src.append("\",\n                    ");
    src.append(threshold.as_str());
    src.append("\n                )\n            }\n        }\n    ");
    proof {
        assert(first_comma(input@, 0) == Some(c as int));
        assert(rest@ == input@.subrange(c + 1, input@.len() as int));
        let lfs = lformat_spec(input@.subrange(c as int + 1, input@.len() as int), "__logwise_formatter"@);
        assert(lf.output@ == lfs.0);
        assert(lf.name@ == lfs.1);
        assert(src@ =~= perfwarn_begin_if_spec(input@));
    }
    src
}

} // verus!
