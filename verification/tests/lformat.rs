use logwise_runtime::dlog;
use logwise_runtime::lformat::{lformat_impl, lformat_macro};
use logwise_runtime::macros::{perfwarn_begin_if_impl, perfwarn_impl, profile_attr_impl, trace_sync_impl};
use logwise_runtime::legacy_macros::warn_sync_impl;
use logwise_runtime::parser::{render_tokens, scan_format_string, Delimiter, Segment, Spacing, TokenTree};

fn ident(s: &str) -> TokenTree {
    TokenTree::Ident(s.to_string())
}

fn lit(s: &str) -> TokenTree {
    TokenTree::Literal(s.to_string())
}

fn punct(c: char) -> TokenTree {
    TokenTree::Punct(c, Spacing::Alone)
}

fn joint(c: char) -> TokenTree {
    TokenTree::Punct(c, Spacing::Joint)
}

fn group(d: Delimiter, inner: &str) -> TokenTree {
    TokenTree::Group(d, inner.to_string())
}

#[test]
fn placeholders_become_formatter_calls() {
    let tokens = vec![lit("\"Hello, {world}!\""), punct(','), ident("world"), punct('='), lit("23")];
    let r = lformat_impl(&tokens, "logger".to_string());
    assert_eq!(
        r.output,
        "logger.write_literal(\"Hello, \");\nlogger.write_val(23);\nlogger.write_literal(\"!\");\n"
    );
    assert_eq!(r.name, "Hello, {world}!");
}

#[test]
fn a_repeated_key_is_evaluated_once() {
    let tokens = vec![
        lit("\"{n} and {n}\""),
        punct(','),
        ident("n"),
        punct('='),
        ident("compute"),
        group(Delimiter::Parenthesis, ""),
    ];
    let r = lformat_impl(&tokens, "f".to_string());
    assert_eq!(
        r.output,
        "let __logwise_val_0 = compute ();\nf.write_val_ref(&__logwise_val_0);\nf.write_literal(\" and \");\nf.write_val_ref(&__logwise_val_0);\n"
    );
    assert_eq!(r.output.matches("compute").count(), 1);
}

#[test]
fn unused_arguments_are_kept_as_fields_in_call_site_order() {
    let tokens = vec![
        lit("\"hi {b}\""),
        punct(','),
        ident("a"),
        punct('='),
        lit("1"),
        punct(','),
        ident("b"),
        punct('='),
        lit("2"),
        punct(','),
        ident("c"),
        punct('='),
        lit("3"),
    ];
    let r = lformat_impl(&tokens, "f".to_string());
    assert_eq!(
        r.output,
        "f.write_literal(\"hi \");\nf.write_val(2);\nf.write_literal(\" a=\");\nf.write_val(1);\nf.write_literal(\" c=\");\nf.write_val(3);\n"
    );
}

#[test]
fn a_missing_key_is_a_compile_error() {
    let tokens = vec![lit("\"Hello {missing}!\""), punct(','), ident("provided"), punct('='), lit("123")];
    let r = lformat_impl(&tokens, "logger".to_string());
    assert_eq!(r.output, "compile_error!(\"Key missing not found\");");
    assert_eq!(r.name, "");
}

#[test]
fn an_argument_with_no_key_is_a_compile_error() {
    let tokens = vec![lit("\"value\""), punct(','), ident("x")];
    let r = lformat_impl(&tokens, "logger".to_string());
    assert_eq!(
        r.output,
        "compile_error!(\"expected `key = value` after the format string, found `x`. Logging macros do not capture bindings implicitly -- name the field, as in `key = x`.\");"
    );
}

#[test]
fn a_duplicate_key_is_a_compile_error() {
    let tokens = vec![
        lit("\"{a}\""),
        punct(','),
        ident("a"),
        punct('='),
        lit("1"),
        punct(','),
        ident("a"),
        punct('='),
        lit("2"),
    ];
    let r = lformat_impl(&tokens, "logger".to_string());
    assert_eq!(r.output, "compile_error!(\"Duplicate key a\");");
}

#[test]
fn the_format_must_be_a_plain_string_literal() {
    let r = lformat_impl(&[ident("oops")], "logger".to_string());
    assert_eq!(r.output, "compile_error!(\"lformat!() must be called with a string literal\");");
    let r = lformat_impl(&[lit("r\"raw\"")], "logger".to_string());
    assert_eq!(r.output, "compile_error!(\"lformat!() must be called with a string literal\");");
    let r = lformat_impl(&[], "logger".to_string());
    assert_eq!(r.output, "compile_error!(\"lformat!() must be called with a string literal\");");
}

#[test]
fn a_missing_comma_is_a_compile_error() {
    let r = lformat_impl(&[lit("\"x\""), ident("y")], "logger".to_string());
    assert_eq!(r.output, "compile_error!(\"Expected ','\");");
}

#[test]
fn an_unclosed_placeholder_is_a_compile_error() {
    let r = lformat_impl(&[lit("\"{oops\"")], "logger".to_string());
    assert_eq!(r.output, "compile_error!(\"Expected '}'\");");
}

#[test]
fn escapes_and_doubled_braces_survive_the_scan() {
    let segments = scan_format_string("a{{b}} \\u{1F600} \\\"{k}").unwrap();
    assert_eq!(segments.len(), 2);
    match &segments[0] {
        Segment::Literal(t) => assert_eq!(t, "a{b} \\u{1F600} \\\""),
        _ => panic!("expected a literal"),
    }
    match &segments[1] {
        Segment::Placeholder(k) => assert_eq!(k, "k"),
        _ => panic!("expected a placeholder"),
    }
}

#[test]
fn cast_and_turbofish_values_are_whole_expressions() {
    let tokens = vec![
        lit("\"{a} {b}\""),
        punct(','),
        ident("a"),
        punct('='),
        ident("x"),
        ident("as"),
        ident("u64"),
        punct(','),
        ident("b"),
        punct('='),
        ident("f"),
        joint(':'),
        punct(':'),
        punct('<'),
        ident("A"),
        punct(','),
        ident("B"),
        punct('>'),
        group(Delimiter::Parenthesis, ""),
    ];
    let r = lformat_impl(&tokens, "f".to_string());
    assert_eq!(
        r.output,
        "f.write_val(x as u64);\nf.write_literal(\" \");\nf.write_val(f :: < A , B > ());\n"
    );
}

#[test]
fn the_macro_form_takes_a_logger_and_a_comma_first() {
    let tokens = vec![ident("logger"), punct(','), lit("\"Hello, {world}!\""), punct(','), ident("world"), punct('='), lit("23")];
    assert_eq!(
        lformat_macro(&tokens),
        "logger.write_literal(\"Hello, \");\nlogger.write_val(23);\nlogger.write_literal(\"!\");\n"
    );
    assert_eq!(lformat_macro(&[lit("23")]), "compile_error!(\"lformat!() must be called with a logger ident\")");
    assert_eq!(lformat_macro(&[ident("logger"), ident("x")]), "compile_error!(\"Expected ','\")");
}

#[test]
fn the_dlog_macro_substitutes_literals() {
    let tokens = vec![ident("logger"), punct(','), lit("\"Hello, {world}!\""), punct(','), ident("world"), punct('='), lit("23")];
    assert_eq!(
        dlog::lformat(&tokens),
        "logger.write_literal(\"Hello, \");\nlogger.write_val(23);\nlogger.write_literal(\"!\");\nlogger.add_context(\"world\",23);\n"
    );
    assert_eq!(dlog::lformat(&[lit("23")]), "compile_error!(\"lformat!() must be called with a logger ident\")");
    let missing = vec![ident("l"), punct(','), lit("\"{k}\"")];
    assert_eq!(dlog::lformat(&missing), "compile_error!(\"Key k not found\")");
    let expr = vec![ident("l"), punct(','), lit("\"{k}\""), punct(','), ident("k"), punct('='), ident("x")];
    assert_eq!(dlog::lformat(&expr), "compile_error!(\"Expected literal\")");
    let stray = vec![ident("l"), punct(','), lit("\"x\""), punct(','), lit("\"q\"")];
    assert_eq!(dlog::lformat(&stray), "compile_error!(\"Unexpected token \\\"q\\\"\")");
    let later = vec![
        ident("l"), punct(','), lit("\"{k}\""),
        punct(','), ident("k"), punct('='), lit("1"),
        punct(','), ident("k"), punct('='), lit("2"),
    ];
    assert_eq!(dlog::lformat(&later), "l.write_val(2);\nl.add_context(\"k\",2);\n");
    let two = vec![
        ident("l"), punct(','), lit("\"{a}-{b}\""),
        punct(','), ident("b"), punct('='), lit("\"x\""),
        punct(','), ident("a"), punct('='), lit("1"),
    ];
    assert_eq!(
        dlog::lformat(&two),
        "l.write_val(1);\nl.write_literal(\"-\");\nl.write_val(\"x\");\nl.add_context(\"b\",\"x\");\nl.add_context(\"a\",1);\n"
    );
}

#[test]
fn the_dlog_perfwarn_attribute_wraps_the_item() {
    assert_eq!(
        dlog::perfwarn(&[lit("\"slow\"")], "work();"),
        "\n        let interval = ::dlog::perfwarn_begin!(\"slow\");\n        work();\n        drop(interval);\n    "
    );
    assert_eq!(dlog::perfwarn(&[ident("x")], "work();"), "compile_error!(\"Expected a string literal argument\")");
}

#[test]
fn profile_wraps_the_function_body() {
    let item = vec![ident("fn"), ident("work"), group(Delimiter::Parenthesis, ""), group(Delimiter::Brace, "do_it ();")];
    let out = profile_attr_impl(&[], item).unwrap();
    assert_eq!(out.len(), 4);
    match &out[3] {
        TokenTree::Group(Delimiter::Brace, body) => {
            assert!(body.contains("\"::\", \"work\""));
            assert!(body.ends_with("{ do_it (); }\n        "));
        }
        _ => panic!("the body must stay a brace group"),
    }
    match profile_attr_impl(&[], vec![ident("struct"), ident("S"), group(Delimiter::Brace, "")]) {
        Err(e) => assert_eq!(e, "compile_error!(\"#[profile] can only be applied to functions\")"),
        Ok(_) => panic!("not a function"),
    }
    match profile_attr_impl(&[], vec![ident("fn"), ident("f"), group(Delimiter::Parenthesis, ""), punct(';')]) {
        Err(e) => assert_eq!(e, "compile_error!(\"#[profile] requires a function with a body\")"),
        Ok(_) => panic!("no body"),
    }
}

#[test]
fn level_macros_wrap_the_formatter_calls() {
    let tokens = vec![lit("\"hi\"")];
    let out = trace_sync_impl(&tokens);
    assert!(out.starts_with("\n        #[cfg(debug_assertions)]\n        {\n            if logwise::log_enabled!(logwise::Level::Trace) {"));
    assert!(out.contains("__logwise_formatter.write_literal(\"hi\");\n"));
    assert!(out.ends_with("logwise::hidden::trace_sync_post(__logwise_record);\n            }\n        }\n    "));
    let warn = warn_sync_impl(&tokens);
    assert!(warn.contains("logwise_runtime::hidden::warn_sync_post(__logwise_record);"));
}

#[test]
fn perfwarn_needs_a_trailing_block() {
    let tokens = vec![lit("\"slow {n}\""), punct(','), ident("n"), punct('='), lit("1"), group(Delimiter::Brace, "work ()")];
    let out = perfwarn_impl(&tokens);
    assert!(out.contains("__logwise_formatter.write_val(1);"));
    assert!(out.contains("perfwarn_begin_post(__logwise_record,\"slow {n}\")"));
    assert!(out.contains("let __logwise_result = {work ()};"));
    assert_eq!(perfwarn_impl(&[]), "compile_error!(\"Expected block\")");
    assert_eq!(perfwarn_impl(&[lit("\"x\""), ident("y")]), "compile_error!(\"Expected block\")");
}

#[test]
fn perfwarn_begin_if_splits_off_the_threshold() {
    let tokens = vec![ident("limit"), punct(','), lit("\"slow\"")];
    let out = perfwarn_begin_if_impl(&tokens);
    assert!(out.contains("perfwarn_begin_if_post(__logwise_record, \"slow\", limit)"));
    assert_eq!(perfwarn_begin_if_impl(&[ident("limit")]), "compile_error!(\"Expected threshold argument\")");
}

#[test]
fn test_logging_macro_accepts_cast_expressions() {
    let tokens = vec![
        lit("\"narrowed value: {value}\""),
        punct(','),
        ident("value"),
        punct('='),
        ident("value"),
        ident("as"),
        ident("u8"),
    ];
    let out = warn_sync_impl(&tokens);
    assert!(!out.contains("compile_error!"), "a valid cast expression was mangled by the logging macro:\n{out}");
    assert!(out.contains("__logwise_formatter.write_val(value as u8);"));
}

#[test]
fn test_logging_macro_rejects_an_argument_with_no_key() {
    let tokens = vec![lit("\"finished\""), punct(','), ident("count")];
    let out = warn_sync_impl(&tokens);
    assert!(out.contains("compile_error!"), "an argument with no `key =` was accepted and silently discarded");
    assert!(out.contains("expected `key = value`"), "the diagnostic did not explain the missing key:\n{out}");
}

#[test]
fn test_logging_macro_keeps_arguments_after_a_malformed_one() {
    let tokens = vec![
        lit("\"finished {status}\""),
        punct(','),
        ident("status"),
        punct('='),
        ident("status"),
        punct(','),
        ident("count"),
    ];
    let out = warn_sync_impl(&tokens);
    assert!(out.contains("compile_error!"), "a trailing argument with no `key =` was silently discarded");
    assert!(out.contains("expected `key = value`"), "the diagnostic did not explain the missing key:\n{out}");
}

#[test]
fn rendered_tokens_keep_joint_punctuation_together() {
    let tokens = vec![
        TokenTree::Ident("fn".to_string()),
        TokenTree::Ident("f".to_string()),
        TokenTree::Group(Delimiter::Parenthesis, String::new()),
        TokenTree::Punct('-', Spacing::Joint),
        TokenTree::Punct('>', Spacing::Alone),
        TokenTree::Ident("u32".to_string()),
        TokenTree::Group(Delimiter::Brace, "1".to_string()),
    ];
    assert_eq!(render_tokens(&tokens), "fn f () -> u32 {1}");
    assert_eq!(render_tokens(&[]), "");
}
