//! The earlier `dlog` macro front end: `lformat!` with literal-only
//! arguments, and the `perfwarn` attribute.

use vstd::prelude::*;

use crate::lformat::{bare_comma_error, lit_code, logger_ident_error, val_code};
use crate::parser::{token_text, TokenTree};
use crate::text::{chars_of, push_char, same_text};
use vstd::string::StringExecFns;

verus! {

pub open spec fn dlog_literal_error() -> Seq<char> {
    "compile_error!(\"lformat!() must be called with a string literal\")"@
}

pub open spec fn expected_literal_error() -> Seq<char> {
    "compile_error!(\"Expected literal\")"@
}

pub open spec fn expected_eq_error() -> Seq<char> {
    "compile_error!(\"Expected '='\")"@
}

pub open spec fn dlog_unclosed_error() -> Seq<char> {
    "compile_error!(\"Expected '}'\")"@
}

/// `s` with every `"` preceded by a backslash.
pub open spec fn escape_quotes(s: Seq<char>) -> Seq<char>
    decreases s.len(),
{
    if s.len() == 0 {
        Seq::empty()
    } else {
        escape_quotes(s.drop_last()) + if s.last() == '"' {
            seq!['\\', '"']
        } else {
            seq![s.last()]
        }
    }
}

pub open spec fn unexpected_token_error(text: Seq<char>) -> Seq<char> {
    "compile_error!(\"Unexpected token "@ + escape_quotes(text) + "\")"@
}

pub open spec fn dlog_missing_key_error(key: Seq<char>) -> Seq<char> {
    "compile_error!(\"Key "@ + key + " not found\")"@
}

/// The value recorded last for `key`: later arguments replace earlier ones.
pub open spec fn last_value(kvs: Seq<(Seq<char>, Seq<char>)>, key: Seq<char>) -> Option<Seq<char>>
    decreases kvs.len(),
{
    if kvs.len() == 0 {
        None
    } else if kvs.last().0 == key {
        Some(kvs.last().1)
    } else {
        last_value(kvs.drop_last(), key)
    }
}

/// Parses `, key = "literal"` arguments from `p` on; stray commas are
/// skipped.
pub open spec fn dlog_kvs(ts: Seq<TokenTree>, p: int, acc: Seq<(Seq<char>, Seq<char>)>) -> Result<
    Seq<(Seq<char>, Seq<char>)>,
    Seq<char>,
>
    decreases ts.len() - p,
{
    if p < 0 || p >= ts.len() {
        Ok(acc)
    } else {
        match ts[p] {
            TokenTree::Punct(c, _) => if c == ',' {
                dlog_kvs(ts, p + 1, acc)
            } else {
                Err(bare_comma_error())
            },
            TokenTree::Ident(key) => if p + 1 < ts.len() && ts[p + 1] matches TokenTree::Punct(
                '=',
                _,
            ) {
                if p + 2 < ts.len() && ts[p + 2] is Literal {
                    dlog_kvs(ts, p + 3, acc.push((key@, token_text(ts[p + 2]))))
                } else {
                    Err(expected_literal_error())
                }
            } else {
                Err(expected_eq_error())
            },
            other => Err(unexpected_token_error(token_text(other))),
        }
    }
}

/// Scans the format string from `i`, in literal mode or inside a `{key}`.
/// `{{` keeps one brace and re-examines the second.
pub open spec fn dlog_gen(
    cs: Seq<char>,
    i: int,
    in_key: bool,
    buf: Seq<char>,
    src: Seq<char>,
    kvs: Seq<(Seq<char>, Seq<char>)>,
    logger: Seq<char>,
) -> Result<Seq<char>, Seq<char>>
    decreases cs.len() - i,
{
    if i < 0 || i >= cs.len() {
        if in_key {
            Err(dlog_unclosed_error())
        } else if buf.len() > 0 {
            Ok(src + lit_code(logger, buf))
        } else {
            Ok(src)
        }
    } else if !in_key {
        if cs[i] == '{' {
            if i + 1 < cs.len() && cs[i + 1] == '{' {
                dlog_gen(cs, i + 1, false, buf.push('{'), src, kvs, logger)
            } else if buf.len() > 0 {
                dlog_gen(cs, i + 1, true, Seq::empty(), src + lit_code(logger, buf), kvs, logger)
            } else {
                dlog_gen(cs, i + 1, true, Seq::empty(), src, kvs, logger)
            }
        } else {
            dlog_gen(cs, i + 1, false, buf.push(cs[i]), src, kvs, logger)
        }
    } else if cs[i] == '}' {
        match last_value(kvs, buf) {
            None => Err(dlog_missing_key_error(buf)),
            Some(v) => dlog_gen(cs, i + 1, false, Seq::empty(), src + val_code(logger, v), kvs, logger),
        }
    } else {
        dlog_gen(cs, i + 1, true, buf.push(cs[i]), src, kvs, logger)
    }
}

/// Whether argument `i` is the first to name its key.
pub open spec fn first_of_key(kvs: Seq<(Seq<char>, Seq<char>)>, i: int) -> bool {
    forall|j: int| 0 <= j < i ==> kvs[j].0 != kvs[i].0
}

pub open spec fn ctx_code(logger: Seq<char>, key: Seq<char>, value: Seq<char>) -> Seq<char> {
    logger + ".add_context(\""@ + key + "\","@ + value + ");\n"@
}

/// The `add_context` calls for the first `n` arguments: one per key, at its
/// first argument, with the literal last given for that key.
pub open spec fn context_code(kvs: Seq<(Seq<char>, Seq<char>)>, n: int, logger: Seq<char>) -> Seq<char>
    decreases n,
{
    if n <= 0 || n > kvs.len() {
        Seq::empty()
    } else {
        let i = n - 1;
        context_code(kvs, i, logger) + if first_of_key(kvs, i) {
            ctx_code(
                logger,
                kvs[i].0,
                match last_value(kvs, kvs[i].0) {
                    Some(v) => v,
                    None => kvs[i].1,
                },
            )
        } else {
            Seq::empty()
        }
    }
}

/// The text between the quotes of the literal at `p`, if it is one.
pub open spec fn quoted_at(ts: Seq<TokenTree>, p: int) -> Option<Seq<char>> {
    if p < 0 || p >= ts.len() {
        None
    } else {
        match ts[p] {
            TokenTree::Literal(l) => if l@.len() >= 2 && l@[0] == '"' && l@[l@.len() - 1] == '"' {
                Some(l@.subrange(1, l@.len() - 1))
            } else {
                None
            },
            _ => None,
        }
    }
}

/// A lone `"` as the literal at `p`: slicing between its quotes is out of
/// bounds.
pub open spec fn lone_quote_at(ts: Seq<TokenTree>, p: int) -> bool {
    &&& 0 <= p < ts.len()
    &&& ts[p] matches TokenTree::Literal(l)
    &&& l@ == seq!['"']
}

/// What `lformat!(logger, "format", key = "literal", ...)` expands to.
pub open spec fn dlog_lformat_spec(ts: Seq<TokenTree>) -> Seq<char> {
    if ts.len() == 0 || !(ts[0] is Ident) {
        logger_ident_error()
    } else if !(ts.len() >= 2 && ts[1] matches TokenTree::Punct(',', _)) {
        bare_comma_error()
    } else {
        match quoted_at(ts, 2) {
            None => dlog_literal_error(),
            Some(fs) => match dlog_kvs(ts, 3, Seq::empty()) {
                Err(e) => e,
                Ok(kvs) => match dlog_gen(fs, 0, false, Seq::empty(), Seq::empty(), kvs, token_text(ts[0])) {
                    Ok(src) => src + context_code(kvs, kvs.len() as int, token_text(ts[0])),
                    Err(e) => e,
                },
            },
        }
    }
}

pub open spec fn pairs_view(v: Seq<(String, String)>) -> Seq<(Seq<char>, Seq<char>)> {
    v.map_values(|e: (String, String)| (e.0@, e.1@))
}

fn escape_quotes_exec(s: &str) -> (r: String)
    ensures
        r@ == escape_quotes(s@),
{
    let cs = chars_of(s);
    let mut out = String::new();
    let mut i: usize = 0;
    proof {
        assert(s@.subrange(0, 0) =~= Seq::<char>::empty());
    }
    while i < cs.len()
        invariant
            cs@ == s@,
            i <= cs@.len(),
            out@ == escape_quotes(s@.subrange(0, i as int)),
        decreases cs@.len() - i,
    {
        let ghost pre = s@.subrange(0, i as int);
        let ghost post = s@.subrange(0, i + 1);
        proof {
            assert(post.drop_last() =~= pre);
        }
        if cs[i] == '"' {
            push_char(&mut out, '\\');
            push_char(&mut out, '"');
        } else {
            push_char(&mut out, cs[i]);
        }
        proof {
            assert(out@ =~= escape_quotes(post));
        }
        i = i + 1;
    }
    proof {
        assert(s@.subrange(0, cs@.len() as int) =~= s@);
    }
    out
}

fn token_string(t: &TokenTree) -> (r: String)
    ensures
        r@ == token_text(*t),
{
    let mut s = String::new();
    crate::parser::push_token_text(&mut s, t);
    proof {
        assert(s@ =~= token_text(*t));
    }
    s
}

fn lookup_last<'a>(kvs: &'a Vec<(String, String)>, key: &str) -> (r: Option<&'a String>)
    ensures
        match r {
            Some(v) => last_value(pairs_view(kvs@), key@) == Some(v@),
            None => last_value(pairs_view(kvs@), key@) is None,
        },
{
    let ghost pv = pairs_view(kvs@);
    let mut i = kvs.len();
    proof {
        assert(pv.subrange(0, i as int) =~= pv);
    }
    while i > 0
        invariant
            i <= kvs@.len(),
            pv == pairs_view(kvs@),
            last_value(pv.subrange(0, i as int), key@) == last_value(pv, key@),
        decreases i,
    {
        let ghost cur = pv.subrange(0, i as int);
        proof {
            assert(cur.last() == pv[i - 1]);
            assert(cur.drop_last() =~= pv.subrange(0, i - 1));
        }
        if same_text(kvs[i - 1].0.as_str(), key) {
            return Some(&kvs[i - 1].1);
        }
        i = i - 1;
    }
    None
}

fn dlog_build_kvs(ts: &[TokenTree], pos: usize) -> (r: Result<Vec<(String, String)>, String>)
    requires
        pos <= ts@.len(),
    ensures
        match r {
            Ok(kvs) => dlog_kvs(ts@, pos as int, Seq::empty()) == Ok::<
                Seq<(Seq<char>, Seq<char>)>,
                Seq<char>,
            >(pairs_view(kvs@)),
            Err(e) => dlog_kvs(ts@, pos as int, Seq::empty()) == Err::<
                Seq<(Seq<char>, Seq<char>)>,
                Seq<char>,
            >(e@),
        },
{
    let mut kvs: Vec<(String, String)> = Vec::new();
    let mut p = pos;
    proof {
        assert(pairs_view(kvs@) =~= Seq::<(Seq<char>, Seq<char>)>::empty());
    }
    while p < ts.len()
        invariant
            p <= ts@.len(),
            dlog_kvs(ts@, p as int, pairs_view(kvs@)) == dlog_kvs(ts@, pos as int, Seq::empty()),
        decreases ts@.len() - p,
    {
        match &ts[p] {
            TokenTree::Punct(c, _) => {
                if *c != ',' {
                    return Err(String::from_str("compile_error!(\"Expected ','\")"));
                }
                p = p + 1;
            },
            TokenTree::Ident(key) => {
                let eq = p + 1 < ts.len() && match &ts[p + 1] {
                    TokenTree::Punct(c, _) => *c == '=',
                    _ => false,
                };
                if !eq {
                    return Err(String::from_str("compile_error!(\"Expected '='\")"));
                }
                if p + 2 >= ts.len() {
                    return Err(String::from_str("compile_error!(\"Expected literal\")"));
                }
                match &ts[p + 2] {
                    TokenTree::Literal(l) => {
                        let ghost before = pairs_view(kvs@);
                        kvs.push((key.clone(), l.clone()));
                        proof {
                            assert(pairs_view(kvs@) =~= before.push((key@, l@)));
                        }
                        p = p + 3;
                    },
                    _ => {
                        return Err(String::from_str("compile_error!(\"Expected literal\")"));
                    },
                }
            },
            other => {
                let text = token_string(other);
                let mut msg = String::from_str("compile_error!(\"Unexpected token ");
                let escaped = escape_quotes_exec(text.as_str());
                msg.append(escaped.as_str());
                msg.append("\")");
                proof {
                    assert(msg@ =~= unexpected_token_error(token_text(*other)));
                }
                return Err(msg);
            },
        }
    }
    Ok(kvs)
}

fn push_text(s: &mut String, logger: &str, a: &str, b: &str, c: &str)
    ensures
        final(s)@ == old(s)@ + (logger@ + a@ + b@ + c@),
{
    let ghost s0 = s@;
    s.append(logger);
    s.append(a);
    s.append(b);
    s.append(c);
    proof {
        assert(s@ =~= s0 + (logger@ + a@ + b@ + c@));
    }
}

/// Whether no argument before `j` names the key of argument `j`.
fn first_of_key_exec(kvs: &Vec<(String, String)>, j: usize) -> (r: bool)
    requires
        j < kvs@.len(),
    ensures
        r == first_of_key(pairs_view(kvs@), j as int),
{
    let ghost kv = pairs_view(kvs@);
    let mut q: usize = 0;
    while q < j
        invariant
            j < kvs@.len(),
            q <= j,
            kv == pairs_view(kvs@),
            forall|p: int| 0 <= p < q ==> kv[p].0 != kv[j as int].0,
        decreases j - q,
    {
        if same_text(kvs[q].0.as_str(), kvs[j].0.as_str()) {
            assert(kv[q as int].0 == kv[j as int].0);
            return false;
        }
        q = q + 1;
    }
    true
}

/// Appends the `add_context` calls for every argument, as `context_code`.
fn push_context(source: &mut String, logger: &str, kvs: &Vec<(String, String)>)
    ensures
        final(source)@ == old(source)@ + context_code(pairs_view(kvs@), kvs@.len() as int, logger@),
{
    let ghost kv = pairs_view(kvs@);
    let ghost s0 = source@;
    let mut j: usize = 0;
    while j < kvs.len()
        invariant
            j <= kvs@.len(),
            kv == pairs_view(kvs@),
            source@ == s0 + context_code(kv, j as int, logger@),
        decreases kvs@.len() - j,
    {
        if first_of_key_exec(kvs, j) {
            let key = kvs[j].0.as_str();
            let value = match lookup_last(kvs, key) {
                Some(v) => v,
                None => &kvs[j].1,
            };
            let ghost before = source@;
            push_text(source, logger, ".add_context(\"", key, "\",");
            source.append(value.as_str());
            source.append(");\n");
            proof {
                assert(source@ =~= before + ctx_code(logger@, kv[j as int].0, value@));
            }
        }
        proof {
            assert(source@ =~= s0 + context_code(kv, j + 1, logger@));
        }
        j = j + 1;
    }
}

/// The `dlog` `lformat!(logger, "format", key = "literal", ...)` macro:
/// literal runs become `write_literal` calls and `{key}` becomes
/// `write_val` of the literal last given for `key`; then each key is
/// handed to the logger with `add_context`.
pub fn lformat(input: &[TokenTree]) -> (r: String)
    requires
        !lone_quote_at(input@, 2),
    ensures
        r@ == dlog_lformat_spec(input@),
{
    let logger = match (if input.len() > 0 {
        Some(&input[0])
    } else {
        None
    }) {
        Some(TokenTree::Ident(name)) => name.as_str(),
        _ => {
            return String::from_str(
                "compile_error!(\"lformat!() must be called with a logger ident\")",
            );
        },
    };
    let comma = input.len() >= 2 && match &input[1] {
        TokenTree::Punct(c, _) => *c == ',',
        _ => false,
    };
    if !comma {
        return String::from_str("compile_error!(\"Expected ','\")");
    }
    if input.len() < 3 {
        return String::from_str(
            "compile_error!(\"lformat!() must be called with a string literal\")",
        );
    }
    let cs = match &input[2] {
        TokenTree::Literal(l) => {
            let cs = chars_of(l.as_str());
            let n = cs.len();
            if n < 2 || cs[0] != '"' || cs[n - 1] != '"' {
                return String::from_str(
                    "compile_error!(\"lformat!() must be called with a string literal\")",
                );
            }
            let mut inner: Vec<char> = Vec::new();
            let mut k: usize = 1;
            proof {
                assert(inner@ =~= l@.subrange(1, 1));
            }
            while k < n - 1
                invariant
                    cs@ == l@,
                    n == cs@.len(),
                    n >= 2,
                    1 <= k <= n - 1,
                    inner@ == l@.subrange(1, k as int),
                decreases n - 1 - k,
            {
                inner.push(cs[k]);
                proof {
                    assert(inner@ =~= l@.subrange(1, k + 1));
                }
                k = k + 1;
            }
            inner
        },
        _ => {
            return String::from_str(
                "compile_error!(\"lformat!() must be called with a string literal\")",
            );
        },
    };
    let kvs = match dlog_build_kvs(input, 3) {
        Ok(kvs) => kvs,
        Err(e) => {
            return e;
        },
    };
    let ghost fs = cs@;
    let ghost kv = pairs_view(kvs@);
    let ghost lg = logger@;
    let mut source = String::new();
    let mut in_key = false;
    let mut buf = String::new();
    let mut i: usize = 0;
    let n = cs.len();
    while i < n
        invariant
            fs == cs@,
            n == fs.len(),
            kv == pairs_view(kvs@),
            lg == logger@,
            input@.len() > 2,
            input@[0] is Ident,
            input@[1] matches TokenTree::Punct(',', _),
            lg == token_text(input@[0]),
            quoted_at(input@, 2) == Some(fs),
            dlog_kvs(input@, 3, Seq::empty()) == Ok::<Seq<(Seq<char>, Seq<char>)>, Seq<char>>(kv),
            i <= n,
            dlog_gen(fs, i as int, in_key, buf@, source@, kv, lg) == dlog_gen(
                fs,
                0,
                false,
                Seq::empty(),
                Seq::empty(),
                kv,
                lg,
            ),
        decreases n - i,
    {
        let c = cs[i];
        if !in_key {
            if c == '{' {
                if i + 1 < n && cs[i + 1] == '{' {
                    push_char(&mut buf, '{');
                } else {
                    if !buf.as_str().is_empty() {
                        push_text(&mut source, logger, ".write_literal(\"", buf.as_str(), "\");\n");
                    }
                    in_key = true;
                    buf = String::new();
                }
            } else {
                push_char(&mut buf, c);
            }
        } else if c == '}' {
            match lookup_last(&kvs, buf.as_str()) {
                Some(v) => {
                    push_text(&mut source, logger, ".write_val(", v.as_str(), ");\n");
                },
                None => {
                    let mut msg = String::from_str("compile_error!(\"Key ");
                    msg.append(buf.as_str());
                    msg.append(" not found\")");
                    proof {
                        assert(msg@ =~= dlog_missing_key_error(buf@));
                    }
                    return msg;
                },
            }
            in_key = false;
            buf = String::new();
        } else {
            push_char(&mut buf, c);
        }
        i = i + 1;
    }
    if in_key {
        return String::from_str("compile_error!(\"Expected '}'\")");
    }
    if !buf.as_str().is_empty() {
        push_text(&mut source, logger, ".write_literal(\"", buf.as_str(), "\");\n");
    }
    push_context(&mut source, logger, &kvs);
    source
}

pub open spec fn perfwarn_attr_error() -> Seq<char> {
    "compile_error!(\"Expected a string literal argument\")"@
}

/// What the `dlog` `#[perfwarn("name")]` attribute expands to: the item
/// wrapped in a perfwarn interval.
pub open spec fn dlog_perfwarn_spec(attr: Seq<TokenTree>, item: Seq<char>) -> Seq<char> {
    if attr.len() > 0 && attr[0] is Literal {
        "\n        let interval = ::dlog::perfwarn_begin!("@ + token_text(attr[0]) + ");\n        "@
            + item + "\n        drop(interval);\n    "@
    } else {
        perfwarn_attr_error()
    }
}

/// The `dlog` `#[perfwarn("name")]` attribute; `item` is the source of the
/// annotated item.
pub fn perfwarn(attr: &[TokenTree], item: &str) -> (r: String)
    ensures
        r@ == dlog_perfwarn_spec(attr@, item@),
{
    if attr.len() == 0 {
        return String::from_str("compile_error!(\"Expected a string literal argument\")");
    }
    match &attr[0] {
        TokenTree::Literal(l) => {
            let mut o = String::from_str("\n        let interval = ::dlog::perfwarn_begin!(");
            o.append(l.as_str());
            o.append(");\n        ");
            o.append(item);
            o.append("\n        drop(interval);\n    ");
            proof {
                assert(o@ =~= dlog_perfwarn_spec(attr@, item@));
            }
            o
        },
        _ => String::from_str("compile_error!(\"Expected a string literal argument\")"),
    }
}

} // verus!
