//! Code generation for the `lformat!` family of macros: a format string with
//! `{key}` placeholders and `key = value` arguments becomes a sequence of
//! `write_literal` / `write_val` calls on a formatter.

use vstd::prelude::*;

use crate::parser::{
    build_kvs, error_call, error_call_string, find_key, key_index, kvs_from, kvs_view,
    push_rendered, render, scan, scan_format_string, segs_view, seg_view, unclosed_brace_error,
    KeyValue, KvSpec, SegSpec, Segment, TokenTree,
};
use crate::text::{chars_of, debug_quote, debug_quoted, decimal, digit_char, push_char, push_decimal, same_text};
use vstd::string::StringExecFns;

verus! {

/// Generated code and the format string it came from.
pub struct LFormatResult {
    /// Source text of the generated statements (or of a `compile_error!`).
    pub output: String,
    /// The format string without its quotes; empty when generation failed.
    pub name: String,
}

pub open spec fn literal_error() -> Seq<char> {
    "compile_error!(\"lformat!() must be called with a string literal\");"@
}

/// The text between the quotes of a leading plain string literal.
pub open spec fn format_literal(ts: Seq<TokenTree>) -> Option<Seq<char>> {
    if ts.len() == 0 {
        None
    } else {
        match ts[0] {
            TokenTree::Literal(l) => if l@.len() >= 2 && l@[0] == '"' && l@[l@.len() - 1] == '"' {
                Some(l@.subrange(1, l@.len() - 1))
            } else {
                None
            },
            _ => None,
        }
    }
}

/// A lone `"` as the literal: its quotes overlap, and slicing between them
/// is out of bounds.
pub open spec fn lone_quote_literal(ts: Seq<TokenTree>) -> bool {
    &&& ts.len() > 0
    &&& ts[0] matches TokenTree::Literal(l)
    &&& l@ == seq!['"']
}

/// The argument a segment resolves to, if it is a placeholder naming one.
pub open spec fn ph_index(seg: SegSpec, kvs: Seq<KvSpec>) -> Option<int> {
    match seg {
        SegSpec::Ph(k) => key_index(kvs, k),
        SegSpec::Lit(_) => None,
    }
}

/// How many placeholders resolve to argument `idx`.
pub open spec fn occ_count(segs: Seq<SegSpec>, kvs: Seq<KvSpec>, idx: int) -> nat
    decreases segs.len(),
{
    if segs.len() == 0 {
        0
    } else {
        occ_count(segs.drop_last(), kvs, idx) + if ph_index(segs.last(), kvs) == Some(idx) {
            1nat
        } else {
            0nat
        }
    }
}

/// Whether a placeholder before position `i` resolves to argument `idx`.
pub open spec fn bound_before(segs: Seq<SegSpec>, kvs: Seq<KvSpec>, i: int, idx: int) -> bool {
    exists|j: int| 0 <= j < i && #[trigger] ph_index(segs[j], kvs) == Some(idx)
}

/// Whether some placeholder names `key`.
pub open spec fn key_used(segs: Seq<SegSpec>, key: Seq<char>) -> bool {
    exists|j: int| 0 <= j < segs.len() && #[trigger] segs[j] == SegSpec::Ph(key)
}

/// Source text of an argument's value expression.
pub open spec fn value_text(ts: Seq<TokenTree>, kv: KvSpec) -> Seq<char> {
    render(ts.subrange(kv.start, kv.end))
}

pub open spec fn lit_code(logger: Seq<char>, text: Seq<char>) -> Seq<char> {
    logger + ".write_literal(\""@ + text + "\");\n"@
}

pub open spec fn val_code(logger: Seq<char>, value: Seq<char>) -> Seq<char> {
    logger + ".write_val("@ + value + ");\n"@
}

pub open spec fn bind_code(idx: nat, value: Seq<char>) -> Seq<char> {
    "let __logwise_val_"@ + decimal(idx) + " = "@ + value + ";\n"@
}

pub open spec fn ref_code(logger: Seq<char>, idx: nat) -> Seq<char> {
    logger + ".write_val_ref(&__logwise_val_"@ + decimal(idx) + ");\n"@
}

pub open spec fn field_code(logger: Seq<char>, key: Seq<char>, value: Seq<char>) -> Seq<char> {
    logger + ".write_literal("@ + debug_quoted(" "@ + key + "="@) + ");\n"@ + val_code(
        logger,
        value,
    )
}

pub open spec fn missing_key_error(key: Seq<char>) -> Seq<char> {
    error_call("Key "@ + key + " not found"@)
}

/// The code for placeholder `i`, which resolves to argument `idx`. A key
/// used more than once is bound on its first use and then logged by
/// reference, so its expression is evaluated exactly once.
pub open spec fn ph_code(
    ts: Seq<TokenTree>,
    kvs: Seq<KvSpec>,
    segs: Seq<SegSpec>,
    logger: Seq<char>,
    i: int,
    idx: int,
) -> Seq<char> {
    let value = value_text(ts, kvs[idx]);
    if occ_count(segs, kvs, idx) > 1 {
        (if bound_before(segs, kvs, i, idx) {
            Seq::<char>::empty()
        } else {
            bind_code(idx as nat, value)
        }) + ref_code(logger, idx as nat)
    } else {
        val_code(logger, value)
    }
}

pub open spec fn prepend(p: Seq<char>, r: Result<Seq<char>, Seq<char>>) -> Result<
    Seq<char>,
    Seq<char>,
> {
    match r {
        Ok(s) => Ok(p + s),
        Err(e) => Err(e),
    }
}

/// The code for segments `i..`, or the error for the first placeholder whose
/// key has no argument.
pub open spec fn gen_from(
    ts: Seq<TokenTree>,
    kvs: Seq<KvSpec>,
    segs: Seq<SegSpec>,
    logger: Seq<char>,
    i: int,
) -> Result<Seq<char>, Seq<char>>
    decreases segs.len() - i,
{
    if i < 0 || i >= segs.len() {
        Ok(Seq::empty())
    } else {
        match segs[i] {
            SegSpec::Lit(t) => prepend(lit_code(logger, t), gen_from(ts, kvs, segs, logger, i + 1)),
            SegSpec::Ph(key) => match key_index(kvs, key) {
                None => Err(missing_key_error(key)),
                Some(idx) => prepend(
                    ph_code(ts, kvs, segs, logger, i, idx),
                    gen_from(ts, kvs, segs, logger, i + 1),
                ),
            },
        }
    }
}

/// Arguments from `j` on that no placeholder names, kept as structured
/// fields in call-site order.
pub open spec fn unused_from(
    ts: Seq<TokenTree>,
    kvs: Seq<KvSpec>,
    segs: Seq<SegSpec>,
    logger: Seq<char>,
    j: int,
) -> Seq<char>
    decreases kvs.len() - j,
{
    if j < 0 || j >= kvs.len() {
        Seq::empty()
    } else {
        (if key_used(segs, kvs[j].key) {
            Seq::<char>::empty()
        } else {
            field_code(logger, kvs[j].key, value_text(ts, kvs[j]))
        }) + unused_from(ts, kvs, segs, logger, j + 1)
    }
}

/// What `lformat_impl` produces: the generated source and the format string,
/// or a `compile_error!` and an empty name.
pub open spec fn lformat_spec(ts: Seq<TokenTree>, logger: Seq<char>) -> (Seq<char>, Seq<char>) {
    match format_literal(ts) {
        None => (literal_error(), Seq::empty()),
        Some(fs) => match kvs_from(ts, 1) {
            Err(e) => (e, Seq::empty()),
            Ok(kvs) => match scan(fs) {
                None => (unclosed_brace_error(), Seq::empty()),
                Some(segs) => match gen_from(ts, kvs, segs, logger, 0) {
                    Err(e) => (e, Seq::empty()),
                    Ok(body) => (body + unused_from(ts, kvs, segs, logger, 0), fs),
                },
            },
        },
    }
}

proof fn lemma_prepend_assoc(a: Seq<char>, b: Seq<char>, r: Result<Seq<char>, Seq<char>>)
    ensures
        prepend(a, prepend(b, r)) == prepend(a + b, r),
{
    if let Ok(s) = r {
        assert(a + (b + s) =~= (a + b) + s);
    }
}

proof fn lemma_occ_count_bound(segs: Seq<SegSpec>, kvs: Seq<KvSpec>, idx: int)
    ensures
        occ_count(segs, kvs, idx) <= segs.len(),
    decreases segs.len(),
{
    if segs.len() > 0 {
        lemma_occ_count_bound(segs.drop_last(), kvs, idx);
    }
}

fn push_lit_code(s: &mut String, logger: &str, text: &str)
    ensures
        final(s)@ == old(s)@ + lit_code(logger@, text@),
{
    let ghost s0 = s@;
    s.append(logger);
    s.append(".write_literal(\"");
    s.append(text);
    s.append("\");\n");
    proof {
        assert(s@ =~= s0 + lit_code(logger@, text@));
    }
}

fn push_val_code(s: &mut String, logger: &str, ts: &[TokenTree], start: usize, end: usize)
    requires
        start <= end <= ts@.len(),
    ensures
        final(s)@ == old(s)@ + val_code(logger@, render(ts@.subrange(start as int, end as int))),
{
    let ghost s0 = s@;
    s.append(logger);
    s.append(".write_val(");
    push_rendered(s, ts, start, end);
    s.append(");\n");
    proof {
        assert(s@ =~= s0 + val_code(logger@, render(ts@.subrange(start as int, end as int))));
    }
}

fn push_bind_code(s: &mut String, idx: usize, ts: &[TokenTree], start: usize, end: usize)
    requires
        start <= end <= ts@.len(),
    ensures
        final(s)@ == old(s)@ + bind_code(idx as nat, render(ts@.subrange(start as int, end as int))),
{
    let ghost s0 = s@;
    s.append("let __logwise_val_");
    push_decimal(s, idx);
    s.append(" = ");
    push_rendered(s, ts, start, end);
    s.append(";\n");
    proof {
        assert(s@ =~= s0 + bind_code(idx as nat, render(ts@.subrange(start as int, end as int))));
    }
}

fn push_ref_code(s: &mut String, logger: &str, idx: usize)
    ensures
        final(s)@ == old(s)@ + ref_code(logger@, idx as nat),
{
    let ghost s0 = s@;
    s.append(logger);
    s.append(".write_val_ref(&__logwise_val_");
    push_decimal(s, idx);
    s.append(");\n");
    proof {
        assert(s@ =~= s0 + ref_code(logger@, idx as nat));
    }
}

fn push_field_code(
    s: &mut String,
    logger: &str,
    key: &str,
    ts: &[TokenTree],
    start: usize,
    end: usize,
)
    requires
        start <= end <= ts@.len(),
    ensures
        final(s)@ == old(s)@ + field_code(
            logger@,
            key@,
            render(ts@.subrange(start as int, end as int)),
        ),
{
    let ghost s0 = s@;
    let mut label = String::from_str(" ");
    label.append(key);
    label.append("=");
    let quoted = debug_quote(label.as_str());
    proof {
        assert(label@ =~= " "@ + key@ + "="@);
    }
    s.append(logger);
    s.append(".write_literal(");
    s.append(quoted.as_str());
    s.append(");\n");
    push_val_code(s, logger, ts, start, end);
    proof {
        assert(s@ =~= s0 + field_code(
            logger@,
            key@,
            render(ts@.subrange(start as int, end as int)),
        ));
    }
}

/// For each argument, how many placeholders resolve to it.
fn count_occurrences(segs: &Vec<Segment>, kvs: &Vec<KeyValue>) -> (occ: Vec<usize>)
    ensures
        occ@.len() == kvs@.len(),
        forall|idx: int|
            0 <= idx < kvs@.len() ==> occ@[idx] == occ_count(
                segs_view(segs@),
                kvs_view(kvs@),
                idx,
            ),
{
    let ghost sv = segs_view(segs@);
    let ghost kv = kvs_view(kvs@);
    let mut occ: Vec<usize> = Vec::new();
    let mut j: usize = 0;
    while j < kvs.len()
        invariant
            j <= kvs@.len(),
            occ@.len() == j,
            forall|idx: int| 0 <= idx < j ==> occ@[idx] == 0,
        decreases kvs@.len() - j,
    {
        occ.push(0);
        j = j + 1;
    }
    let mut i: usize = 0;
    proof {
        assert(sv.subrange(0, 0).len() == 0);
    }
    while i < segs.len()
        invariant
            i <= segs@.len(),
            sv == segs_view(segs@),
            kv == kvs_view(kvs@),
            occ@.len() == kvs@.len(),
            forall|idx: int|
                0 <= idx < kvs@.len() ==> occ@[idx] == occ_count(sv.subrange(0, i as int), kv, idx),
        decreases segs@.len() - i,
    {
        let ghost pre = sv.subrange(0, i as int);
        let ghost post = sv.subrange(0, i + 1);
        proof {
            assert(post.drop_last() =~= pre);
            assert(post.last() == sv[i as int]);
            assert(sv[i as int] == seg_view(segs@[i as int]));
        }
        match &segs[i] {
            Segment::Placeholder(key) => {
                match find_key(kvs, key.as_str()) {
                    Some(idx) => {
                        proof {
                            lemma_occ_count_bound(pre, kv, idx as int);
                        }
                        let c = occ[idx] + 1;
                        occ.set(idx, c);
                    },
                    None => {},
                }
            },
            Segment::Literal(_) => {},
        }
        i = i + 1;
    }
    proof {
        assert(sv.subrange(0, segs@.len() as int) =~= sv);
    }
    occ
}

/// Whether some placeholder names `key`.
fn placeholder_named(segs: &Vec<Segment>, key: &str) -> (r: bool)
    ensures
        r == key_used(segs_view(segs@), key@),
{
    let ghost sv = segs_view(segs@);
    let mut i: usize = 0;
    while i < segs.len()
        invariant
            i <= segs@.len(),
            sv == segs_view(segs@),
            forall|j: int| 0 <= j < i ==> sv[j] != SegSpec::Ph(key@),
        decreases segs@.len() - i,
    {
        proof {
            assert(sv[i as int] == seg_view(segs@[i as int]));
        }
        match &segs[i] {
            Segment::Placeholder(k) => {
                if same_text(k.as_str(), key) {
                    return true;
                }
            },
            Segment::Literal(_) => {},
        }
        i = i + 1;
    }
    false
}

/// Takes the text between the quotes of a plain string literal.
fn unquote(ts: &[TokenTree]) -> (r: Option<String>)
    requires
        !lone_quote_literal(ts@),
    ensures
        match r {
            Some(s) => format_literal(ts@) == Some(s@),
            None => format_literal(ts@) is None,
        },
{
    if ts.len() == 0 {
        return None;
    }
    match &ts[0] {
        TokenTree::Literal(l) => {
            let cs = chars_of(l.as_str());
            let n = cs.len();
            if n < 2 || cs[0] != '"' || cs[n - 1] != '"' {
                return None;
            }
            let mut out = String::new();
            let mut k: usize = 1;
            proof {
                assert(out@ =~= l@.subrange(1, 1));
            }
            while k < n - 1
                invariant
                    cs@ == l@,
                    n == cs@.len(),
                    n >= 2,
                    1 <= k <= n - 1,
                    out@ == l@.subrange(1, k as int),
                decreases n - 1 - k,
            {
                push_char(&mut out, cs[k]);
                proof {
                    assert(out@ =~= l@.subrange(1, k + 1));
                }
                k = k + 1;
            }
            Some(out)
        },
        _ => None,
    }
}

fn failure(output: String) -> (r: LFormatResult)
    ensures
        r.output@ == output@,
        r.name@ == Seq::<char>::empty(),
{
    LFormatResult { output, name: String::new() }
}

/// Transforms a format string and its `key = value` arguments into formatter
/// calls on `logger`: literal text becomes `write_literal`, each placeholder
/// `write_val` of its argument (bound once and written by reference when the
/// key repeats), and arguments no placeholder names are appended as
/// ` key=` literals followed by their values. Failures yield a
/// `compile_error!` and an empty name.
pub fn lformat_impl(collect: &[TokenTree], logger: String) -> (r: LFormatResult)
    requires
        !lone_quote_literal(collect@),
    ensures
        (r.output@, r.name@) == lformat_spec(collect@, logger@),
{
    let format_string = match unquote(collect) {
        Some(s) => s,
        None => {
            return failure(
                String::from_str(
                    "compile_error!(\"lformat!() must be called with a string literal\");",
                ),
            );
        },
    };
    let key_values = match build_kvs(collect, 1) {
        Ok(kvs) => kvs,
        Err(e) => {
            return failure(e);
        },
    };
    let segments = match scan_format_string(format_string.as_str()) {
        Ok(segments) => segments,
        Err(e) => {
            return failure(e);
        },
    };
    let ghost ts = collect@;
    let ghost kv = kvs_view(key_values@);
    let ghost sv = segs_view(segments@);
    let ghost lg = logger@;
    let occurrences = count_occurrences(&segments, &key_values);
    let mut seen: Vec<bool> = Vec::new();
    let mut j: usize = 0;
    while j < key_values.len()
        invariant
            j <= key_values@.len(),
            seen@.len() == j,
            forall|idx: int| 0 <= idx < j ==> !seen@[idx],
        decreases key_values@.len() - j,
    {
        seen.push(false);
        j = j + 1;
    }
    let mut source = String::new();
    let mut i: usize = 0;
    proof {
        assert(prepend(source@, gen_from(ts, kv, sv, lg, 0)) == gen_from(ts, kv, sv, lg, 0)) by {
            if let Ok(x) = gen_from(ts, kv, sv, lg, 0) {
                assert(source@ + x =~= x);
            }
        }
    }
    while i < segments.len()
        invariant
            ts == collect@,
            kv == kvs_view(key_values@),
            sv == segs_view(segments@),
            lg == logger@,
            i <= segments@.len(),
            occurrences@.len() == key_values@.len(),
            forall|idx: int|
                0 <= idx < key_values@.len() ==> occurrences@[idx] == occ_count(sv, kv, idx),
            forall|x: int|
                0 <= x < key_values@.len() ==> #[trigger] key_values@[x].start
                    <= key_values@[x].end <= ts.len(),
            seen@.len() == key_values@.len(),
            forall|idx: int| 0 <= idx < key_values@.len() ==> seen@[idx] == bound_before(sv, kv, i as int, idx),
            gen_from(ts, kv, sv, lg, 0) == prepend(source@, gen_from(ts, kv, sv, lg, i as int)),
            format_literal(ts) == Some(format_string@),
            kvs_from(ts, 1) == Ok::<Seq<KvSpec>, Seq<char>>(kv),
            scan(format_string@) == Some(sv),
        decreases segments@.len() - i,
    {
        let ghost s0 = source@;
        proof {
            assert(sv[i as int] == seg_view(segments@[i as int]));
        }
        match &segments[i] {
            Segment::Literal(literal) => {
                push_lit_code(&mut source, logger.as_str(), literal.as_str());
                proof {
                    lemma_prepend_assoc(s0, lit_code(lg, literal@), gen_from(ts, kv, sv, lg, i + 1));
                    assert forall|idx: int| 0 <= idx < key_values@.len() implies seen@[idx] == bound_before(sv, kv, i + 1, idx) by {
                        if bound_before(sv, kv, i + 1, idx) {
                            let w = choose|w: int| 0 <= w < i + 1 && #[trigger] ph_index(sv[w], kv) == Some(idx);
                            assert(w != i);
                            assert(bound_before(sv, kv, i as int, idx));
                        }
                    }
                }
            },
            Segment::Placeholder(key) => {
                let found = find_key(&key_values, key.as_str());
                let idx = match found {
                    Some(idx) => idx,
                    None => {
                        let mut message = String::from_str("Key ");
                        message.append(key.as_str());
                        message.append(" not found");
                        proof {
                            assert(message@ =~= "Key "@ + key@ + " not found"@);
                        }
                        let out = error_call_string(message.as_str());
                        proof {
                            assert(gen_from(ts, kv, sv, lg, i as int) == Err::<Seq<char>, Seq<char>>(missing_key_error(key@)));
                            assert(lformat_spec(collect@, logger@).0 == out@);
                        }
                        return failure(out);
                    },
                };
                let ghost piece = ph_code(ts, kv, sv, lg, i as int, idx as int);
                proof {
                    assert(kv[idx as int] == crate::parser::kv_view(key_values@[idx as int]));
                    assert(ph_index(sv[i as int], kv) == Some(idx as int));
                }
                let start = key_values[idx].start;
                let end = key_values[idx].end;
                if occurrences[idx] > 1 {
                    if !seen[idx] {
                        push_bind_code(&mut source, idx, collect, start, end);
                    }
                    push_ref_code(&mut source, logger.as_str(), idx);
                } else {
                    push_val_code(&mut source, logger.as_str(), collect, start, end);
                }
                proof {
                    assert(source@ =~= s0 + piece);
                    lemma_prepend_assoc(s0, piece, gen_from(ts, kv, sv, lg, i + 1));
                }
                let ghost seen0 = seen@;
                seen.set(idx, true);
                proof {
                    assert forall|x: int| 0 <= x < key_values@.len() implies seen@[x] == bound_before(sv, kv, i + 1, x) by {
                        if x == idx as int {
                            assert(ph_index(sv[i as int], kv) == Some(x));
                        } else {
                            assert(seen@[x] == seen0[x]);
                            if bound_before(sv, kv, i + 1, x) {
                                let w = choose|w: int| 0 <= w < i + 1 && #[trigger] ph_index(sv[w], kv) == Some(x);
                                assert(w != i);
                                assert(bound_before(sv, kv, i as int, x));
                            }
                        }
                    }
                }
            },
        }
        i = i + 1;
    }
    let ghost body = source@;
    proof {
        assert(gen_from(ts, kv, sv, lg, 0) == Ok::<Seq<char>, Seq<char>>(body)) by {
            assert(body + Seq::<char>::empty() =~= body);
        }
    }
    let mut j: usize = 0;
    proof {
        assert(body + unused_from(ts, kv, sv, lg, 0) =~= source@ + unused_from(ts, kv, sv, lg, 0));
    }
    while j < key_values.len()
        invariant
            ts == collect@,
            kv == kvs_view(key_values@),
            sv == segs_view(segments@),
            lg == logger@,
            j <= key_values@.len(),
            forall|x: int|
                0 <= x < key_values@.len() ==> #[trigger] key_values@[x].start
                    <= key_values@[x].end <= ts.len(),
            body + unused_from(ts, kv, sv, lg, 0) == source@ + unused_from(ts, kv, sv, lg, j as int),
        decreases key_values@.len() - j,
    {
        let ghost s0 = source@;
        proof {
            assert(kv[j as int] == crate::parser::kv_view(key_values@[j as int]));
        }
        let kvj = &key_values[j];
        if !placeholder_named(&segments, kvj.key.as_str()) {
            push_field_code(&mut source, logger.as_str(), kvj.key.as_str(), collect, kvj.start, kvj.end);
        }
        proof {
            let piece = if key_used(sv, kv[j as int].key) {
                Seq::<char>::empty()
            } else {
                field_code(lg, kv[j as int].key, value_text(ts, kv[j as int]))
            };
            assert(source@ =~= s0 + piece);
            assert(s0 + (piece + unused_from(ts, kv, sv, lg, j + 1)) =~= source@ + unused_from(ts, kv, sv, lg, j + 1));
        }
        j = j + 1;
    }
    proof {
        assert(source@ + unused_from(ts, kv, sv, lg, j as int) =~= source@);
    }
    proof {
        assert(lformat_spec(collect@, logger@).0 == source@);
        assert(lformat_spec(collect@, logger@).1 == format_string@);
    }
    LFormatResult { output: source, name: format_string }
}


pub open spec fn logger_ident_error() -> Seq<char> {
    "compile_error!(\"lformat!() must be called with a logger ident\")"@
}

pub open spec fn bare_comma_error() -> Seq<char> {
    "compile_error!(\"Expected ','\")"@
}

/// What `lformat_macro` expands to: a logger identifier, a comma, then the
/// format string and its arguments as `lformat_impl` takes them.
pub open spec fn lformat_macro_spec(ts: Seq<TokenTree>) -> Seq<char> {
    if ts.len() == 0 {
        logger_ident_error()
    } else {
        match ts[0] {
            TokenTree::Ident(name) => if ts.len() >= 2 && ts[1] matches TokenTree::Punct(',', _) {
                lformat_spec(ts.subrange(2, ts.len() as int), name@).0
            } else {
                bare_comma_error()
            },
            _ => logger_ident_error(),
        }
    }
}

/// The `lformat!(logger, "format", key = value, ...)` macro: returns the
/// source of the formatter calls, or of a `compile_error!`.
pub fn lformat_macro(input: &[TokenTree]) -> (r: String)
    requires
        input@.len() >= 2 ==> !lone_quote_literal(input@.subrange(2, input@.len() as int)),
    ensures
        r@ == lformat_macro_spec(input@),
{
    if input.len() == 0 {
        return String::from_str("compile_error!(\"lformat!() must be called with a logger ident\")");
    }
    let logger = match &input[0] {
        TokenTree::Ident(name) => name.clone(),
        _ => {
            return String::from_str(
                "compile_error!(\"lformat!() must be called with a logger ident\")",
            );
        },
    };
    let comma = input.len() >= 2 && match &input[1] {
        TokenTree::Punct(c, _) => *c == ',',
        _ => false,
    };
    if !comma {
        return String::from_str("compile_error!(\"Expected ','\")");
    }
    let rest = vstd::slice::slice_subrange(input, 2, input.len());
    let o = lformat_impl(rest, logger);
    o.output
}


/// How many of the first `n` segments bind argument `idx`: placeholders
/// resolving to it with none before them.
pub open spec fn binding_sites(segs: Seq<SegSpec>, kvs: Seq<KvSpec>, idx: int, n: int) -> nat
    decreases n,
{
    if n <= 0 {
        0
    } else {
        binding_sites(segs, kvs, idx, n - 1) + if ph_index(segs[n - 1], kvs) == Some(idx)
            && !bound_before(segs, kvs, n - 1, idx) {
            1nat
        } else {
            0nat
        }
    }
}

proof fn lemma_bound_before_prefix(segs: Seq<SegSpec>, kvs: Seq<KvSpec>, idx: int, i: int)
    requires
        0 <= i <= segs.len(),
    ensures
        bound_before(segs, kvs, i, idx) <==> occ_count(segs.take(i), kvs, idx) > 0,
    decreases i,
{
    if i > 0 {
        lemma_bound_before_prefix(segs, kvs, idx, i - 1);
        assert(segs.take(i).drop_last() =~= segs.take(i - 1));
        assert(segs.take(i).last() == segs[i - 1]);
        if bound_before(segs, kvs, i, idx) {
            let j = choose|j: int| 0 <= j < i && #[trigger] ph_index(segs[j], kvs) == Some(idx);
            if j < i - 1 {
                assert(bound_before(segs, kvs, i - 1, idx));
            }
        }
        if bound_before(segs, kvs, i - 1, idx) {
            let j = choose|j: int| 0 <= j < i - 1 && #[trigger] ph_index(segs[j], kvs) == Some(idx);
            assert(bound_before(segs, kvs, i, idx));
        }
        if ph_index(segs[i - 1], kvs) == Some(idx) {
            assert(bound_before(segs, kvs, i, idx));
        }
    } else {
        assert(segs.take(0).len() == 0);
    }
}

proof fn lemma_binding_sites(segs: Seq<SegSpec>, kvs: Seq<KvSpec>, idx: int, n: int)
    requires
        0 <= n <= segs.len(),
    ensures
        binding_sites(segs, kvs, idx, n) == if occ_count(segs.take(n), kvs, idx) > 0 {
            1nat
        } else {
            0nat
        },
    decreases n,
{
    if n > 0 {
        lemma_binding_sites(segs, kvs, idx, n - 1);
        lemma_bound_before_prefix(segs, kvs, idx, n - 1);
        assert(segs.take(n).drop_last() =~= segs.take(n - 1));
        assert(segs.take(n).last() == segs[n - 1]);
    } else {
        assert(segs.take(0).len() == 0);
    }
}

/// A key that several placeholders name is bound exactly once, at its
/// first placeholder: its value expression is evaluated a single time.
pub proof fn law_repeated_key_is_bound_once(segs: Seq<SegSpec>, kvs: Seq<KvSpec>, idx: int)
    requires
        occ_count(segs, kvs, idx) > 1,
    ensures
        binding_sites(segs, kvs, idx, segs.len() as int) == 1,
{
    lemma_binding_sites(segs, kvs, idx, segs.len() as int);
    assert(segs.take(segs.len() as int) =~= segs);
}

proof fn lemma_digit_char_injective(a: nat, b: nat)
    requires
        a < 10,
        b < 10,
        digit_char(a) == digit_char(b),
    ensures
        a == b,
{
}

proof fn lemma_decimal_len(n: nat)
    ensures
        n < 10 ==> decimal(n).len() == 1,
        n >= 10 ==> decimal(n).len() >= 2,
    decreases n,
{
    if n >= 10 {
        lemma_decimal_len(n / 10);
    }
}

/// Distinct numbers have distinct decimal renderings.
proof fn lemma_decimal_injective(a: nat, b: nat)
    requires
        decimal(a) == decimal(b),
    ensures
        a == b,
    decreases a,
{
    lemma_decimal_len(a);
    lemma_decimal_len(b);
    if a < 10 && b < 10 {
        assert(decimal(a)[0] == digit_char(a));
        assert(decimal(b)[0] == digit_char(b));
        lemma_digit_char_injective(a, b);
    } else if a >= 10 && b >= 10 {
        let da = decimal(a);
        let db = decimal(b);
        assert(da.last() == digit_char(a % 10));
        assert(db.last() == digit_char(b % 10));
        lemma_digit_char_injective(a % 10, b % 10);
        assert(da.drop_last() =~= decimal(a / 10));
        assert(db.drop_last() =~= decimal(b / 10));
        lemma_decimal_injective(a / 10, b / 10);
    }
}

/// The name a repeated argument's value is bound to.
pub open spec fn binding_name(idx: nat) -> Seq<char> {
    "__logwise_val_"@ + decimal(idx)
}

/// Repeated arguments never share a binding: arguments with different
/// indices get different names, so no binding shadows another; and the
/// `write_val_ref` for an argument reads exactly that argument's binding.
pub proof fn law_each_repeated_argument_has_its_own_binding(
    i: nat,
    j: nat,
    value_i: Seq<char>,
    value_j: Seq<char>,
    logger: Seq<char>,
)
    ensures
        binding_name(i) == binding_name(j) ==> i == j,
        bind_code(i, value_i) == "let "@ + binding_name(i) + " = "@ + value_i + ";\n"@,
        ref_code(logger, i) == logger + ".write_val_ref(&"@ + binding_name(i) + ");\n"@,
        i != j ==> ref_code(logger, i) != ref_code(logger, j),
        i != j && value_i == value_j ==> bind_code(i, value_i) != bind_code(j, value_j),
{
    reveal_strlit("let __logwise_val_");
    reveal_strlit("let ");
    reveal_strlit("__logwise_val_");
    reveal_strlit(".write_val_ref(&__logwise_val_");
    reveal_strlit(".write_val_ref(&");
    reveal_strlit(");\n");
    reveal_strlit(" = ");
    assert(");\n"@[0] == ')');
    assert(" = "@[0] == ' ');
    assert((" = "@ + value_i + ";\n"@)[0] == ' ');
    let p = "__logwise_val_"@;
    assert("let __logwise_val_"@ =~= "let "@ + p);
    assert(".write_val_ref(&__logwise_val_"@ =~= ".write_val_ref(&"@ + p);
    assert(bind_code(i, value_i) =~= "let "@ + binding_name(i) + " = "@ + value_i + ";\n"@);
    assert(ref_code(logger, i) =~= logger + ".write_val_ref(&"@ + binding_name(i) + ");\n"@);
    assert(ref_code(logger, j) =~= logger + ".write_val_ref(&"@ + binding_name(j) + ");\n"@);
    assert(bind_code(j, value_j) =~= "let "@ + binding_name(j) + " = "@ + value_j + ";\n"@);
    if binding_name(i) == binding_name(j) {
        assert(decimal(i) =~= binding_name(i).subrange(p.len() as int, binding_name(i).len() as int));
        assert(decimal(j) =~= binding_name(j).subrange(p.len() as int, binding_name(j).len() as int));
        lemma_decimal_injective(i, j);
    }
    if i != j {
        lemma_decimal_len(i);
        lemma_decimal_len(j);
        lemma_tails_differ(i, j, logger + ".write_val_ref(&"@ + p, ");\n"@);
        assert(ref_code(logger, i) =~= (logger + ".write_val_ref(&"@ + p) + decimal(i) + ");\n"@);
        assert(ref_code(logger, j) =~= (logger + ".write_val_ref(&"@ + p) + decimal(j) + ");\n"@);
        if value_i == value_j {
            lemma_tails_differ(i, j, "let "@ + p, " = "@ + value_i + ";\n"@);
            assert(bind_code(i, value_i) =~= ("let "@ + p) + decimal(i) + (" = "@ + value_i + ";\n"@));
            assert(bind_code(j, value_j) =~= ("let "@ + p) + decimal(j) + (" = "@ + value_j + ";\n"@));
        }
    }
}

/// `pre + decimal(i) + post` differs from `pre + decimal(j) + post` when
/// `i != j` and `post` starts with a non-digit.
proof fn lemma_tails_differ(i: nat, j: nat, pre: Seq<char>, post: Seq<char>)
    requires
        i != j,
        post.len() > 0,
        !is_digit_char(post[0]),
    ensures
        pre + decimal(i) + post != pre + decimal(j) + post,
{
    let a = pre + decimal(i) + post;
    let b = pre + decimal(j) + post;
    if a == b {
        lemma_decimal_digits(i);
        lemma_decimal_digits(j);
        let di = decimal(i);
        let dj = decimal(j);
        if di.len() == dj.len() {
            assert forall|k: int| 0 <= k < di.len() implies di[k] == dj[k] by {
                assert(a[pre.len() as int + k] == b[pre.len() as int + k]);
            }
            assert(di =~= dj);
            lemma_decimal_injective(i, j);
        } else if di.len() < dj.len() {
            assert(a[pre.len() as int + di.len() as int] == post[0]);
            assert(b[pre.len() as int + di.len() as int] == dj[di.len() as int]);
        } else {
            assert(b[pre.len() as int + dj.len() as int] == post[0]);
            assert(a[pre.len() as int + dj.len() as int] == di[dj.len() as int]);
        }
    }
}

pub open spec fn is_digit_char(c: char) -> bool {
    '0' <= c <= '9'
}

proof fn lemma_decimal_digits(n: nat)
    ensures
        forall|k: int| 0 <= k < decimal(n).len() ==> is_digit_char(#[trigger] decimal(n)[k]),
    decreases n,
{
    if n >= 10 {
        lemma_decimal_digits(n / 10);
        assert forall|k: int| 0 <= k < decimal(n).len() implies is_digit_char(#[trigger] decimal(n)[k]) by {
            if k < decimal(n).len() - 1 {
                assert(decimal(n)[k] == decimal(n / 10)[k]);
            }
        }
    }
}

} // verus!
