//! The format-string front end of the logging macros: splits a call's
//! tokens into the format literal and `key = value` arguments, scans the
//! literal into text runs and `{key}` placeholders, and generates the
//! formatter calls the macros splice into their expansion.

use vstd::prelude::*;

use crate::text::{
    chars_of, debug_quote, debug_quoted, decimal, push_char, push_decimal, same_text,
};
use vstd::string::StringExecFns;

verus! {

/// Whether a punctuation token is immediately followed by another one.
#[derive(Clone, Copy, Debug, PartialEq, Eq, Structural)]
pub enum Spacing {
    Alone,
    Joint,
}

/// The bracket kind of a group token.
#[derive(Clone, Copy, Debug, PartialEq, Eq, Structural)]
pub enum Delimiter {
    Parenthesis,
    Brace,
    Bracket,
    Invisible,
}

/// One token of a macro invocation. Identifiers and literals carry their
/// source text; a group carries its delimiter and the source text of the
/// tokens inside it.
#[derive(Debug)]
pub enum TokenTree {
    Ident(String),
    Punct(char, Spacing),
    Literal(String),
    Group(Delimiter, String),
}

/// A token as plain text.
pub enum TokenSpec {
    Ident(Seq<char>),
    Punct(char, Spacing),
    Literal(Seq<char>),
    Group(Delimiter, Seq<char>),
}

pub open spec fn token_view(t: TokenTree) -> TokenSpec {
    match t {
        TokenTree::Ident(s) => TokenSpec::Ident(s@),
        TokenTree::Punct(c, sp) => TokenSpec::Punct(c, sp),
        TokenTree::Literal(s) => TokenSpec::Literal(s@),
        TokenTree::Group(d, s) => TokenSpec::Group(d, s@),
    }
}

pub open spec fn tokens_view(ts: Seq<TokenTree>) -> Seq<TokenSpec> {
    ts.map_values(|t: TokenTree| token_view(t))
}

pub open spec fn open_text(d: Delimiter) -> Seq<char> {
    match d {
        Delimiter::Parenthesis => seq!['('],
        Delimiter::Brace => seq!['{'],
        Delimiter::Bracket => seq!['['],
        Delimiter::Invisible => Seq::empty(),
    }
}

pub open spec fn close_text(d: Delimiter) -> Seq<char> {
    match d {
        Delimiter::Parenthesis => seq![')'],
        Delimiter::Brace => seq!['}'],
        Delimiter::Bracket => seq![']'],
        Delimiter::Invisible => Seq::empty(),
    }
}

/// The source text of one token.
pub open spec fn token_text(t: TokenTree) -> Seq<char> {
    match t {
        TokenTree::Ident(s) => s@,
        TokenTree::Punct(c, _) => seq![c],
        TokenTree::Literal(s) => s@,
        TokenTree::Group(d, s) => open_text(d) + s@ + close_text(d),
    }
}

fn push_delimiter(s: &mut String, d: Delimiter, open: bool)
    ensures
        final(s)@ == old(s)@ + if open {
            open_text(d)
        } else {
            close_text(d)
        },
{
    let ghost s0 = s@;
    match d {
        Delimiter::Parenthesis => push_char(s, if open { '(' } else { ')' }),
        Delimiter::Brace => push_char(s, if open { '{' } else { '}' }),
        Delimiter::Bracket => push_char(s, if open { '[' } else { ']' }),
        Delimiter::Invisible => {},
    }
    proof {
        assert(s@ =~= s0 + if open {
            open_text(d)
        } else {
            close_text(d)
        });
    }
}

/// Renders a run of tokens as source: tokens are separated by one space,
/// except after a joint punctuation mark.
pub open spec fn render(ts: Seq<TokenTree>) -> Seq<char>
    decreases ts.len(),
{
    if ts.len() == 0 {
        Seq::empty()
    } else if ts.len() == 1 {
        token_text(ts[0])
    } else {
        render(ts.drop_last()) + (if ts[ts.len() - 2] matches TokenTree::Punct(_, Spacing::Joint) {
            Seq::<char>::empty()
        } else {
            seq![' ']
        }) + token_text(ts.last())
    }
}

pub(crate) fn push_token_text(s: &mut String, t: &TokenTree)
    ensures
        final(s)@ == old(s)@ + token_text(*t),
{
    match t {
        TokenTree::Ident(x) => s.append(x.as_str()),
        TokenTree::Punct(c, _) => push_char(s, *c),
        TokenTree::Literal(x) => s.append(x.as_str()),
        TokenTree::Group(d, x) => {
            let ghost s0 = s@;
            push_delimiter(s, *d, true);
            s.append(x.as_str());
            push_delimiter(s, *d, false);
            proof {
                assert(s@ =~= s0 + token_text(*t));
            }
        },
    }
}

/// Appends the rendering of `ts[start..end]`.
pub fn push_rendered(s: &mut String, ts: &[TokenTree], start: usize, end: usize)
    requires
        start <= end <= ts@.len(),
    ensures
        final(s)@ == old(s)@ + render(ts@.subrange(start as int, end as int)),
{
    let ghost s0 = s@;
    let mut i = start;
    while i < end
        invariant
            start <= i <= end,
            end <= ts@.len(),
            s@ == s0 + render(ts@.subrange(start as int, i as int)),
        decreases end - i,
    {
        let ghost before = ts@.subrange(start as int, i as int);
        let ghost after = ts@.subrange(start as int, i + 1);
        proof {
            assert(after.drop_last() =~= before);
        }
        if i > start {
            match &ts[i - 1] {
                TokenTree::Punct(_, Spacing::Joint) => {},
                _ => push_char(s, ' '),
            }
        }
        push_token_text(s, &ts[i]);
        proof {
            if i == start {
                assert(before =~= Seq::<TokenTree>::empty());
            } else {
                assert(after[after.len() - 2] == ts@[i - 1]);
            }
            assert(s@ =~= s0 + render(after));
        }
        i = i + 1;
    }
}

/// The source text of a run of tokens, with the spacing `render` gives it
/// (joint punctuation such as `->` and `::` stays together).
pub fn render_tokens(ts: &[TokenTree]) -> (r: String)
    ensures
        r@ == render(ts@),
{
    let mut s = String::new();
    push_rendered(&mut s, ts, 0, ts.len());
    proof {
        assert(ts@.subrange(0, ts@.len() as int) =~= ts@);
    }
    s
}

// ---------------------------------------------------------------------------
// `key = value` arguments.
// ---------------------------------------------------------------------------

/// Outcome of scanning for the `key` half of a `key = value` argument.
pub enum KeyResult {
    /// A key terminated by `=`.
    Key(String),
    /// The argument list ended cleanly (nothing was consumed).
    End,
    /// Tokens were consumed but no `=` followed them.
    Malformed(String),
}

pub enum KeySpec {
    Key(Seq<char>),
    End,
    Malformed(Seq<char>),
}

pub open spec fn key_view(k: KeyResult) -> KeySpec {
    match k {
        KeyResult::Key(s) => KeySpec::Key(s@),
        KeyResult::End => KeySpec::End,
        KeyResult::Malformed(s) => KeySpec::Malformed(s@),
    }
}

/// Scans tokens from `p`, accumulating their text, until an `=` ends the key.
/// Any other punctuation, or the end of input after some text, makes the
/// argument malformed. Returns the outcome and the next position.
pub open spec fn key_from(ts: Seq<TokenTree>, p: int, acc: Seq<char>) -> (KeySpec, int)
    decreases ts.len() - p,
{
    if p < 0 || p >= ts.len() {
        if acc.len() == 0 {
            (KeySpec::End, p)
        } else {
            (KeySpec::Malformed(acc), p)
        }
    } else {
        match ts[p] {
            TokenTree::Punct(c, _) => if c == '=' {
                (KeySpec::Key(acc), p + 1)
            } else {
                (KeySpec::Malformed(acc.push(c)), p + 1)
            },
            other => key_from(ts, p + 1, acc + token_text(other)),
        }
    }
}

pub proof fn lemma_key_from_advances(ts: Seq<TokenTree>, p: int, acc: Seq<char>)
    requires
        0 <= p,
    ensures
        key_from(ts, p, acc).1 >= p,
        key_from(ts, p, acc).1 <= if p > ts.len() {
            p
        } else {
            ts.len() as int
        },
        key_from(ts, p, acc).0 is Key ==> key_from(ts, p, acc).1 > p,
    decreases ts.len() - p,
{
    if p < ts.len() {
        match ts[p] {
            TokenTree::Punct(_, _) => {},
            other => lemma_key_from_advances(ts, p + 1, acc + token_text(other)),
        }
    }
}

/// Parses a key, consuming tokens up to and including the `=`.
fn parse_key(ts: &[TokenTree], pos: usize) -> (r: (KeyResult, usize))
    requires
        pos <= ts@.len(),
    ensures
        (key_view(r.0), r.1 as int) == key_from(ts@, pos as int, Seq::empty()),
{
    let mut key = String::new();
    let mut p = pos;
    proof {
        assert(key@ =~= Seq::<char>::empty());
    }
    while p < ts.len()
        invariant
            pos <= p <= ts@.len(),
            key_from(ts@, p as int, key@) == key_from(ts@, pos as int, Seq::empty()),
        decreases ts@.len() - p,
    {
        match &ts[p] {
            TokenTree::Punct(c, _) => {
                if *c == '=' {
                    return (KeyResult::Key(key), p + 1);
                }
                push_char(&mut key, *c);
                return (KeyResult::Malformed(key), p + 1);
            },
            t => {
                push_token_text(&mut key, t);
            },
        }
        p = p + 1;
    }
    if key.as_str().is_empty() {
        (KeyResult::End, p)
    } else {
        (KeyResult::Malformed(key), p)
    }
}

/// Finds where a value expression ends: at the first `,` outside any
/// generic argument list, or at the end of input. `<` opens a generic list
/// when a list is already open, when it follows `::`, or when it starts the
/// value; `>` closes one unless it is the tail of `->` or `=>`.
pub open spec fn value_end(
    ts: Seq<TokenTree>,
    start: int,
    p: int,
    depth: nat,
    colon_run: nat,
    prev: Option<(char, Spacing)>,
) -> int
    decreases ts.len() - p,
{
    if p < 0 || p >= ts.len() {
        ts.len() as int
    } else {
        match ts[p] {
            TokenTree::Punct(c, sp) => if c == ',' && depth == 0 {
                p
            } else {
                let d: nat = if c == '<' && (depth > 0 || colon_run >= 2 || p == start) {
                    depth + 1
                } else if c == '>' && depth > 0 && !(prev matches Some((pc, ps)) && (pc == '-'
                    || pc == '=') && ps == Spacing::Joint) {
                    (depth - 1) as nat
                } else {
                    depth
                };
                value_end(
                    ts,
                    start,
                    p + 1,
                    d,
                    if c == ':' {
                        colon_run + 1
                    } else {
                        0
                    },
                    Some((c, sp)),
                )
            },
            _ => value_end(ts, start, p + 1, depth, 0, None),
        }
    }
}

pub proof fn lemma_value_end_bounds(
    ts: Seq<TokenTree>,
    start: int,
    p: int,
    depth: nat,
    colon_run: nat,
    prev: Option<(char, Spacing)>,
)
    requires
        0 <= p <= ts.len(),
    ensures
        p <= value_end(ts, start, p, depth, colon_run, prev) <= ts.len(),
        value_end(ts, start, p, depth, colon_run, prev) < ts.len() ==> ts[value_end(
            ts,
            start,
            p,
            depth,
            colon_run,
            prev,
        )] matches TokenTree::Punct(',', _),
    decreases ts.len() - p,
{
    if p < ts.len() {
        match ts[p] {
            TokenTree::Punct(c, sp) => if c == ',' && depth == 0 {
            } else {
                let d: nat = if c == '<' && (depth > 0 || colon_run >= 2 || p == start) {
                    depth + 1
                } else if c == '>' && depth > 0 && !(prev matches Some((pc, ps)) && (pc == '-'
                    || pc == '=') && ps == Spacing::Joint) {
                    (depth - 1) as nat
                } else {
                    depth
                };
                lemma_value_end_bounds(
                    ts,
                    start,
                    p + 1,
                    d,
                    if c == ':' {
                        colon_run + 1
                    } else {
                        0
                    },
                    Some((c, sp)),
                );
            },
            _ => lemma_value_end_bounds(ts, start, p + 1, depth, 0, None),
        }
    }
}

/// Returns the end of the value expression that starts at `start`.
fn parse_value(ts: &[TokenTree], start: usize) -> (end: usize)
    requires
        start <= ts@.len(),
    ensures
        end == value_end(ts@, start as int, start as int, 0, 0, None),
        start <= end <= ts@.len(),
{
    proof {
        lemma_value_end_bounds(ts@, start as int, start as int, 0, 0, None);
    }
    let mut depth: usize = 0;
    let mut colon_run: usize = 0;
    let mut prev: Option<(char, Spacing)> = None;
    let mut p = start;
    while p < ts.len()
        invariant
            start <= p <= ts@.len(),
            depth <= p - start,
            colon_run <= p - start,
            value_end(ts@, start as int, p as int, depth as nat, colon_run as nat, prev)
                == value_end(ts@, start as int, start as int, 0, 0, None),
        decreases ts@.len() - p,
    {
        match &ts[p] {
            TokenTree::Punct(c, sp) => {
                let c = *c;
                if c == ',' && depth == 0 {
                    return p;
                }
                if c == '<' && (depth > 0 || colon_run >= 2 || p == start) {
                    depth = depth + 1;
                } else if c == '>' && depth > 0 {
                    let closes = match prev {
                        Some((pc, ps)) => !((pc == '-' || pc == '=') && ps == Spacing::Joint),
                        None => true,
                    };
                    if closes {
                        depth = depth - 1;
                    }
                }
                colon_run = if c == ':' {
                    colon_run + 1
                } else {
                    0
                };
                prev = Some((c, *sp));
            },
            _ => {
                colon_run = 0;
                prev = None;
            },
        }
        p = p + 1;
    }
    p
}


/// One parsed `key = value` argument: the key's text and the half-open
/// token range of its value expression.
pub struct KeyValue {
    pub key: String,
    pub start: usize,
    pub end: usize,
}

pub struct KvSpec {
    pub key: Seq<char>,
    pub start: int,
    pub end: int,
}

pub open spec fn kv_view(kv: KeyValue) -> KvSpec {
    KvSpec { key: kv.key@, start: kv.start as int, end: kv.end as int }
}

pub open spec fn kvs_view(kvs: Seq<KeyValue>) -> Seq<KvSpec> {
    kvs.map_values(|kv: KeyValue| kv_view(kv))
}

/// `compile_error!(<quoted message>);`
pub open spec fn error_call(message: Seq<char>) -> Seq<char> {
    "compile_error!("@ + debug_quoted(message) + ");"@
}

pub open spec fn expected_comma_error() -> Seq<char> {
    "compile_error!(\"Expected ','\");"@
}

pub open spec fn malformed_message(text: Seq<char>) -> Seq<char> {
    "expected `key = value` after the format string, found `"@ + text
        + "`. Logging macros do not capture bindings implicitly -- name the field, as in `key = "@
        + text + "`."@
}

pub open spec fn duplicate_message(key: Seq<char>) -> Seq<char> {
    "Duplicate key "@ + key
}

pub open spec fn has_key(kvs: Seq<KvSpec>, key: Seq<char>) -> bool {
    exists|i: int| 0 <= i < kvs.len() && #[trigger] kvs[i].key == key
}

/// Parses `key = value` arguments from `p` on, after the leading comma.
pub open spec fn kv_loop(ts: Seq<TokenTree>, p: int, acc: Seq<KvSpec>) -> Result<
    Seq<KvSpec>,
    Seq<char>,
>
    decreases ts.len() - p,
{
    if p < 0 || p > ts.len() {
        Ok(acc)
    } else {
        let (k, q) = key_from(ts, p, Seq::empty());
        match k {
            KeySpec::End => Ok(acc),
            KeySpec::Malformed(text) => Err(error_call(malformed_message(text))),
            KeySpec::Key(key) => {
                proof {
                    lemma_key_from_advances(ts, p, Seq::empty());
                    lemma_value_end_bounds(ts, q, q, 0, 0, None);
                }
                let e = value_end(ts, q, q, 0, 0, None);
                let next = if e < ts.len() {
                    e + 1
                } else {
                    ts.len() as int
                };
                if has_key(acc, key) {
                    Err(error_call(duplicate_message(key)))
                } else {
                    kv_loop(ts, next, acc.push(KvSpec { key, start: q, end: e }))
                }
            },
        }
    }
}

/// The argument list after the format string: empty, or a comma followed by
/// `key = value` pairs with distinct keys.
pub open spec fn kvs_from(ts: Seq<TokenTree>, p: int) -> Result<Seq<KvSpec>, Seq<char>> {
    if p >= ts.len() {
        Ok(Seq::empty())
    } else if ts[p] matches TokenTree::Punct(',', _) {
        kv_loop(ts, p + 1, Seq::empty())
    } else {
        Err(expected_comma_error())
    }
}

pub(crate) fn error_call_string(message: &str) -> (r: String)
    ensures
        r@ == error_call(message@),
{
    let mut out = String::from_str("compile_error!(");
    let quoted = debug_quote(message);
    out.append(quoted.as_str());
    out.append(");");
    out
}

/// The index of the first argument named `key`, from `j` on.
pub open spec fn key_index_from(kvs: Seq<KvSpec>, key: Seq<char>, j: int) -> Option<int>
    decreases kvs.len() - j,
{
    if j < 0 || j >= kvs.len() {
        None
    } else if kvs[j].key == key {
        Some(j)
    } else {
        key_index_from(kvs, key, j + 1)
    }
}

/// The index of the first argument named `key`.
pub open spec fn key_index(kvs: Seq<KvSpec>, key: Seq<char>) -> Option<int> {
    key_index_from(kvs, key, 0)
}

pub proof fn lemma_key_index_from(kvs: Seq<KvSpec>, key: Seq<char>, j: int)
    requires
        0 <= j,
    ensures
        key_index_from(kvs, key, j) matches Some(i) ==> j <= i < kvs.len() && kvs[i].key == key,
        key_index_from(kvs, key, j) is None ==> forall|m: int|
            j <= m < kvs.len() ==> kvs[m].key != key,
    decreases kvs.len() - j,
{
    if j < kvs.len() && kvs[j].key != key {
        lemma_key_index_from(kvs, key, j + 1);
    }
}

pub(crate) fn find_key(kvs: &Vec<KeyValue>, key: &str) -> (r: Option<usize>)
    ensures
        match r {
            Some(i) => i < kvs@.len() && kvs@[i as int].key@ == key@ && forall|j: int|
                0 <= j < i ==> kvs@[j].key@ != key@,
            None => forall|j: int| 0 <= j < kvs@.len() ==> kvs@[j].key@ != key@,
        },
        match r {
            Some(i) => key_index(kvs_view(kvs@), key@) == Some(i as int),
            None => key_index(kvs_view(kvs@), key@) is None,
        },
{
    let ghost kv = kvs_view(kvs@);
    let mut i: usize = 0;
    while i < kvs.len()
        invariant
            i <= kvs@.len(),
            kv == kvs_view(kvs@),
            forall|j: int| 0 <= j < i ==> kvs@[j].key@ != key@,
            key_index_from(kv, key@, i as int) == key_index(kv, key@),
        decreases kvs@.len() - i,
    {
        proof {
            assert(kv[i as int] == kv_view(kvs@[i as int]));
        }
        if same_text(kvs[i].key.as_str(), key) {
            return Some(i);
        }
        i = i + 1;
    }
    None
}

/// Builds the ordered list of `key = value` arguments that follows the
/// format string at `pos`.
pub(crate) fn build_kvs(ts: &[TokenTree], pos: usize) -> (r: Result<Vec<KeyValue>, String>)
    requires
        pos <= ts@.len(),
    ensures
        match r {
            Ok(kvs) => kvs_from(ts@, pos as int) == Ok::<Seq<KvSpec>, Seq<char>>(kvs_view(kvs@))
                && forall|j: int|
                0 <= j < kvs@.len() ==> #[trigger] kvs@[j].start <= kvs@[j].end <= ts@.len(),
            Err(e) => kvs_from(ts@, pos as int) == Err::<Seq<KvSpec>, Seq<char>>(e@),
        },
{
    let mut kvs: Vec<KeyValue> = Vec::new();
    if pos >= ts.len() {
        proof {
            assert(kvs_view(kvs@) =~= Seq::<KvSpec>::empty());
        }
        return Ok(kvs);
    }
    match &ts[pos] {
        TokenTree::Punct(c, _) => {
            if *c != ',' {
                return Err(String::from_str("compile_error!(\"Expected ','\");"));
            }
        },
        _ => {
            return Err(String::from_str("compile_error!(\"Expected ','\");"));
        },
    }
    let mut p = pos + 1;
    proof {
        assert(kvs_view(kvs@) =~= Seq::<KvSpec>::empty());
    }
    loop
        invariant
            pos + 1 <= p <= ts@.len(),
            kv_loop(ts@, p as int, kvs_view(kvs@)) == kvs_from(ts@, pos as int),
            forall|j: int| 0 <= j < kvs@.len() ==> #[trigger] kvs@[j].start <= kvs@[j].end <= ts@.len(),
        decreases ts@.len() - p,
    {
        proof {
            lemma_key_from_advances(ts@, p as int, Seq::empty());
        }
        let (k, q) = parse_key(ts, p);
        match k {
            KeyResult::End => {
                return Ok(kvs);
            },
            KeyResult::Malformed(text) => {
                let mut message = String::from_str(
                    "expected `key = value` after the format string, found `",
                );
                message.append(text.as_str());
                message.append(
                    "`. Logging macros do not capture bindings implicitly -- name the field, as in `key = ",
                );
                message.append(text.as_str());
                message.append("`.");
                proof {
                    assert(message@ =~= malformed_message(text@));
                }
                return Err(error_call_string(message.as_str()));
            },
            KeyResult::Key(key) => {
                let e = parse_value(ts, q);
                let next = if e < ts.len() {
                    e + 1
                } else {
                    ts.len()
                };
                match find_key(&kvs, key.as_str()) {
                    Some(i) => {
                        proof {
                            assert(kvs_view(kvs@)[i as int].key == key@);
                        }
                        let mut message = String::from_str("Duplicate key ");
                        message.append(key.as_str());
                        return Err(error_call_string(message.as_str()));
                    },
                    None => {
                        proof {
                            assert(!has_key(kvs_view(kvs@), key@)) by {
                                assert forall|j: int| 0 <= j < kvs_view(kvs@).len() implies #[trigger] kvs_view(kvs@)[j].key != key@ by {
                                    assert(kvs_view(kvs@)[j] == kv_view(kvs@[j]));
                                }
                            }
                        }
                        let ghost before = kvs_view(kvs@);
                        kvs.push(KeyValue { key, start: q, end: e });
                        proof {
                            assert(kvs_view(kvs@) =~= before.push(KvSpec { key: key@, start: q as int, end: e as int }));
                        }
                        p = next;
                    },
                }
            },
        }
    }
}


// ---------------------------------------------------------------------------
// Format strings.
// ---------------------------------------------------------------------------

/// One piece of a scanned format string.
pub enum Segment {
    /// Static text, still in source form (escape sequences spelled out).
    Literal(String),
    /// The key of a `{key}` placeholder.
    Placeholder(String),
}

pub enum SegSpec {
    Lit(Seq<char>),
    Ph(Seq<char>),
}

pub open spec fn seg_view(s: Segment) -> SegSpec {
    match s {
        Segment::Literal(t) => SegSpec::Lit(t@),
        Segment::Placeholder(k) => SegSpec::Ph(k@),
    }
}

pub open spec fn segs_view(s: Seq<Segment>) -> Seq<SegSpec> {
    s.map_values(|x: Segment| seg_view(x))
}

pub open spec fn flush(lit: Seq<char>, segs: Seq<SegSpec>) -> Seq<SegSpec> {
    if lit.len() > 0 {
        segs.push(SegSpec::Lit(lit))
    } else {
        segs
    }
}

/// The position just after the first `}` at or after `j`, or the end.
pub open spec fn brace_end(cs: Seq<char>, j: int) -> int
    decreases cs.len() - j,
{
    if j < 0 || j >= cs.len() {
        cs.len() as int
    } else if cs[j] == '}' {
        j + 1
    } else {
        brace_end(cs, j + 1)
    }
}

/// The position of the first `}` at or after `j`.
pub open spec fn close_index(cs: Seq<char>, j: int) -> Option<int>
    decreases cs.len() - j,
{
    if j < 0 || j >= cs.len() {
        None
    } else if cs[j] == '}' {
        Some(j)
    } else {
        close_index(cs, j + 1)
    }
}

pub proof fn lemma_brace_end(cs: Seq<char>, j: int)
    requires
        0 <= j <= cs.len(),
    ensures
        j <= brace_end(cs, j) <= cs.len(),
        j < cs.len() ==> j < brace_end(cs, j),
    decreases cs.len() - j,
{
    if j < cs.len() && cs[j] != '}' {
        lemma_brace_end(cs, j + 1);
    }
}

pub proof fn lemma_close_index(cs: Seq<char>, j: int)
    requires
        0 <= j <= cs.len(),
    ensures
        close_index(cs, j) matches Some(k) ==> j <= k < cs.len() && cs[k] == '}' && forall|m: int|
            j <= m < k ==> cs[m] != '}',
        close_index(cs, j) is None ==> forall|m: int| j <= m < cs.len() ==> cs[m] != '}',
    decreases cs.len() - j,
{
    if j < cs.len() && cs[j] != '}' {
        lemma_close_index(cs, j + 1);
    }
}

/// Splits the source form of a format string into literal runs and
/// placeholders. Escape sequences are copied verbatim, including the braces
/// of `\u{...}`; `{{` and `}}` collapse to one brace; `{key}` is a
/// placeholder. `None` when a placeholder is never closed.
pub open spec fn scan_from(cs: Seq<char>, i: int, lit: Seq<char>, segs: Seq<SegSpec>) -> Option<
    Seq<SegSpec>,
>
    decreases cs.len() - i,
{
    if i < 0 || i >= cs.len() {
        Some(flush(lit, segs))
    } else if cs[i] == '\\' {
        if i + 1 >= cs.len() {
            Some(flush(lit.push('\\'), segs))
        } else {
            let e = cs[i + 1];
            let lit2 = lit.push('\\').push(e);
            if e == 'u' && i + 2 < cs.len() && cs[i + 2] == '{' {
                proof {
                    lemma_brace_end(cs, i + 2);
                }
                let j = brace_end(cs, i + 2);
                scan_from(cs, j, lit2 + cs.subrange(i + 2, j), segs)
            } else {
                scan_from(cs, i + 2, lit2, segs)
            }
        }
    } else if cs[i] == '{' && i + 1 < cs.len() && cs[i + 1] == '{' {
        scan_from(cs, i + 2, lit.push('{'), segs)
    } else if cs[i] == '}' && i + 1 < cs.len() && cs[i + 1] == '}' {
        scan_from(cs, i + 2, lit.push('}'), segs)
    } else if cs[i] == '{' {
        proof {
            lemma_close_index(cs, i + 1);
        }
        match close_index(cs, i + 1) {
            None => None,
            Some(k) => scan_from(
                cs,
                k + 1,
                Seq::empty(),
                flush(lit, segs).push(SegSpec::Ph(cs.subrange(i + 1, k))),
            ),
        }
    } else {
        scan_from(cs, i + 1, lit.push(cs[i]), segs)
    }
}

pub open spec fn scan(cs: Seq<char>) -> Option<Seq<SegSpec>> {
    scan_from(cs, 0, Seq::empty(), Seq::empty())
}

pub open spec fn unclosed_brace_error() -> Seq<char> {
    "compile_error!(\"Expected '}'\");"@
}

fn push_segment(segs: &mut Vec<Segment>, lit: String)
    ensures
        segs_view(final(segs)@) == flush(lit@, segs_view(old(segs)@)),
{
    let ghost before = segs_view(segs@);
    if !lit.as_str().is_empty() {
        segs.push(Segment::Literal(lit));
        proof {
            assert(segs_view(segs@) =~= before.push(SegSpec::Lit(lit@)));
        }
    }
}

/// Scans a format string (in source form) into segments.
pub fn scan_format_string(format_string: &str) -> (r: Result<Vec<Segment>, String>)
    ensures
        match r {
            Ok(segs) => scan(format_string@) == Some(segs_view(segs@)),
            Err(e) => scan(format_string@) is None && e@ == unclosed_brace_error(),
        },
{
    let chars = chars_of(format_string);
    let ghost cs = chars@;
    let n = chars.len();
    let mut segments: Vec<Segment> = Vec::new();
    let mut literal = String::new();
    let mut i: usize = 0;
    proof {
        assert(segs_view(segments@) =~= Seq::<SegSpec>::empty());
        assert(literal@ =~= Seq::<char>::empty());
    }
    while i < n
        invariant
            chars@ == cs,
            cs == format_string@,
            n == cs.len(),
            i <= n,
            scan_from(cs, i as int, literal@, segs_view(segments@)) == scan(cs),
        decreases n - i,
    {
        let c = chars[i];
        if c == '\\' {
            push_char(&mut literal, '\\');
            i = i + 1;
            if i < n {
                let escaped = chars[i];
                push_char(&mut literal, escaped);
                i = i + 1;
                if escaped == 'u' && i < n && chars[i] == '{' {
                    let ghost start = i as int;
                    let ghost lit0 = literal@;
                    proof {
                        lemma_brace_end(cs, start);
                        assert(literal@ =~= lit0 + cs.subrange(start, i as int));
                    }
                    let mut done = false;
                    while i < n && !done
                        invariant
                            chars@ == cs,
                            n == cs.len(),
                            0 <= start <= i <= n,
                            start < n,
                            brace_end(cs, start) <= n,
                            !done ==> brace_end(cs, i as int) == brace_end(cs, start),
                            done ==> i == brace_end(cs, start),
                            literal@ == lit0 + cs.subrange(start, i as int),
                        decreases n - i,
                    {
                        let d = chars[i];
                        let ghost prev = literal@;
                        push_char(&mut literal, d);
                        proof {
                            assert(d == cs[i as int]);
                            assert(cs.subrange(start, i + 1) =~= cs.subrange(start, i as int).push(d));
                            assert(prev.push(d) =~= lit0 + cs.subrange(start, i + 1));
                        }
                        i = i + 1;
                        if d == '}' {
                            done = true;
                        }
                    }
                }
            }
        } else if c == '{' && i + 1 < n && chars[i + 1] == '{' {
            push_char(&mut literal, '{');
            i = i + 2;
        } else if c == '}' && i + 1 < n && chars[i + 1] == '}' {
            push_char(&mut literal, '}');
            i = i + 2;
        } else if c == '{' {
            proof {
                lemma_close_index(cs, i + 1);
            }
            let lit = literal;
            push_segment(&mut segments, lit);
            literal = String::new();
            i = i + 1;
            let open = i;
            let mut key = String::new();
            let mut closed = false;
            proof {
                assert(key@ =~= cs.subrange(open as int, open as int));
            }
            while i < n && !closed
                invariant
                    chars@ == cs,
                    n == cs.len(),
                    open <= i <= n,
                    !closed ==> key@ == cs.subrange(open as int, i as int),
                    !closed ==> forall|m: int| open <= m < i ==> cs[m] != '}',
                    closed ==> i >= open + 1 && key@ == cs.subrange(open as int, i - 1) && cs[i - 1]
                        == '}' && forall|m: int| open <= m < i - 1 ==> cs[m] != '}',
                decreases n - i,
            {
                let d = chars[i];
                i = i + 1;
                if d == '}' {
                    closed = true;
                } else {
                    let ghost prev = key@;
                    push_char(&mut key, d);
                    proof {
                        assert(prev.push(d) =~= cs.subrange(open as int, i as int));
                    }
                }
            }
            if !closed {
                return Err(String::from_str("compile_error!(\"Expected '}'\");"));
            }
            let ghost before = segs_view(segments@);
            segments.push(Segment::Placeholder(key));
            proof {
                assert(segs_view(segments@) =~= before.push(SegSpec::Ph(key@)));
                assert(literal@ =~= Seq::<char>::empty());
            }
        } else {
            push_char(&mut literal, c);
            i = i + 1;
        }
    }
    push_segment(&mut segments, literal);
    Ok(segments)
}

} // verus!
