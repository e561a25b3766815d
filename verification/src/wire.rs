//! The `logwise_v1` wire format: a complete, versioned, little-endian frame
//! per event, written into a caller-owned buffer.

use vstd::bytes::*;
use vstd::prelude::*;
use vstd::string::StringSliceAdditionalSpecFns;
use vstd::slice::slice_subrange;
use vstd::utf8::*;

use crate::model::{
    class_code_spec, detail_code_spec, kind_code_spec, privacy_code_spec, severity_code_spec,
    ContextToken, EventRef, FieldRef, Location, Metadata, Privacy, ValueRef,
};
use crate::text::{boundary_at_most, char_boundary_at_most, lemma_boundary_at_most};

verus! {

/// Version of the wire layout.
pub const ABI_VERSION: u16 = 1;

/// The four-byte frame magic, `"LW1\0"`.
pub open spec fn magic_spec() -> Seq<u8> {
    seq![0x4Cu8, 0x57u8, 0x31u8, 0x00u8]
}

/// Host/test identity attached by the platform integration above the facade.
#[derive(Clone, Copy, Debug)]
pub struct Identity<'a> {
    pub worker: u64,
    pub test: Option<&'a str>,
}

impl<'a> Identity<'a> {
    /// The anonymous identity: worker zero, no test.
    pub fn anonymous() -> (r: Identity<'a>)
        ensures
            r.worker == 0,
            r.test is None,
    {
        Identity { worker: 0, test: None }
    }
}

/// A projected event plus transport-owned ordering and loss metadata.
#[derive(Clone, Copy)]
pub struct Envelope<'a> {
    pub event: EventRef<'a>,
    pub sequence: u64,
    pub dropped_before: u64,
    pub truncated_before: u64,
    pub omitted_fields: u32,
    pub links: &'a [ContextToken],
    pub identity: Identity<'a>,
}

#[derive(Clone, Copy, Debug, PartialEq, Eq, Structural)]
pub enum EncodeError {
    BufferTooSmall,
    SchemaStringTooLong,
    TooManyFields,
    TooManyLinks,
}

/// A complete versioned envelope borrowed from the caller's output buffer.
pub struct EncodedEnvelope<'a> {
    pub bytes: &'a [u8],
    pub truncated_values: u32,
}

/// Result returned by the reserved host import.
#[derive(Clone, Copy, Debug, PartialEq, Eq, Structural)]
pub enum HostStatus {
    Accepted,
    Unavailable,
    VersionMismatch,
    Dropped,
    HostError(i32),
}

// ---------------------------------------------------------------------------
// The layout, stated as an ordered list of pieces. Writing stops at the first
// piece that is a format error or that no longer fits the output buffer.
// ---------------------------------------------------------------------------

/// One unit of the frame: bytes to append (and whether they record a
/// truncated value), or a format error.
pub enum Piece {
    Emit(Seq<u8>, bool),
    Fail(EncodeError),
}

/// Bytes written so far and the number of truncated values among them.
pub struct EncState {
    pub bytes: Seq<u8>,
    pub truncated: nat,
}

pub open spec fn smin(a: int, b: int) -> int {
    if a <= b {
        a
    } else {
        b
    }
}

pub open spec fn step(r: Result<EncState, EncodeError>, p: Piece, cap: nat) -> Result<
    EncState,
    EncodeError,
> {
    match r {
        Err(e) => Err(e),
        Ok(st) => match p {
            Piece::Fail(e) => Err(e),
            Piece::Emit(b, t) => if st.bytes.len() + b.len() > cap {
                Err(EncodeError::BufferTooSmall)
            } else {
                Ok(
                    EncState {
                        bytes: st.bytes + b,
                        truncated: if t {
                            st.truncated + 1
                        } else {
                            st.truncated
                        },
                    },
                )
            },
        },
    }
}

/// Writes the pieces in order into a buffer of `cap` bytes.
pub open spec fn run(ps: Seq<Piece>, cap: nat) -> Result<EncState, EncodeError>
    decreases ps.len(),
{
    if ps.len() == 0 {
        Ok(EncState { bytes: Seq::empty(), truncated: 0 })
    } else {
        step(run(ps.drop_last(), cap), ps.last(), cap)
    }
}

pub open spec fn raw(b: Seq<u8>) -> Piece {
    Piece::Emit(b, false)
}

pub open spec fn p_u8(v: u8) -> Piece {
    raw(seq![v])
}

pub open spec fn p_u16(v: u16) -> Piece {
    raw(spec_u16_to_le_bytes(v))
}

pub open spec fn p_u32(v: u32) -> Piece {
    raw(spec_u32_to_le_bytes(v))
}

pub open spec fn p_u64(v: u64) -> Piece {
    raw(spec_u64_to_le_bytes(v))
}

/// A stable schema string: `u16` length then its bytes; longer than `u16`
/// is an error rather than a truncation.
pub open spec fn schema_pieces(s: Seq<u8>) -> Seq<Piece> {
    if s.len() > 0xffff {
        seq![Piece::Fail(EncodeError::SchemaStringTooLong)]
    } else {
        seq![p_u16(s.len() as u16), raw(s)]
    }
}

/// A dynamic string, cut to the largest character boundary within `limit`.
pub open spec fn dynamic_pieces(s: Seq<u8>, limit: int) -> Seq<Piece> {
    let l = boundary_at_most(s, smin(limit, s.len() as int));
    seq![Piece::Emit(spec_u16_to_le_bytes(l as u16), l != s.len()), raw(s.take(l))]
}

/// Formatted text: first rendered into the scratch buffer (cut at a
/// character boundary when it does not fit), then cut again to `limit`.
pub open spec fn formatted_piece(s: Seq<u8>, limit: int, scratch_len: int) -> Piece {
    let rendered = boundary_at_most(s, smin(scratch_len, s.len() as int));
    let l = boundary_at_most(s, smin(smin(rendered, limit), s.len() as int));
    Piece::Emit(spec_u16_to_le_bytes(l as u16) + s.take(l), rendered != s.len() || l != rendered)
}

pub open spec fn optional_schema_pieces(o: Option<&str>) -> Seq<Piece> {
    match o {
        Some(s) => seq![p_u8(1)] + schema_pieces(s.spec_bytes()),
        None => seq![p_u8(0)],
    }
}

pub open spec fn optional_dynamic_pieces(o: Option<&str>, limit: int) -> Seq<Piece> {
    match o {
        Some(s) => seq![p_u8(1)] + dynamic_pieces(s.spec_bytes(), limit),
        None => seq![p_u8(0)],
    }
}

/// A typed value: a one-byte tag followed by its payload.
pub open spec fn value_pieces(v: ValueRef, limit: int, scratch_len: int) -> Seq<Piece> {
    match v {
        ValueRef::Bool(b) => seq![
            p_u8(1),
            p_u8(
                if b {
                    1
                } else {
                    0
                },
            ),
        ],
        ValueRef::I64(x) => seq![p_u8(2), p_u64(x as u64)],
        ValueRef::U64(x) => seq![p_u8(3), p_u64(x)],
        ValueRef::F64Bits(x) => seq![p_u8(4), p_u64(x)],
        ValueRef::Str(s) => seq![p_u8(5)] + dynamic_pieces(s.spec_bytes(), limit),
        ValueRef::Debug(s) => seq![p_u8(6), formatted_piece(s.spec_bytes(), limit, scratch_len)],
        ValueRef::Display(s) => seq![p_u8(7), formatted_piece(s.spec_bytes(), limit, scratch_len)],
    }
}

pub open spec fn field_pieces(f: FieldRef, limit: int, scratch_len: int) -> Seq<Piece> {
    schema_pieces(f.metadata.name.spec_bytes()) + seq![
        p_u8(privacy_code_spec(f.metadata.privacy)),
        p_u8(detail_code_spec(f.metadata.detail)),
    ] + value_pieces(f.value, limit, scratch_len)
}

/// A field slot reaches the wire when it was evaluated and is not secret.
pub open spec fn is_retained(f: Option<FieldRef>) -> bool {
    f is Some && f.unwrap().metadata.privacy != Privacy::Secret
}

pub open spec fn retained_count(fs: Seq<Option<FieldRef>>) -> nat
    decreases fs.len(),
{
    if fs.len() == 0 {
        0
    } else {
        retained_count(fs.drop_last()) + if is_retained(fs.last()) {
            1nat
        } else {
            0nat
        }
    }
}

pub open spec fn fields_pieces(fs: Seq<Option<FieldRef>>, limit: int, scratch_len: int) -> Seq<
    Piece,
>
    decreases fs.len(),
{
    if fs.len() == 0 {
        Seq::empty()
    } else {
        fields_pieces(fs.drop_last(), limit, scratch_len) + if is_retained(fs.last()) {
            field_pieces(fs.last().unwrap(), limit, scratch_len)
        } else {
            Seq::empty()
        }
    }
}

pub open spec fn links_pieces(ls: Seq<ContextToken>) -> Seq<Piece>
    decreases ls.len(),
{
    if ls.len() == 0 {
        Seq::empty()
    } else {
        links_pieces(ls.drop_last()) + seq![p_u64(ls.last().id), p_u64(ls.last().flags)]
    }
}

pub open spec fn header_pieces(env: Envelope) -> Seq<Piece> {
    seq![
        p_u8(0x4C),
        p_u8(0x57),
        p_u8(0x31),
        p_u8(0x00),
        p_u16(ABI_VERSION),
        p_u16(0),
        p_u32(0),
        p_u64(env.sequence),
        p_u64(env.dropped_before),
        p_u64(env.truncated_before),
        p_u64(env.identity.worker),
        p_u64(env.event.context.id),
        p_u64(env.event.context.flags),
    ]
}

pub open spec fn link_count_pieces(n: nat) -> Seq<Piece> {
    if n > 0xffff {
        seq![Piece::Fail(EncodeError::TooManyLinks)]
    } else {
        seq![p_u16(n as u16)]
    }
}

pub open spec fn location_pieces(l: Option<Location>) -> Seq<Piece> {
    match l {
        Some(loc) => seq![p_u8(1)] + schema_pieces(loc.file.spec_bytes()) + seq![
            p_u32(loc.line),
            p_u32(loc.column),
        ],
        None => seq![p_u8(0)],
    }
}

pub open spec fn metadata_pieces(m: Metadata, test: Option<&str>, limit: int) -> Seq<Piece> {
    seq![
        p_u8(severity_code_spec(m.severity)),
        p_u8(class_code_spec(m.class)),
        p_u8(kind_code_spec(m.kind)),
    ] + schema_pieces(m.event_name.spec_bytes()) + schema_pieces(m.package.spec_bytes())
        + schema_pieces(m.target.spec_bytes()) + schema_pieces(m.module.spec_bytes())
        + optional_schema_pieces(m.domain) + optional_dynamic_pieces(test, limit)
        + location_pieces(m.location)
}

/// Declared fields that did not reach the wire (unevaluated or secret),
/// saturated to `u32`.
pub open spec fn implicit_omissions(declared: nat, retained: nat) -> u32 {
    let d: int = if declared >= retained {
        declared - retained
    } else {
        0
    };
    if d > u32::MAX {
        u32::MAX
    } else {
        d as u32
    }
}

pub open spec fn total_omitted(explicit: u32, implicit: u32) -> u32 {
    if explicit + implicit > u32::MAX {
        u32::MAX
    } else {
        (explicit + implicit) as u32
    }
}

pub open spec fn field_count_pieces(count: nat, omitted: u32) -> Seq<Piece> {
    (if count > 0xffff {
        seq![Piece::Fail(EncodeError::TooManyFields)]
    } else {
        Seq::empty()
    }) + seq![p_u32(omitted), p_u16(count as u16)]
}

pub open spec fn message_pieces(m: Option<&str>, limit: int, scratch_len: int) -> Seq<Piece> {
    match m {
        Some(s) => seq![p_u8(1), formatted_piece(s.spec_bytes(), limit, scratch_len)],
        None => seq![p_u8(0)],
    }
}

/// The effective per-value byte limit: the caller's limit, capped by the
/// `u16` length prefix.
pub open spec fn value_limit(max_value_bytes: usize) -> int {
    smin(max_value_bytes as int, 0xffff)
}

/// The whole frame, before the flags and length words are filled in.
pub open spec fn envelope_pieces(env: Envelope, max_value_bytes: usize, scratch_len: int) -> Seq<
    Piece,
> {
    let limit = value_limit(max_value_bytes);
    let fs = env.event.fields@;
    let count = retained_count(fs);
    let omitted = total_omitted(
        env.omitted_fields,
        implicit_omissions(env.event.metadata.fields@.len(), count),
    );
    header_pieces(env) + link_count_pieces(env.links@.len()) + links_pieces(env.links@)
        + metadata_pieces(*env.event.metadata, env.identity.test, limit) + field_count_pieces(
        count,
        omitted,
    ) + fields_pieces(fs, limit, scratch_len) + message_pieces(
        env.event.message,
        limit,
        scratch_len,
    )
}

/// Fills the flags word (bit 0: some value was truncated) and the total
/// frame length into the header.
pub open spec fn patch_header(b: Seq<u8>, truncated: bool) -> Seq<u8> {
    b.subrange(0, 6) + spec_u16_to_le_bytes(
        if truncated {
            1
        } else {
            0
        },
    ) + spec_u32_to_le_bytes(b.len() as u32) + b.subrange(12, b.len() as int)
}

/// What `encode_envelope` produces for an output buffer of `cap` bytes and a
/// scratch buffer of `scratch_len` bytes: the frame and the number of
/// truncated values, or the first error.
pub open spec fn encoding(env: Envelope, max_value_bytes: usize, cap: nat, scratch_len: nat) -> Result<
    (Seq<u8>, u32),
    EncodeError,
> {
    match run(envelope_pieces(env, max_value_bytes, scratch_len as int), cap) {
        Err(e) => Err(e),
        Ok(st) => if st.bytes.len() > u32::MAX {
            Err(EncodeError::BufferTooSmall)
        } else {
            Ok(
                (
                    patch_header(st.bytes, st.truncated != 0),
                    if st.truncated > u32::MAX {
                        u32::MAX
                    } else {
                        st.truncated as u32
                    },
                ),
            )
        },
    }
}

// ---------------------------------------------------------------------------
// The encoder.
// ---------------------------------------------------------------------------

/// Write cursor over the caller's buffer. Once a piece fails, later pieces
/// are ignored, so the first error is the one reported.
struct Encoder {
    position: usize,
    limit: usize,
    truncated_values: u32,
    failed: Option<EncodeError>,
    pieces: Ghost<Seq<Piece>>,
    truncated: Ghost<nat>,
}

impl Encoder {
    spec fn outcome(&self, out: Seq<u8>) -> Result<EncState, EncodeError> {
        match self.failed {
            Some(e) => Err(e),
            None => Ok(EncState { bytes: out.take(self.position as int), truncated: self.truncated@ }),
        }
    }

    #[verifier::opaque]
    spec fn wf(&self, out: Seq<u8>) -> bool {
        &&& self.position <= out.len()
        &&& run(self.pieces@, out.len()) == self.outcome(out)
        &&& self.truncated_values as int == smin(self.truncated@ as int, u32::MAX as int)
        &&& self.limit <= 0xffff
    }

    spec fn same_frame(&self, old_self: &Encoder) -> bool {
        &&& self.limit == old_self.limit
        &&& self.position >= old_self.position
        &&& (old_self.failed is Some ==> self.failed == old_self.failed)
    }

    /// Appends one piece of raw bytes.
    fn put(&mut self, out: &mut [u8], b: &[u8], trunc: bool)
        requires
            old(self).wf(old(out)@),
        ensures
            final(self).wf(final(out)@),
            final(self).same_frame(&*old(self)),
            final(out)@.len() == old(out)@.len(),
            final(self).pieces@ == old(self).pieces@.push(Piece::Emit(b@, trunc)),
            final(self).failed is None ==> final(self).position == old(self).position + b@.len(),
            final(self).same_frame(&*old(self)),
            final(self).failed is None ==> final(out)@.take(old(self).position as int) == old(out)@.take(
                old(self).position as int,
            ),
    {
        reveal(Encoder::wf);
        let ghost ps = self.pieces@;
        let ghost old_out = out@;
        let ghost p = Piece::Emit(b@, trunc);
        proof {
            assert(ps.push(p).drop_last() =~= ps);
        }
        if self.failed.is_some() {
            self.pieces = Ghost(ps.push(p));
            return;
        }
        let n = out.len();
        let pos = self.position;
        if b.len() > n - pos {
            self.failed = Some(EncodeError::BufferTooSmall);
            self.pieces = Ghost(ps.push(p));
            return;
        }
        let mut k: usize = 0;
        while k < b.len()
            invariant
                out@.len() == n,
                old_out.len() == n,
                k <= b@.len(),
                pos + b@.len() <= n,
                out@.take(pos + k) =~= old_out.take(pos as int) + b@.take(k as int),
            decreases b@.len() - k,
        {
            let ghost prev = out@;
            out[pos + k] = b[k];
            proof {
                assert(out@ == prev.update(pos + k, b@[k as int]));
                let lhs = out@.take(pos + k + 1);
                let rhs = old_out.take(pos as int) + b@.take(k + 1);
                let before = old_out.take(pos as int) + b@.take(k as int);
                assert(prev.take(pos + k as int) == before);
                assert(lhs.len() == rhs.len());
                assert forall|i: int| 0 <= i < lhs.len() implies lhs[i] == rhs[i] by {
                    if i < pos + k {
                        assert(prev.take(pos + k as int)[i] == before[i]);
                        if i < old_out.take(pos as int).len() {
                        } else {
                            assert(before[i] == b@[i - old_out.take(pos as int).len()]);
                        }
                    }
                }
                assert(lhs =~= rhs);
            }
            k = k + 1;
        }
        proof {
            assert(b@.take(b@.len() as int) =~= b@);
            assert(out@.take(pos as int) =~= out@.take(pos + b@.len()).take(pos as int));
        }
        self.position = pos + b.len();
        if trunc {
            self.truncated_values = self.truncated_values.saturating_add(1);
            self.truncated = Ghost(self.truncated@ + 1);
        }
        self.pieces = Ghost(ps.push(p));
    }

    /// Appends one piece made of two byte runs.
    fn put2(&mut self, out: &mut [u8], a: &[u8], b: &[u8], trunc: bool)
        requires
            old(self).wf(old(out)@),
        ensures
            final(self).wf(final(out)@),
            final(self).same_frame(&*old(self)),
            final(out)@.len() == old(out)@.len(),
            final(self).pieces@ == old(self).pieces@.push(Piece::Emit(a@ + b@, trunc)),
            final(self).failed is None ==> final(self).position == old(self).position + a@.len() + b@.len(),
            final(self).same_frame(&*old(self)),
            final(self).failed is None ==> final(out)@.take(old(self).position as int) == old(out)@.take(
                old(self).position as int,
            ),
    {
        reveal(Encoder::wf);
        let ghost ps = self.pieces@;
        let ghost old_out = out@;
        let ghost p = Piece::Emit(a@ + b@, trunc);
        proof {
            assert(ps.push(p).drop_last() =~= ps);
        }
        if self.failed.is_some() {
            self.pieces = Ghost(ps.push(p));
            return;
        }
        let n = out.len();
        let pos = self.position;
        if a.len() > n - pos || b.len() > n - pos - a.len() {
            self.failed = Some(EncodeError::BufferTooSmall);
            self.pieces = Ghost(ps.push(p));
            return;
        }
        let mut k: usize = 0;
        while k < a.len()
            invariant
                out@.len() == n,
                old_out.len() == n,
                k <= a@.len(),
                pos + a@.len() + b@.len() <= n,
                out@.take(pos + k) =~= old_out.take(pos as int) + a@.take(k as int),
            decreases a@.len() - k,
        {
            let ghost prev = out@;
            out[pos + k] = a[k];
            proof {
                assert(out@ == prev.update(pos + k, a@[k as int]));
                let lhs = out@.take(pos + k + 1);
                let rhs = old_out.take(pos as int) + a@.take(k + 1);
                let before = old_out.take(pos as int) + a@.take(k as int);
                assert(prev.take(pos + k as int) == before);
                assert(lhs.len() == rhs.len());
                assert forall|i: int| 0 <= i < lhs.len() implies lhs[i] == rhs[i] by {
                    if i < pos + k {
                        assert(prev.take(pos + k as int)[i] == before[i]);
                        if i < old_out.take(pos as int).len() {
                        } else {
                            assert(before[i] == a@[i - old_out.take(pos as int).len()]);
                        }
                    }
                }
                assert(lhs =~= rhs);
            }
            k = k + 1;
        }
        proof {
            assert(a@.take(a@.len() as int) =~= a@);
        }
        let mid = pos + a.len();
        let mut j: usize = 0;
        while j < b.len()
            invariant
                out@.len() == n,
                old_out.len() == n,
                j <= b@.len(),
                mid == pos + a@.len(),
                mid + b@.len() <= n,
                out@.take(mid + j) =~= old_out.take(pos as int) + a@ + b@.take(j as int),
            decreases b@.len() - j,
        {
            let ghost prev = out@;
            out[mid + j] = b[j];
            proof {
                assert(out@ == prev.update(mid + j, b@[j as int]));
                let lhs = out@.take(mid + j + 1);
                let rhs = old_out.take(pos as int) + a@ + b@.take(j + 1);
                let before = old_out.take(pos as int) + a@ + b@.take(j as int);
                assert(prev.take(mid + j as int) == before);
                assert(lhs.len() == rhs.len());
                assert forall|i: int| 0 <= i < lhs.len() implies lhs[i] == rhs[i] by {
                    if i < mid + j {
                        assert(prev.take(mid + j as int)[i] == before[i]);
                        if i < (old_out.take(pos as int) + a@).len() {
                        } else {
                            assert(before[i] == b@[i - (old_out.take(pos as int) + a@).len()]);
                        }
                    }
                }
                assert(lhs =~= rhs);
            }
            j = j + 1;
        }
        proof {
            assert(b@.take(b@.len() as int) =~= b@);
            assert(out@.take(pos as int) =~= out@.take(mid + b@.len()).take(pos as int));
            assert(old_out.take(pos as int) + a@ + b@ =~= old_out.take(pos as int) + (a@ + b@));
        }
        self.position = mid + b.len();
        if trunc {
            self.truncated_values = self.truncated_values.saturating_add(1);
            self.truncated = Ghost(self.truncated@ + 1);
        }
        self.pieces = Ghost(ps.push(p));
    }

    /// Records a format error.
    fn fail(&mut self, out: &[u8], e: EncodeError)
        requires
            old(self).wf(out@),
        ensures
            final(self).wf(out@),
            final(self).pieces@ == old(self).pieces@.push(Piece::Fail(e)),
            final(self).same_frame(&*old(self)),
            final(self).failed is Some,
    {
        reveal(Encoder::wf);
        let ghost ps = self.pieces@;
        proof {
            assert(ps.push(Piece::Fail(e)).drop_last() =~= ps);
        }
        if self.failed.is_none() {
            self.failed = Some(e);
        }
        self.pieces = Ghost(ps.push(Piece::Fail(e)));
    }
}


/// The postcondition shared by every encoder step: the frame stays well
/// formed and the step's pieces are appended.
#[verifier::opaque]
spec fn appended(
    new_self: &Encoder,
    old_self: &Encoder,
    new_out: Seq<u8>,
    old_out: Seq<u8>,
    added: Seq<Piece>,
) -> bool {
    &&& new_self.wf(new_out)
    &&& new_out.len() == old_out.len()
    &&& new_self.pieces@ == old_self.pieces@ + added
    &&& new_self.same_frame(old_self)
    &&& (new_self.failed is None ==> new_out.take(old_self.position as int) == old_out.take(
        old_self.position as int,
    ))
}

proof fn lemma_appended_refl(s0: &Encoder, o0: Seq<u8>)
    requires
        s0.wf(o0),
    ensures
        appended(s0, s0, o0, o0, Seq::empty()),
{
    reveal(appended);
    assert(s0.pieces@ + Seq::<Piece>::empty() =~= s0.pieces@);
}

proof fn lemma_push_is_concat(ps: Seq<Piece>, p: Piece)
    ensures
        ps.push(p) == ps + seq![p],
{
    assert(ps.push(p) =~= ps + seq![p]);
}

proof fn lemma_appended_trans(
    s0: &Encoder,
    s1: &Encoder,
    s2: &Encoder,
    o0: Seq<u8>,
    o1: Seq<u8>,
    o2: Seq<u8>,
    a: Seq<Piece>,
    b: Seq<Piece>,
)
    requires
        appended(s1, s0, o1, o0, a),
        appended(s2, s1, o2, o1, b),
    ensures
        appended(s2, s0, o2, o0, a + b),
{
    reveal(appended);
    reveal(Encoder::wf);
    assert(s0.pieces@ + a + b =~= s0.pieces@ + (a + b));
    if s2.failed is None {
        assert(s1.failed is None);
        assert(o2.take(s0.position as int) =~= o2.take(s1.position as int).take(s0.position as int));
        assert(o1.take(s0.position as int) =~= o1.take(s1.position as int).take(s0.position as int));
    }
}

impl Encoder {
    fn u8(&mut self, out: &mut [u8], v: u8)
        requires
            old(self).wf(old(out)@),
        ensures
            final(self).wf(final(out)@),
            final(self).same_frame(&*old(self)),
            appended(&*final(self), &*old(self), final(out)@, old(out)@, seq![p_u8(v)]),
            final(self).failed is None ==> final(self).position == old(self).position + 1,
    {
        reveal(appended);
        reveal(Encoder::wf);
        let mut b: Vec<u8> = Vec::new();
        b.push(v);
        proof {
            assert(b@ =~= seq![v]);
            lemma_push_is_concat(self.pieces@, p_u8(v));
        }
        self.put(out, b.as_slice(), false);
    }

    fn u16(&mut self, out: &mut [u8], v: u16)
        requires
            old(self).wf(old(out)@),
        ensures
            final(self).wf(final(out)@),
            final(self).same_frame(&*old(self)),
            appended(&*final(self), &*old(self), final(out)@, old(out)@, seq![p_u16(v)]),
            final(self).failed is None ==> final(self).position == old(self).position + 2,
    {
        reveal(appended);
        reveal(Encoder::wf);
        let b = u16_to_le_bytes(v);
        proof {
            lemma_push_is_concat(self.pieces@, p_u16(v));
        }
        self.put(out, b.as_slice(), false);
    }

    fn u32(&mut self, out: &mut [u8], v: u32)
        requires
            old(self).wf(old(out)@),
        ensures
            final(self).wf(final(out)@),
            final(self).same_frame(&*old(self)),
            appended(&*final(self), &*old(self), final(out)@, old(out)@, seq![p_u32(v)]),
            final(self).failed is None ==> final(self).position == old(self).position + 4,
    {
        reveal(appended);
        reveal(Encoder::wf);
        let b = u32_to_le_bytes(v);
        proof {
            lemma_push_is_concat(self.pieces@, p_u32(v));
        }
        self.put(out, b.as_slice(), false);
    }

    fn u64(&mut self, out: &mut [u8], v: u64)
        requires
            old(self).wf(old(out)@),
        ensures
            final(self).wf(final(out)@),
            final(self).same_frame(&*old(self)),
            appended(&*final(self), &*old(self), final(out)@, old(out)@, seq![p_u64(v)]),
    {
        reveal(appended);
        reveal(Encoder::wf);
        let b = u64_to_le_bytes(v);
        proof {
            lemma_push_is_concat(self.pieces@, p_u64(v));
        }
        self.put(out, b.as_slice(), false);
    }

    fn schema(&mut self, out: &mut [u8], s: &str)
        requires
            old(self).wf(old(out)@),
        ensures
            final(self).wf(final(out)@),
            final(self).same_frame(&*old(self)),
            appended(
                &*final(self),
                &*old(self),
                final(out)@,
                old(out)@,
                schema_pieces(s.spec_bytes()),
            ),
    {
        reveal(appended);
        reveal(Encoder::wf);
        let bytes = s.as_bytes();
        if bytes.len() > 0xffff {
            proof {
                lemma_push_is_concat(self.pieces@, Piece::Fail(EncodeError::SchemaStringTooLong));
            }
            self.fail(out, EncodeError::SchemaStringTooLong);
        } else {
            let ghost s0 = *self;
            let ghost o0 = out@;
            self.u16(out, bytes.len() as u16);
            let ghost s1 = *self;
            let ghost o1 = out@;
            proof {
                lemma_push_is_concat(self.pieces@, raw(bytes@));
            }
            self.put(out, bytes, false);
            proof {
                lemma_appended_trans(
                    &s0,
                    &s1,
                    &*self,
                    o0,
                    o1,
                    out@,
                    seq![p_u16(bytes@.len() as u16)],
                    seq![raw(bytes@)],
                );
                assert(seq![p_u16(bytes@.len() as u16)] + seq![raw(bytes@)] =~= schema_pieces(
                    s.spec_bytes(),
                ));
            }
        }
    }

    fn dynamic(&mut self, out: &mut [u8], s: &str)
        requires
            old(self).wf(old(out)@),
        ensures
            final(self).wf(final(out)@),
            final(self).same_frame(&*old(self)),
            appended(
                &*final(self),
                &*old(self),
                final(out)@,
                old(out)@,
                dynamic_pieces(s.spec_bytes(), old(self).limit as int),
            ),
    {
        reveal(appended);
        reveal(Encoder::wf);
        let bytes = s.as_bytes();
        let l = char_boundary_at_most(s, self.limit);
        let lv = u16_to_le_bytes(l as u16);
        let ghost s0 = *self;
        let ghost o0 = out@;
        let ghost p0 = Piece::Emit(lv@, l != bytes@.len());
        proof {
            lemma_push_is_concat(self.pieces@, p0);
        }
        self.put(out, lv.as_slice(), l != bytes.len());
        let ghost s1 = *self;
        let ghost o1 = out@;
        let sub = slice_subrange(bytes, 0, l);
        proof {
            lemma_push_is_concat(self.pieces@, raw(sub@));
        }
        self.put(out, sub, false);
        proof {
            lemma_appended_trans(&s0, &s1, &*self, o0, o1, out@, seq![p0], seq![raw(sub@)]);
            assert(seq![p0] + seq![raw(sub@)] =~= dynamic_pieces(
                s.spec_bytes(),
                s0.limit as int,
            ));
        }
    }

    fn optional_schema(&mut self, out: &mut [u8], o: Option<&str>)
        requires
            old(self).wf(old(out)@),
        ensures
            final(self).wf(final(out)@),
            final(self).same_frame(&*old(self)),
            appended(&*final(self), &*old(self), final(out)@, old(out)@, optional_schema_pieces(o)),
    {
        let ghost s0 = *self;
        let ghost o0 = out@;
        match o {
            Some(s) => {
                self.u8(out, 1);
                let ghost s1 = *self;
                let ghost o1 = out@;
                self.schema(out, s);
                proof {
                    lemma_appended_trans(
                        &s0,
                        &s1,
                        &*self,
                        o0,
                        o1,
                        out@,
                        seq![p_u8(1)],
                        schema_pieces(s.spec_bytes()),
                    );
                }
            },
            None => {
                self.u8(out, 0);
            },
        }
    }

    fn optional_dynamic(&mut self, out: &mut [u8], o: Option<&str>)
        requires
            old(self).wf(old(out)@),
        ensures
            final(self).wf(final(out)@),
            final(self).same_frame(&*old(self)),
            appended(
                &*final(self),
                &*old(self),
                final(out)@,
                old(out)@,
                optional_dynamic_pieces(o, old(self).limit as int),
            ),
    {
        let ghost s0 = *self;
        let ghost o0 = out@;
        match o {
            Some(s) => {
                self.u8(out, 1);
                let ghost s1 = *self;
                let ghost o1 = out@;
                self.dynamic(out, s);
                proof {
                    lemma_appended_trans(
                        &s0,
                        &s1,
                        &*self,
                        o0,
                        o1,
                        out@,
                        seq![p_u8(1)],
                        dynamic_pieces(s.spec_bytes(), s0.limit as int),
                    );
                }
            },
            None => {
                self.u8(out, 0);
            },
        }
    }

    fn formatted(&mut self, out: &mut [u8], scratch: &mut [u8], s: &str)
        requires
            old(self).wf(old(out)@),
        ensures
            final(self).wf(final(out)@),
            final(self).same_frame(&*old(self)),
            appended(
                &*final(self),
                &*old(self),
                final(out)@,
                old(out)@,
                seq![
                    formatted_piece(
                        s.spec_bytes(),
                        old(self).limit as int,
                        old(scratch)@.len() as int,
                    ),
                ],
            ),
            final(scratch)@.len() == old(scratch)@.len(),
    {
        reveal(appended);
        reveal(Encoder::wf);
        let bytes = s.as_bytes();
        let n = scratch.len();
        let rendered = char_boundary_at_most(s, n);
        let mut k: usize = 0;
        while k < rendered
            invariant
                scratch@.len() == n,
                rendered <= n,
                rendered <= bytes@.len(),
                k <= rendered,
                scratch@.take(k as int) =~= bytes@.take(k as int),
            decreases rendered - k,
        {
            let ghost prev = scratch@;
            scratch[k] = bytes[k];
            proof {
                assert(scratch@ == prev.update(k as int, bytes@[k as int]));
                assert(scratch@.take(k + 1) =~= bytes@.take(k + 1));
            }
            k = k + 1;
        }
        let cap = if rendered < self.limit {
            rendered
        } else {
            self.limit
        };
        let l = char_boundary_at_most(s, cap);
        let lv = u16_to_le_bytes(l as u16);
        let body = slice_subrange(scratch, 0, l);
        proof {
            assert(body@ =~= bytes@.take(l as int));
            lemma_push_is_concat(
                self.pieces@,
                Piece::Emit(lv@ + body@, rendered != bytes@.len() || l != rendered),
            );
        }
        self.put2(out, lv.as_slice(), body, rendered != bytes.len() || l != rendered);
    }

    fn value(&mut self, out: &mut [u8], scratch: &mut [u8], v: ValueRef)
        requires
            old(self).wf(old(out)@),
        ensures
            final(self).wf(final(out)@),
            final(self).same_frame(&*old(self)),
            appended(
                &*final(self),
                &*old(self),
                final(out)@,
                old(out)@,
                value_pieces(v, old(self).limit as int, old(scratch)@.len() as int),
            ),
            final(scratch)@.len() == old(scratch)@.len(),
    {
        let ghost s0 = *self;
        let ghost o0 = out@;
        let ghost sl = scratch@.len() as int;
        match v {
            ValueRef::Bool(b) => {
                self.u8(out, 1);
                let ghost s1 = *self;
                let ghost o1 = out@;
                let x: u8 = if b {
                    1
                } else {
                    0
                };
                self.u8(out, x);
                proof {
                    lemma_appended_trans(&s0, &s1, &*self, o0, o1, out@, seq![p_u8(1)], seq![p_u8(x)]);
                    assert(seq![p_u8(1)] + seq![p_u8(x)] =~= value_pieces(v, s0.limit as int, sl));
                }
            },
            ValueRef::I64(x) => {
                self.u8(out, 2);
                let ghost s1 = *self;
                let ghost o1 = out@;
                self.u64(out, x as u64);
                proof {
                    lemma_appended_trans(
                        &s0,
                        &s1,
                        &*self,
                        o0,
                        o1,
                        out@,
                        seq![p_u8(2)],
                        seq![p_u64(x as u64)],
                    );
                    assert(seq![p_u8(2)] + seq![p_u64(x as u64)] =~= value_pieces(
                        v,
                        s0.limit as int,
                        sl,
                    ));
                }
            },
            ValueRef::U64(x) => {
                self.u8(out, 3);
                let ghost s1 = *self;
                let ghost o1 = out@;
                self.u64(out, x);
                proof {
                    lemma_appended_trans(&s0, &s1, &*self, o0, o1, out@, seq![p_u8(3)], seq![p_u64(x)]);
                    assert(seq![p_u8(3)] + seq![p_u64(x)] =~= value_pieces(v, s0.limit as int, sl));
                }
            },
            ValueRef::F64Bits(x) => {
                self.u8(out, 4);
                let ghost s1 = *self;
                let ghost o1 = out@;
                self.u64(out, x);
                proof {
                    lemma_appended_trans(&s0, &s1, &*self, o0, o1, out@, seq![p_u8(4)], seq![p_u64(x)]);
                    assert(seq![p_u8(4)] + seq![p_u64(x)] =~= value_pieces(v, s0.limit as int, sl));
                }
            },
            ValueRef::Str(t) => {
                self.u8(out, 5);
                let ghost s1 = *self;
                let ghost o1 = out@;
                self.dynamic(out, t);
                proof {
                    lemma_appended_trans(
                        &s0,
                        &s1,
                        &*self,
                        o0,
                        o1,
                        out@,
                        seq![p_u8(5)],
                        dynamic_pieces(t.spec_bytes(), s0.limit as int),
                    );
                }
            },
            ValueRef::Debug(t) => {
                self.u8(out, 6);
                let ghost s1 = *self;
                let ghost o1 = out@;
                self.formatted(out, scratch, t);
                proof {
                    lemma_appended_trans(
                        &s0,
                        &s1,
                        &*self,
                        o0,
                        o1,
                        out@,
                        seq![p_u8(6)],
                        seq![formatted_piece(t.spec_bytes(), s0.limit as int, sl)],
                    );
                    assert(seq![p_u8(6)] + seq![formatted_piece(t.spec_bytes(), s0.limit as int, sl)]
                        =~= value_pieces(v, s0.limit as int, sl));
                }
            },
            ValueRef::Display(t) => {
                self.u8(out, 7);
                let ghost s1 = *self;
                let ghost o1 = out@;
                self.formatted(out, scratch, t);
                proof {
                    lemma_appended_trans(
                        &s0,
                        &s1,
                        &*self,
                        o0,
                        o1,
                        out@,
                        seq![p_u8(7)],
                        seq![formatted_piece(t.spec_bytes(), s0.limit as int, sl)],
                    );
                    assert(seq![p_u8(7)] + seq![formatted_piece(t.spec_bytes(), s0.limit as int, sl)]
                        =~= value_pieces(v, s0.limit as int, sl));
                }
            },
        }
    }

    fn field(&mut self, out: &mut [u8], scratch: &mut [u8], f: FieldRef)
        requires
            old(self).wf(old(out)@),
        ensures
            final(self).wf(final(out)@),
            final(self).same_frame(&*old(self)),
            appended(
                &*final(self),
                &*old(self),
                final(out)@,
                old(out)@,
                field_pieces(f, old(self).limit as int, old(scratch)@.len() as int),
            ),
            final(scratch)@.len() == old(scratch)@.len(),
    {
        let ghost s0 = *self;
        let ghost o0 = out@;
        let ghost sl = scratch@.len() as int;
        self.schema(out, f.metadata.name);
        let ghost s1 = *self;
        let ghost o1 = out@;
        self.u8(out, f.metadata.privacy.code());
        let ghost s2 = *self;
        let ghost o2 = out@;
        self.u8(out, f.metadata.detail.code());
        let ghost s3 = *self;
        let ghost o3 = out@;
        self.value(out, scratch, f.value);
        proof {
            let a = schema_pieces(f.metadata.name.spec_bytes());
            let b = seq![p_u8(privacy_code_spec(f.metadata.privacy))];
            let c = seq![p_u8(detail_code_spec(f.metadata.detail))];
            let d = value_pieces(f.value, s0.limit as int, sl);
            lemma_appended_trans(&s0, &s1, &s2, o0, o1, o2, a, b);
            lemma_appended_trans(&s0, &s2, &s3, o0, o2, o3, a + b, c);
            lemma_appended_trans(&s0, &s3, &*self, o0, o3, out@, a + b + c, d);
            assert(a + b + c + d =~= field_pieces(f, s0.limit as int, sl));
        }
    }
}


/// Counts the field slots that reach the wire.
fn count_retained(fields: &[Option<FieldRef>]) -> (r: usize)
    ensures
        r == retained_count(fields@),
{
    let mut count: usize = 0;
    let mut i: usize = 0;
    while i < fields.len()
        invariant
            i <= fields@.len(),
            count <= i,
            count == retained_count(fields@.take(i as int)),
        decreases fields@.len() - i,
    {
        proof {
            assert(fields@.take(i + 1).drop_last() =~= fields@.take(i as int));
        }
        match fields[i] {
            Some(f) => match f.metadata.privacy {
                Privacy::Secret => {},
                _ => {
                    count = count + 1;
                },
            },
            None => {},
        }
        i = i + 1;
    }
    proof {
        assert(fields@.take(fields@.len() as int) =~= fields@);
    }
    count
}

/// Overwrites `b.len()` bytes of `out` starting at `at`.
fn overwrite(out: &mut [u8], at: usize, b: &[u8])
    requires
        at + b@.len() <= old(out)@.len(),
    ensures
        final(out)@ == old(out)@.take(at as int) + b@ + old(out)@.skip(at + b@.len()),
{
    let ghost old_out = out@;
    let n = out.len();
    let mut k: usize = 0;
    while k < b.len()
        invariant
            k <= b@.len(),
            out@.len() == n,
            n == old_out.len(),
            at + b@.len() <= old_out.len(),
            out@ =~= old_out.take(at as int) + b@.take(k as int) + old_out.skip(at + k),
        decreases b@.len() - k,
    {
        let ghost prev = out@;
        out[at + k] = b[k];
        proof {
            assert(out@ =~= old_out.take(at as int) + b@.take(k + 1) + old_out.skip(at + k + 1));
        }
        k = k + 1;
    }
    proof {
        assert(b@.take(b@.len() as int) =~= b@);
    }
}

proof fn lemma_run_empty(cap: nat)
    ensures
        run(Seq::<Piece>::empty(), cap) == Ok::<EncState, EncodeError>(
            EncState { bytes: Seq::empty(), truncated: 0 },
        ),
{
}

/// Writes the fixed header: magic, version, placeholder flags and length,
/// ordering and loss counters, worker identity and the event's context.
#[verifier::rlimit(40)]
fn encode_header(enc: &mut Encoder, output: &mut [u8], envelope: &Envelope)
    requires
        old(enc).wf(old(output)@),
    ensures
        final(enc).wf(final(output)@),
        final(enc).same_frame(&*old(enc)),
        appended(&*final(enc), &*old(enc), final(output)@, old(output)@, header_pieces(*envelope)),
        final(enc).failed is None ==> final(enc).position >= old(enc).position + 12,
{
    let ghost e0 = *enc;
    let ghost o0 = output@;
    let ghost mut acc: Seq<Piece> = Seq::empty();
    enc.u8(output, 0x4C);
    proof { acc = seq![p_u8(0x4C)]; }
    let ghost prev = *enc;
    let ghost prev_out = output@;
    enc.u8(output, 0x57);
    proof { lemma_appended_trans(&e0, &prev, &*enc, o0, prev_out, output@, acc, seq![p_u8(0x57)]); acc = acc + seq![p_u8(0x57)]; }
    let ghost prev = *enc;
    let ghost prev_out = output@;
    enc.u8(output, 0x31);
    proof { lemma_appended_trans(&e0, &prev, &*enc, o0, prev_out, output@, acc, seq![p_u8(0x31)]); acc = acc + seq![p_u8(0x31)]; }
    let ghost prev = *enc;
    let ghost prev_out = output@;
    enc.u8(output, 0x00);
    proof { lemma_appended_trans(&e0, &prev, &*enc, o0, prev_out, output@, acc, seq![p_u8(0x00)]); acc = acc + seq![p_u8(0x00)]; }
    let ghost prev = *enc;
    let ghost prev_out = output@;
    enc.u16(output, ABI_VERSION);
    proof { lemma_appended_trans(&e0, &prev, &*enc, o0, prev_out, output@, acc, seq![p_u16(ABI_VERSION)]); acc = acc + seq![p_u16(ABI_VERSION)]; }
    let ghost prev = *enc;
    let ghost prev_out = output@;
    enc.u16(output, 0);
    proof { lemma_appended_trans(&e0, &prev, &*enc, o0, prev_out, output@, acc, seq![p_u16(0)]); acc = acc + seq![p_u16(0)]; }
    let ghost prev = *enc;
    let ghost prev_out = output@;
    enc.u32(output, 0);
    proof { lemma_appended_trans(&e0, &prev, &*enc, o0, prev_out, output@, acc, seq![p_u32(0)]); acc = acc + seq![p_u32(0)]; }
    assert(enc.failed is None ==> enc.position == e0.position + 12);
    let ghost prev = *enc;
    let ghost prev_out = output@;
    enc.u64(output, envelope.sequence);
    proof { lemma_appended_trans(&e0, &prev, &*enc, o0, prev_out, output@, acc, seq![p_u64(envelope.sequence)]); acc = acc + seq![p_u64(envelope.sequence)]; }
    let ghost prev = *enc;
    let ghost prev_out = output@;
    enc.u64(output, envelope.dropped_before);
    proof { lemma_appended_trans(&e0, &prev, &*enc, o0, prev_out, output@, acc, seq![p_u64(envelope.dropped_before)]); acc = acc + seq![p_u64(envelope.dropped_before)]; }
    let ghost prev = *enc;
    let ghost prev_out = output@;
    enc.u64(output, envelope.truncated_before);
    proof { lemma_appended_trans(&e0, &prev, &*enc, o0, prev_out, output@, acc, seq![p_u64(envelope.truncated_before)]); acc = acc + seq![p_u64(envelope.truncated_before)]; }
    let ghost prev = *enc;
    let ghost prev_out = output@;
    enc.u64(output, envelope.identity.worker);
    proof { lemma_appended_trans(&e0, &prev, &*enc, o0, prev_out, output@, acc, seq![p_u64(envelope.identity.worker)]); acc = acc + seq![p_u64(envelope.identity.worker)]; }
    let (context, context_flags) = envelope.event.context.into_parts();
    let ghost prev = *enc;
    let ghost prev_out = output@;
    enc.u64(output, context);
    proof { lemma_appended_trans(&e0, &prev, &*enc, o0, prev_out, output@, acc, seq![p_u64(context)]); acc = acc + seq![p_u64(context)]; }
    let ghost prev = *enc;
    let ghost prev_out = output@;
    enc.u64(output, context_flags);
    proof {
        lemma_appended_trans(&e0, &prev, &*enc, o0, prev_out, output@, acc, seq![p_u64(context_flags)]);
        acc = acc + seq![p_u64(context_flags)];
        assert(acc =~= header_pieces(*envelope));
    }
}

/// Writes the link count and every linked context.
fn encode_links(enc: &mut Encoder, output: &mut [u8], links: &[ContextToken])
    requires
        old(enc).wf(old(output)@),
    ensures
        final(enc).wf(final(output)@),
        final(enc).same_frame(&*old(enc)),
        appended(
            &*final(enc),
            &*old(enc),
            final(output)@,
            old(output)@,
            link_count_pieces(links@.len()) + links_pieces(links@),
        ),
{
    let ghost e0 = *enc;
    let ghost o0 = output@;
    if links.len() > 0xffff {
        proof { lemma_push_is_concat(enc.pieces@, Piece::Fail(EncodeError::TooManyLinks)); }
        enc.fail(output, EncodeError::TooManyLinks);
    } else {
        enc.u16(output, links.len() as u16);
    }
    proof {
        reveal(appended);
    }
    let ghost acc0 = link_count_pieces(links@.len());
    proof {
        reveal(appended);
        assert(links@.take(0) =~= Seq::<ContextToken>::empty());
        assert(acc0 + links_pieces(links@.take(0)) =~= acc0);
    }
    let mut i: usize = 0;
    while i < links.len()
        invariant
            i <= links@.len(),
            enc.wf(output@),
            enc.same_frame(&e0),
            appended(&*enc, &e0, output@, o0, acc0 + links_pieces(links@.take(i as int))),
        decreases links@.len() - i,
    {
        let link = links[i];
        let ghost acc = acc0 + links_pieces(links@.take(i as int));
        let ghost prev = *enc;
        let ghost prev_out = output@;
        enc.u64(output, link.id);
        let ghost mid = *enc;
        let ghost mid_out = output@;
        enc.u64(output, link.flags);
        proof {
            lemma_appended_trans(&prev, &mid, &*enc, prev_out, mid_out, output@, seq![p_u64(link.id)], seq![p_u64(link.flags)]);
            lemma_appended_trans(&e0, &prev, &*enc, o0, prev_out, output@, acc, seq![p_u64(link.id)] + seq![p_u64(link.flags)]);
            assert(links@.take(i + 1).drop_last() =~= links@.take(i as int));
            assert(acc + (seq![p_u64(link.id)] + seq![p_u64(link.flags)]) =~= acc0 + links_pieces(links@.take(i + 1)));
        }
        i = i + 1;
    }
    proof {
        assert(links@.take(links@.len() as int) =~= links@);
    }
}

/// Writes the call-site metadata, the test identity and the location.
#[verifier::rlimit(40)]
fn encode_metadata(enc: &mut Encoder, output: &mut [u8], metadata: &Metadata, test: Option<&str>)
    requires
        old(enc).wf(old(output)@),
    ensures
        final(enc).wf(final(output)@),
        final(enc).same_frame(&*old(enc)),
        appended(
            &*final(enc),
            &*old(enc),
            final(output)@,
            old(output)@,
            metadata_pieces(*metadata, test, old(enc).limit as int),
        ),
{
    let ghost e0 = *enc;
    let ghost o0 = output@;
    let ghost limit = enc.limit as int;
    let ghost mut acc: Seq<Piece> = Seq::empty();
    enc.u8(output, metadata.severity.code());
    proof { acc = seq![p_u8(severity_code_spec(metadata.severity))]; }
    let ghost prev = *enc;
    let ghost prev_out = output@;
    enc.u8(output, metadata.class.code());
    proof { lemma_appended_trans(&e0, &prev, &*enc, o0, prev_out, output@, acc, seq![p_u8(class_code_spec(metadata.class))]); acc = acc + seq![p_u8(class_code_spec(metadata.class))]; }
    let ghost prev = *enc;
    let ghost prev_out = output@;
    enc.u8(output, metadata.kind.code());
    proof { lemma_appended_trans(&e0, &prev, &*enc, o0, prev_out, output@, acc, seq![p_u8(kind_code_spec(metadata.kind))]); acc = acc + seq![p_u8(kind_code_spec(metadata.kind))]; }
    let ghost prev = *enc;
    let ghost prev_out = output@;
    enc.schema(output, metadata.event_name);
    proof { lemma_appended_trans(&e0, &prev, &*enc, o0, prev_out, output@, acc, schema_pieces(metadata.event_name.spec_bytes())); acc = acc + schema_pieces(metadata.event_name.spec_bytes()); }
    let ghost prev = *enc;
    let ghost prev_out = output@;
    enc.schema(output, metadata.package);
    proof { lemma_appended_trans(&e0, &prev, &*enc, o0, prev_out, output@, acc, schema_pieces(metadata.package.spec_bytes())); acc = acc + schema_pieces(metadata.package.spec_bytes()); }
    let ghost prev = *enc;
    let ghost prev_out = output@;
    enc.schema(output, metadata.target);
    proof { lemma_appended_trans(&e0, &prev, &*enc, o0, prev_out, output@, acc, schema_pieces(metadata.target.spec_bytes())); acc = acc + schema_pieces(metadata.target.spec_bytes()); }
    let ghost prev = *enc;
    let ghost prev_out = output@;
    enc.schema(output, metadata.module);
    proof { lemma_appended_trans(&e0, &prev, &*enc, o0, prev_out, output@, acc, schema_pieces(metadata.module.spec_bytes())); acc = acc + schema_pieces(metadata.module.spec_bytes()); }
    let ghost prev = *enc;
    let ghost prev_out = output@;
    enc.optional_schema(output, metadata.domain);
    proof { lemma_appended_trans(&e0, &prev, &*enc, o0, prev_out, output@, acc, optional_schema_pieces(metadata.domain)); acc = acc + optional_schema_pieces(metadata.domain); }
    let ghost prev = *enc;
    let ghost prev_out = output@;
    enc.optional_dynamic(output, test);
    proof { lemma_appended_trans(&e0, &prev, &*enc, o0, prev_out, output@, acc, optional_dynamic_pieces(test, limit)); acc = acc + optional_dynamic_pieces(test, limit); }
    let ghost before_location = acc;
    match metadata.location {
        Some(location) => {
            let ghost prev = *enc;
            let ghost prev_out = output@;
            enc.u8(output, 1);
            proof { lemma_appended_trans(&e0, &prev, &*enc, o0, prev_out, output@, acc, seq![p_u8(1)]); acc = acc + seq![p_u8(1)]; }
            let ghost prev = *enc;
            let ghost prev_out = output@;
            enc.schema(output, location.file);
            proof { lemma_appended_trans(&e0, &prev, &*enc, o0, prev_out, output@, acc, schema_pieces(location.file.spec_bytes())); acc = acc + schema_pieces(location.file.spec_bytes()); }
            let ghost prev = *enc;
            let ghost prev_out = output@;
            enc.u32(output, location.line);
            proof { lemma_appended_trans(&e0, &prev, &*enc, o0, prev_out, output@, acc, seq![p_u32(location.line)]); acc = acc + seq![p_u32(location.line)]; }
            let ghost prev = *enc;
            let ghost prev_out = output@;
            enc.u32(output, location.column);
            proof {
                lemma_appended_trans(&e0, &prev, &*enc, o0, prev_out, output@, acc, seq![p_u32(location.column)]);
                acc = acc + seq![p_u32(location.column)];
                assert(acc =~= before_location + location_pieces(metadata.location));
            }
        },
        None => {
            let ghost prev = *enc;
            let ghost prev_out = output@;
            enc.u8(output, 0);
            proof {
                lemma_appended_trans(&e0, &prev, &*enc, o0, prev_out, output@, acc, seq![p_u8(0)]);
                acc = acc + seq![p_u8(0)];
                assert(acc =~= before_location + location_pieces(metadata.location));
            }
        },
    }
    proof {
        assert(acc =~= metadata_pieces(*metadata, test, limit));
    }
}

/// Writes the omission total, the retained field count and every retained
/// field.
fn encode_fields(
    enc: &mut Encoder,
    output: &mut [u8],
    scratch: &mut [u8],
    fields: &[Option<FieldRef>],
    declared: usize,
    explicit_omissions: u32,
)
    requires
        old(enc).wf(old(output)@),
    ensures
        final(enc).wf(final(output)@),
        final(enc).same_frame(&*old(enc)),
        appended(
            &*final(enc),
            &*old(enc),
            final(output)@,
            old(output)@,
            field_count_pieces(
                retained_count(fields@),
                total_omitted(
                    explicit_omissions,
                    implicit_omissions(declared as nat, retained_count(fields@)),
                ),
            ) + fields_pieces(fields@, old(enc).limit as int, old(scratch)@.len() as int),
        ),
        final(scratch)@.len() == old(scratch)@.len(),
{
    let ghost e0 = *enc;
    let ghost o0 = output@;
    let ghost limit = enc.limit as int;
    let ghost sl = scratch@.len() as int;
    let count = count_retained(fields);
    let implicit_all = declared.saturating_sub(count);
    let implicit: u32 = if implicit_all > 0xffff_ffff {
        u32::MAX
    } else {
        implicit_all as u32
    };
    let omitted = explicit_omissions.saturating_add(implicit);
    assert(implicit == implicit_omissions(declared as nat, count as nat));
    assert(omitted == total_omitted(explicit_omissions, implicit));
    let ghost mut acc: Seq<Piece> = Seq::empty();
    if count > 0xffff {
        proof { lemma_push_is_concat(enc.pieces@, Piece::Fail(EncodeError::TooManyFields)); }
        enc.fail(output, EncodeError::TooManyFields);
        proof {
            acc = seq![Piece::Fail(EncodeError::TooManyFields)];
            reveal(appended);
        }
    } else {
        proof { lemma_appended_refl(&e0, o0); }
    }
    let ghost prev = *enc;
    let ghost prev_out = output@;
    enc.u32(output, omitted);
    proof { lemma_appended_trans(&e0, &prev, &*enc, o0, prev_out, output@, acc, seq![p_u32(omitted)]); acc = acc + seq![p_u32(omitted)]; }
    let ghost prev = *enc;
    let ghost prev_out = output@;
    enc.u16(output, count as u16);
    proof {
        lemma_appended_trans(&e0, &prev, &*enc, o0, prev_out, output@, acc, seq![p_u16(count as u16)]);
        acc = acc + seq![p_u16(count as u16)];
        assert(acc =~= field_count_pieces(count as nat, omitted));
    }
    let ghost acc0 = acc;
    let mut j: usize = 0;
    while j < fields.len()
        invariant
            j <= fields@.len(),
            enc.wf(output@),
            enc.same_frame(&e0),
            appended(&*enc, &e0, output@, o0, acc0 + fields_pieces(fields@.take(j as int), limit, sl)),
            enc.limit == e0.limit,
            limit == e0.limit as int,
            scratch@.len() == sl,
        decreases fields@.len() - j,
    {
        let ghost acc = acc0 + fields_pieces(fields@.take(j as int), limit, sl);
        let ghost prev = *enc;
        let ghost prev_out = output@;
        let ghost fs = fields@.take(j + 1);
        proof {
            assert(fs.drop_last() =~= fields@.take(j as int));
        }
        match fields[j] {
            Some(f) => match f.metadata.privacy {
                Privacy::Secret => {
                    proof { assert(acc =~= acc0 + fields_pieces(fs, limit, sl)); }
                },
                _ => {
                    enc.field(output, scratch, f);
                    proof {
                        lemma_appended_trans(&e0, &prev, &*enc, o0, prev_out, output@, acc, field_pieces(f, limit, sl));
                        assert(acc + field_pieces(f, limit, sl) =~= acc0 + fields_pieces(fs, limit, sl));
                    }
                },
            },
            None => {
                proof { assert(acc =~= acc0 + fields_pieces(fs, limit, sl)); }
            },
        }
        j = j + 1;
    }
    proof {
        assert(fields@.take(fields@.len() as int) =~= fields@);
    }
}

/// Writes the optional ad-hoc message.
fn encode_message(enc: &mut Encoder, output: &mut [u8], scratch: &mut [u8], message: Option<&str>)
    requires
        old(enc).wf(old(output)@),
    ensures
        final(enc).wf(final(output)@),
        final(enc).same_frame(&*old(enc)),
        appended(
            &*final(enc),
            &*old(enc),
            final(output)@,
            old(output)@,
            message_pieces(message, old(enc).limit as int, old(scratch)@.len() as int),
        ),
        final(scratch)@.len() == old(scratch)@.len(),
{
    let ghost e0 = *enc;
    let ghost o0 = output@;
    let ghost limit = enc.limit as int;
    let ghost sl = scratch@.len() as int;
    match message {
        Some(text) => {
            enc.u8(output, 1);
            let ghost prev = *enc;
            let ghost prev_out = output@;
            enc.formatted(output, scratch, text);
            proof {
                lemma_appended_trans(&e0, &prev, &*enc, o0, prev_out, output@, seq![p_u8(1)], seq![formatted_piece(text.spec_bytes(), limit, sl)]);
                assert(seq![p_u8(1)] + seq![formatted_piece(text.spec_bytes(), limit, sl)] =~= message_pieces(message, limit, sl));
            }
        },
        None => {
            enc.u8(output, 0);
        },
    }
}

/// Encodes the stable `logwise_v1` wire format into `output` without
/// allocating a frame. Secret fields are omitted defensively even if a caller
/// bypasses runtime projection. Dynamic strings are truncated at UTF-8
/// boundaries.
pub fn encode_envelope<'buffer>(
    envelope: Envelope<'_>,
    max_value_bytes: usize,
    output: &'buffer mut [u8],
    scratch: &mut [u8],
) -> (r: Result<EncodedEnvelope<'buffer>, EncodeError>)
    ensures
        r is Ok <==> encoding(envelope, max_value_bytes, old(output)@.len(), old(scratch)@.len()) is Ok,
        r matches Ok(e) ==> encoding(
            envelope,
            max_value_bytes,
            old(output)@.len(),
            old(scratch)@.len(),
        ) == Ok::<(Seq<u8>, u32), EncodeError>((e.bytes@, e.truncated_values)),
        r matches Err(e) ==> encoding(
            envelope,
            max_value_bytes,
            old(output)@.len(),
            old(scratch)@.len(),
        ) == Err::<(Seq<u8>, u32), EncodeError>(e),
{
    let ghost cap = output@.len();
    let ghost sl = scratch@.len() as int;
    let limit: usize = if max_value_bytes < 0xffff {
        max_value_bytes
    } else {
        0xffff
    };
    let mut enc = Encoder {
        position: 0,
        limit,
        truncated_values: 0,
        failed: None,
        pieces: Ghost(Seq::empty()),
        truncated: Ghost(0),
    };
    proof {
        lemma_run_empty(cap);
        assert(output@.take(0) =~= Seq::<u8>::empty());
        reveal(Encoder::wf);
    }
    let ghost e0 = enc;
    let ghost o0 = output@;
    let ghost lim = limit as int;

    encode_header(&mut enc, output, &envelope);
    let ghost a = header_pieces(envelope);
    let ghost e1 = enc;
    let ghost o1 = output@;
    encode_links(&mut enc, output, envelope.links);
    let ghost b = link_count_pieces(envelope.links@.len()) + links_pieces(envelope.links@);
    proof { lemma_appended_trans(&e0, &e1, &enc, o0, o1, output@, a, b); }
    let ghost e2 = enc;
    let ghost o2 = output@;
    let metadata = envelope.event.metadata;
    encode_metadata(&mut enc, output, metadata, envelope.identity.test);
    let ghost c = metadata_pieces(*metadata, envelope.identity.test, lim);
    proof { lemma_appended_trans(&e0, &e2, &enc, o0, o2, output@, a + b, c); }
    let ghost e3 = enc;
    let ghost o3 = output@;
    encode_fields(&mut enc, output, scratch, envelope.event.fields, metadata.fields.len(), envelope.omitted_fields);
    let ghost count = retained_count(envelope.event.fields@);
    let ghost d = field_count_pieces(
        count,
        total_omitted(envelope.omitted_fields, implicit_omissions(metadata.fields@.len(), count)),
    ) + fields_pieces(envelope.event.fields@, lim, sl);
    proof { lemma_appended_trans(&e0, &e3, &enc, o0, o3, output@, a + b + c, d); }
    let ghost e4 = enc;
    let ghost o4 = output@;
    encode_message(&mut enc, output, scratch, envelope.event.message);
    let ghost f = message_pieces(envelope.event.message, lim, sl);
    proof {
        lemma_appended_trans(&e0, &e4, &enc, o0, o4, output@, a + b + c + d, f);
        assert(a + b + c + d + f =~= envelope_pieces(envelope, max_value_bytes, sl));
        reveal(appended);
        assert(e0.pieces@ + (a + b + c + d + f) =~= a + b + c + d + f);
        assert(enc.pieces@ =~= envelope_pieces(envelope, max_value_bytes, sl));
    }

    proof {
        reveal(Encoder::wf);
    }
    match enc.failed {
        Some(e) => {
            return Err(e);
        },
        None => {},
    }
    assert(enc.position >= 12);
    let position = enc.position;
    if position > 0xffff_ffff {
        return Err(EncodeError::BufferTooSmall);
    }
    let ghost frame = output@.take(position as int);
    let flags: u16 = if enc.truncated_values != 0 {
        1
    } else {
        0
    };
    let flag_bytes = u16_to_le_bytes(flags);
    overwrite(output, 6, flag_bytes.as_slice());
    let length_bytes = u32_to_le_bytes(position as u32);
    overwrite(output, 8, length_bytes.as_slice());
    let truncated_values = enc.truncated_values;
    let shared: &'buffer [u8] = output;
    let bytes = slice_subrange(shared, 0, position);
    proof {
        assert(bytes@ =~= patch_header(frame, enc.truncated@ != 0));
    }
    Ok(EncodedEnvelope { bytes, truncated_values })
}


/// Addition modulo 2^64, as the running loss counters wrap.
pub open spec fn wrap_add(a: u64, b: u64) -> u64 {
    if a + b > u64::MAX {
        (a + b - 0x1_0000_0000_0000_0000) as u64
    } else {
        (a + b) as u64
    }
}

/// Delivers a frame to the embedding host. Without the `logwise_v1` host
/// import (every native target) there is no host, so nothing is accepted.
fn host_emit(_bytes: &[u8]) -> (r: HostStatus)
    ensures
        r == HostStatus::Unavailable,
{
    HostStatus::Unavailable
}

/// Interprets the status word returned by the host import.
pub fn decode_status(status: i32) -> (r: HostStatus)
    ensures
        status == 0 ==> r == HostStatus::Accepted,
        status == 1 ==> r == HostStatus::Unavailable,
        status == 2 ==> r == HostStatus::VersionMismatch,
        status == 3 ==> r == HostStatus::Dropped,
        !(0 <= status <= 3) ==> r == HostStatus::HostError(status),
{
    match status {
        0 => HostStatus::Accepted,
        1 => HostStatus::Unavailable,
        2 => HostStatus::VersionMismatch,
        3 => HostStatus::Dropped,
        other => HostStatus::HostError(other),
    }
}

/// What one `encode` or `emit` call did, as far as the transport's counters
/// are concerned: a frame encoded with some values truncated, a failed
/// encoding, or a frame handed to the host, which accepted it or not.
#[derive(Clone, Copy, Debug, PartialEq, Eq, Structural)]
pub enum CallOutcome {
    Framed(u32),
    Failed,
    Delivered(u32, bool),
}

/// Frames one call lost.
pub open spec fn call_lost(o: CallOutcome) -> nat {
    match o {
        CallOutcome::Framed(_) => 0,
        CallOutcome::Failed => 1,
        CallOutcome::Delivered(_, accepted) => if accepted {
            0
        } else {
            1
        },
    }
}

/// Values one call truncated.
pub open spec fn call_truncated(o: CallOutcome) -> nat {
    match o {
        CallOutcome::Framed(t) => t as nat,
        CallOutcome::Failed => 0,
        CallOutcome::Delivered(t, _) => t as nat,
    }
}

/// The sequence, dropped and truncated counters after one call.
pub open spec fn counters_after(c: (u64, u64, u64), o: CallOutcome) -> (u64, u64, u64) {
    ((c.0 + 1) as u64, wrap_add(c.1, call_lost(o) as u64), wrap_add(c.2, call_truncated(o) as u64))
}

/// The counters of a new transport after the calls `os`, in order.
pub open spec fn counters_after_calls(os: Seq<CallOutcome>) -> (u64, u64, u64)
    decreases os.len(),
{
    if os.len() == 0 {
        (0, 0, 0)
    } else {
        counters_after(counters_after_calls(os.drop_last()), os.last())
    }
}

pub open spec fn lost_total(os: Seq<CallOutcome>) -> nat
    decreases os.len(),
{
    if os.len() == 0 {
        0
    } else {
        lost_total(os.drop_last()) + call_lost(os.last())
    }
}

pub open spec fn truncated_total(os: Seq<CallOutcome>) -> nat
    decreases os.len(),
{
    if os.len() == 0 {
        0
    } else {
        truncated_total(os.drop_last()) + call_truncated(os.last())
    }
}

/// What an `encode` call that returned `r` did.
pub open spec fn encode_call<'buffer>(r: Result<EncodedEnvelope<'buffer>, EncodeError>) -> CallOutcome {
    match r {
        Ok(e) => CallOutcome::Framed(e.truncated_values),
        Err(_) => CallOutcome::Failed,
    }
}

/// What an `emit` call that returned `r` did, its frame having encoded as
/// `expected`.
pub open spec fn emit_call(r: Result<HostStatus, EncodeError>, expected: Result<(Seq<u8>, u32), EncodeError>) -> CallOutcome {
    match (r, expected) {
        (Ok(status), Ok((_, t))) => CallOutcome::Delivered(t, status == HostStatus::Accepted),
        _ => CallOutcome::Failed,
    }
}

proof fn lemma_wrap_add_mod(x: nat, b: nat)
    requires
        b <= u64::MAX,
    ensures
        wrap_add((x % 0x1_0000_0000_0000_0000) as u64, b as u64) == (x + b) % 0x1_0000_0000_0000_0000,
{
    let m: int = 0x1_0000_0000_0000_0000;
    let a: int = x as int % m;
    vstd::arithmetic::div_mod::lemma_add_mod_noop(x as int, b as int, m);
    vstd::arithmetic::div_mod::lemma_mod_twice(x as int, m);
    assert(0 <= a < m);
    assert(b as int % m == b);
    if a + b >= m {
        vstd::arithmetic::div_mod::lemma_mod_sub_multiples_vanish(a + b - m, m);
        assert((a + b - m) % m == a + b - m) by {
            vstd::arithmetic::div_mod::lemma_small_mod((a + b - m) as nat, m as nat);
        }
    } else {
        vstd::arithmetic::div_mod::lemma_small_mod((a + b) as nat, m as nat);
    }
}

/// Over any run of calls on a new transport: the k-th call frames sequence
/// number k, failed calls consume a number too, and the dropped and
/// truncated counters are the totals over the run, modulo 2^64.
pub proof fn law_transport_counts_its_history(os: Seq<CallOutcome>)
    requires
        os.len() <= u64::MAX,
    ensures
        counters_after_calls(os).0 == os.len(),
        counters_after_calls(os).1 == lost_total(os) % 0x1_0000_0000_0000_0000,
        counters_after_calls(os).2 == truncated_total(os) % 0x1_0000_0000_0000_0000,
    decreases os.len(),
{
    if os.len() > 0 {
        let prev = os.drop_last();
        law_transport_counts_its_history(prev);
        lemma_wrap_add_mod(lost_total(prev), call_lost(os.last()));
        lemma_wrap_add_mod(truncated_total(prev), call_truncated(os.last()));
    }
}

/// Incremental structured transport state. Each call is independently framed,
/// so a host can mirror accepted envelopes before a wasm scheduler stalls.
pub struct Transport {
    next_sequence: u64,
    dropped: u64,
    truncated: u64,
    max_value_bytes: usize,
}

impl Transport {
    /// Sequence number of the last frame handed out (zero before the first).
    pub closed spec fn spec_sequence(&self) -> u64 {
        self.next_sequence
    }

    /// Frames lost so far: failed encodings and frames the host did not accept.
    pub closed spec fn spec_dropped(&self) -> u64 {
        self.dropped
    }

    /// Values truncated so far across all successfully encoded frames.
    pub closed spec fn spec_truncated(&self) -> u64 {
        self.truncated
    }

    pub closed spec fn spec_max_value_bytes(&self) -> usize {
        self.max_value_bytes
    }

    /// The sequence, dropped and truncated counters together.
    pub open spec fn counters(&self) -> (u64, u64, u64) {
        (self.spec_sequence(), self.spec_dropped(), self.spec_truncated())
    }

    /// The envelope the next `encode` call frames around `event`.
    pub open spec fn next_envelope<'a>(
        &self,
        event: EventRef<'a>,
        links: &'a [ContextToken],
        identity: Identity<'a>,
    ) -> Envelope<'a> {
        Envelope {
            event,
            sequence: (self.spec_sequence() + 1) as u64,
            dropped_before: self.spec_dropped(),
            truncated_before: self.spec_truncated(),
            omitted_fields: 0,
            links,
            identity,
        }
    }

    pub fn new(max_value_bytes: usize) -> (r: Transport)
        ensures
            r.spec_sequence() == 0,
            r.spec_dropped() == 0,
            r.spec_truncated() == 0,
            r.spec_max_value_bytes() == max_value_bytes,
    {
        Transport { next_sequence: 0, dropped: 0, truncated: 0, max_value_bytes }
    }

    /// Frames `event` with the next sequence number and the loss totals seen
    /// so far. A failed encoding counts as a dropped frame; a successful one
    /// adds its truncated values to the running total.
    pub fn encode<'a, 'buffer>(
        &mut self,
        event: EventRef<'a>,
        links: &'a [ContextToken],
        identity: Identity<'a>,
        output: &'buffer mut [u8],
        scratch: &mut [u8],
    ) -> (r: Result<EncodedEnvelope<'buffer>, EncodeError>)
        requires
            old(self).spec_sequence() < u64::MAX,
        ensures
            final(self).spec_sequence() == old(self).spec_sequence() + 1,
            final(self).spec_max_value_bytes() == old(self).spec_max_value_bytes(),
            final(self).counters() == counters_after(old(self).counters(), encode_call(r)),
            ({
                let expected = encoding(
                    old(self).next_envelope(event, links, identity),
                    old(self).spec_max_value_bytes(),
                    old(output)@.len(),
                    old(scratch)@.len(),
                );
                match r {
                    Ok(e) => {
                        &&& expected == Ok::<(Seq<u8>, u32), EncodeError>(
                            (e.bytes@, e.truncated_values),
                        )
                        &&& final(self).spec_dropped() == old(self).spec_dropped()
                        &&& final(self).spec_truncated() == wrap_add(
                            old(self).spec_truncated(),
                            e.truncated_values as u64,
                        )
                    },
                    Err(e) => {
                        &&& expected == Err::<(Seq<u8>, u32), EncodeError>(e)
                        &&& final(self).spec_dropped() == wrap_add(old(self).spec_dropped(), 1)
                        &&& final(self).spec_truncated() == old(self).spec_truncated()
                    },
                }
            }),
    {
        let sequence = self.next_sequence + 1;
        self.next_sequence = sequence;
        let envelope = Envelope {
            event,
            sequence,
            dropped_before: self.dropped,
            truncated_before: self.truncated,
            omitted_fields: 0,
            links,
            identity,
        };
        match encode_envelope(envelope, self.max_value_bytes, output, scratch) {
            Ok(encoded) => {
                self.truncated = self.truncated.wrapping_add(encoded.truncated_values as u64);
                Ok(encoded)
            },
            Err(error) => {
                self.dropped = self.dropped.wrapping_add(1);
                Err(error)
            },
        }
    }

    /// Encodes `event` and hands the frame to the host; a frame the host does
    /// not accept is counted as dropped.
    pub fn emit<'a>(
        &mut self,
        event: EventRef<'a>,
        links: &'a [ContextToken],
        identity: Identity<'a>,
        output: &mut [u8],
        scratch: &mut [u8],
    ) -> (r: Result<HostStatus, EncodeError>)
        requires
            old(self).spec_sequence() < u64::MAX,
        ensures
            final(self).spec_sequence() == old(self).spec_sequence() + 1,
            final(self).spec_max_value_bytes() == old(self).spec_max_value_bytes(),
            final(self).counters() == counters_after(
                old(self).counters(),
                emit_call(
                    r,
                    encoding(
                        old(self).next_envelope(event, links, identity),
                        old(self).spec_max_value_bytes(),
                        old(output)@.len(),
                        old(scratch)@.len(),
                    ),
                ),
            ),
            ({
                let expected = encoding(
                    old(self).next_envelope(event, links, identity),
                    old(self).spec_max_value_bytes(),
                    old(output)@.len(),
                    old(scratch)@.len(),
                );
                match r {
                    Ok(status) => {
                        &&& status == HostStatus::Unavailable
                        &&& expected matches Ok((bytes, t)) && final(self).spec_truncated() == wrap_add(
                            old(self).spec_truncated(),
                            t as u64,
                        )
                        &&& final(self).spec_dropped() == wrap_add(old(self).spec_dropped(), 1)
                    },
                    Err(e) => {
                        &&& expected == Err::<(Seq<u8>, u32), EncodeError>(e)
                        &&& final(self).spec_dropped() == wrap_add(old(self).spec_dropped(), 1)
                        &&& final(self).spec_truncated() == old(self).spec_truncated()
                    },
                }
            }),
    {
        let encoded = self.encode(event, links, identity, output, scratch)?;
        let status = host_emit(encoded.bytes);
        match status {
            HostStatus::Accepted => {},
            _ => {
                self.dropped = self.dropped.wrapping_add(1);
            },
        }
        Ok(status)
    }

    pub fn dropped(&self) -> (r: u64)
        ensures
            r == self.spec_dropped(),
    {
        self.dropped
    }

    pub fn truncated(&self) -> (r: u64)
        ensures
            r == self.spec_truncated(),
    {
        self.truncated
    }
}


// ---------------------------------------------------------------------------
// Properties of the layout.
// ---------------------------------------------------------------------------

/// The bytes written, or nothing after an error.
pub open spec fn written(r: Result<EncState, EncodeError>) -> Seq<u8> {
    match r {
        Ok(st) => st.bytes,
        Err(_) => Seq::empty(),
    }
}

proof fn lemma_run_bounded(ps: Seq<Piece>, cap: nat)
    ensures
        run(ps, cap) is Ok ==> written(run(ps, cap)).len() <= cap,
    decreases ps.len(),
{
    if ps.len() > 0 {
        lemma_run_bounded(ps.drop_last(), cap);
    }
}

/// Writing stops at the first failure: if a list of pieces succeeds, every
/// prefix of it succeeded and wrote a prefix of its bytes.
proof fn lemma_run_prefix(a: Seq<Piece>, b: Seq<Piece>, cap: nat)
    requires
        run(a + b, cap) is Ok,
    ensures
        run(a, cap) is Ok,
        written(run(a, cap)).len() <= written(run(a + b, cap)).len(),
        written(run(a + b, cap)).take(written(run(a, cap)).len() as int) == written(run(a, cap)),
    decreases b.len(),
{
    if b.len() == 0 {
        assert(a + b =~= a);
        assert(written(run(a, cap)).take(written(run(a, cap)).len() as int) =~= written(run(a, cap)));
    } else {
        let b2 = b.drop_last();
        assert((a + b).drop_last() =~= a + b2);
        assert((a + b).last() == b.last());
        lemma_run_prefix(a, b2, cap);
        let w1 = written(run(a, cap));
        let w2 = written(run(a + b2, cap));
        let w3 = written(run(a + b, cap));
        assert(w3.take(w2.len() as int) =~= w2);
        assert(w3.take(w1.len() as int) =~= w2.take(w1.len() as int));
    }
}

/// The bytes the fixed header pieces write.
pub open spec fn header_bytes(env: Envelope) -> Seq<u8> {
    magic_spec() + spec_u16_to_le_bytes(ABI_VERSION) + spec_u16_to_le_bytes(0)
        + spec_u32_to_le_bytes(0) + spec_u64_to_le_bytes(env.sequence) + spec_u64_to_le_bytes(
        env.dropped_before,
    ) + spec_u64_to_le_bytes(env.truncated_before) + spec_u64_to_le_bytes(env.identity.worker)
        + spec_u64_to_le_bytes(env.event.context.id) + spec_u64_to_le_bytes(env.event.context.flags)
}

/// The bytes a list of pieces emits, ignoring capacity.
pub open spec fn emitted(ps: Seq<Piece>) -> Seq<u8>
    decreases ps.len(),
{
    if ps.len() == 0 {
        Seq::empty()
    } else {
        emitted(ps.drop_last()) + match ps.last() {
            Piece::Emit(b, _) => b,
            Piece::Fail(_) => Seq::empty(),
        }
    }
}

proof fn lemma_run_emits(ps: Seq<Piece>, cap: nat)
    requires
        run(ps, cap) is Ok,
    ensures
        written(run(ps, cap)) == emitted(ps),
    decreases ps.len(),
{
    if ps.len() > 0 {
        lemma_run_emits(ps.drop_last(), cap);
    }
}

proof fn lemma_header_run(env: Envelope, cap: nat)
    requires
        run(header_pieces(env), cap) is Ok,
    ensures
        written(run(header_pieces(env), cap)) == header_bytes(env),
{
    lemma_run_emits(header_pieces(env), cap);
    reveal_with_fuel(emitted, 14);
    assert(emitted(header_pieces(env)) =~= header_bytes(env));
}

/// A successful frame describes itself: it starts with the magic and the
/// version, its flags word says whether any value was truncated, its length
/// word is the frame's own length, it fits the output buffer, and the
/// ordering and loss counters follow in that order.
pub proof fn law_frame_is_self_describing(
    env: Envelope,
    max_value_bytes: usize,
    cap: nat,
    scratch_len: nat,
)
    requires
        encoding(env, max_value_bytes, cap, scratch_len) is Ok,
    ensures
        ({
            let (bytes, truncated) = encoding(env, max_value_bytes, cap, scratch_len)->Ok_0;
            &&& 60 <= bytes.len() <= cap
            &&& bytes.take(4) == magic_spec()
            &&& spec_u16_from_le_bytes(bytes.subrange(4, 6)) == ABI_VERSION
            &&& spec_u16_from_le_bytes(bytes.subrange(6, 8)) == (if truncated != 0 {
                1u16
            } else {
                0u16
            })
            &&& spec_u32_from_le_bytes(bytes.subrange(8, 12)) == bytes.len()
            &&& spec_u64_from_le_bytes(bytes.subrange(12, 20)) == env.sequence
            &&& spec_u64_from_le_bytes(bytes.subrange(20, 28)) == env.dropped_before
            &&& spec_u64_from_le_bytes(bytes.subrange(28, 36)) == env.truncated_before
        }),
{
    lemma_auto_spec_u16_to_from_le_bytes();
    lemma_auto_spec_u32_to_from_le_bytes();
    lemma_auto_spec_u64_to_from_le_bytes();
    let ps = envelope_pieces(env, max_value_bytes, scratch_len as int);
    let h = header_pieces(env);
    let rest = ps.subrange(13, ps.len() as int);
    assert(ps =~= h + rest);
    lemma_run_prefix(h, rest, cap);
    lemma_header_run(env, cap);
    lemma_run_bounded(ps, cap);
    let st = run(ps, cap)->Ok_0;
    let hb = header_bytes(env);
    assert(hb.len() == 60);
    assert(st.bytes.take(60) == hb);
    let (bytes, truncated) = encoding(env, max_value_bytes, cap, scratch_len)->Ok_0;
    assert(bytes =~= patch_header(st.bytes, st.truncated != 0));
    assert(bytes.take(4) =~= hb.take(4));
    assert(hb.take(4) =~= magic_spec());
    assert(bytes.subrange(4, 6) =~= spec_u16_to_le_bytes(ABI_VERSION));
    assert(bytes.subrange(6, 8) =~= spec_u16_to_le_bytes(if st.truncated != 0 { 1 } else { 0 }));
    assert(bytes.subrange(8, 12) =~= spec_u32_to_le_bytes(st.bytes.len() as u32));
    let h12 = magic_spec() + spec_u16_to_le_bytes(ABI_VERSION) + spec_u16_to_le_bytes(0)
        + spec_u32_to_le_bytes(0);
    assert(h12.len() == 12);
    assert(hb.subrange(12, 20) =~= spec_u64_to_le_bytes(env.sequence));
    assert(hb.subrange(20, 28) =~= spec_u64_to_le_bytes(env.dropped_before));
    assert(hb.subrange(28, 36) =~= spec_u64_to_le_bytes(env.truncated_before));
    assert(bytes.subrange(12, 20) =~= spec_u64_to_le_bytes(env.sequence));
    assert(bytes.subrange(20, 28) =~= spec_u64_to_le_bytes(env.dropped_before));
    assert(bytes.subrange(28, 36) =~= spec_u64_to_le_bytes(env.truncated_before));
}

/// Two field lists that carry the same evaluated, non-secret fields in the
/// same slots, whatever their secret fields hold.
pub open spec fn agree_outside_secrets(a: Seq<Option<FieldRef>>, b: Seq<Option<FieldRef>>) -> bool {
    &&& a.len() == b.len()
    &&& forall|i: int|
        0 <= i < a.len() ==> (is_retained(#[trigger] a[i]) == is_retained(b[i]) && (is_retained(
            a[i],
        ) ==> a[i] == b[i]))
}

proof fn lemma_fields_agree(a: Seq<Option<FieldRef>>, b: Seq<Option<FieldRef>>, limit: int, sl: int)
    requires
        agree_outside_secrets(a, b),
    ensures
        retained_count(a) == retained_count(b),
        fields_pieces(a, limit, sl) == fields_pieces(b, limit, sl),
    decreases a.len(),
{
    if a.len() > 0 {
        let a2 = a.drop_last();
        let b2 = b.drop_last();
        assert(is_retained(a[a.len() - 1]) == is_retained(b[b.len() - 1]));
        assert(agree_outside_secrets(a2, b2)) by {
            assert forall|i: int| 0 <= i < a2.len() implies (is_retained(#[trigger] a2[i])
                == is_retained(b2[i]) && (is_retained(a2[i]) ==> a2[i] == b2[i])) by {
                assert(a2[i] == a[i]);
                assert(b2[i] == b[i]);
            }
        }
        lemma_fields_agree(a2, b2, limit, sl);
    }
}

/// What a secret field holds never influences the frame: two envelopes
/// that differ only in their secret (or unevaluated-versus-secret) fields
/// encode identically, byte for byte and in outcome.
pub proof fn law_secret_values_never_reach_the_wire(
    e1: Envelope,
    e2: Envelope,
    max_value_bytes: usize,
    cap: nat,
    scratch_len: nat,
)
    requires
        e1.sequence == e2.sequence,
        e1.dropped_before == e2.dropped_before,
        e1.truncated_before == e2.truncated_before,
        e1.omitted_fields == e2.omitted_fields,
        e1.links@ == e2.links@,
        e1.identity == e2.identity,
        *e1.event.metadata == *e2.event.metadata,
        e1.event.context == e2.event.context,
        e1.event.message == e2.event.message,
        agree_outside_secrets(e1.event.fields@, e2.event.fields@),
    ensures
        encoding(e1, max_value_bytes, cap, scratch_len) == encoding(
            e2,
            max_value_bytes,
            cap,
            scratch_len,
        ),
{
    let limit = value_limit(max_value_bytes);
    lemma_fields_agree(e1.event.fields@, e2.event.fields@, limit, scratch_len as int);
    assert(envelope_pieces(e1, max_value_bytes, scratch_len as int) =~= envelope_pieces(
        e2,
        max_value_bytes,
        scratch_len as int,
    ));
}

/// Whether two values are of the same kind.
pub open spec fn same_kind(v: ValueRef, w: ValueRef) -> bool {
    match (v, w) {
        (ValueRef::Bool(_), ValueRef::Bool(_)) => true,
        (ValueRef::I64(_), ValueRef::I64(_)) => true,
        (ValueRef::U64(_), ValueRef::U64(_)) => true,
        (ValueRef::F64Bits(_), ValueRef::F64Bits(_)) => true,
        (ValueRef::Str(_), ValueRef::Str(_)) => true,
        (ValueRef::Debug(_), ValueRef::Debug(_)) => true,
        (ValueRef::Display(_), ValueRef::Display(_)) => true,
        _ => false,
    }
}

/// A host can decode every value the encoder writes: the first byte names
/// the value's kind (1 bool, 2 i64, 3 u64, 4 f64 bits, 5 str, 6 debug text,
/// 7 display text) and no two kinds share it; a bool is one byte 0 or 1;
/// a 64-bit value is its 8 little-endian bytes, which read back as the
/// same number (a signed one through its two's-complement bits).
pub proof fn law_values_decode_to_their_kind_and_payload(v: ValueRef, w: ValueRef, limit: int, scratch_len: int)
    ensures
        emitted(value_pieces(v, limit, scratch_len)).len() >= 1,
        emitted(value_pieces(w, limit, scratch_len)).len() >= 1,
        (emitted(value_pieces(v, limit, scratch_len))[0] == emitted(value_pieces(w, limit, scratch_len))[0])
            <==> same_kind(v, w),
        ({
            let b = emitted(value_pieces(v, limit, scratch_len));
            match v {
                ValueRef::Bool(x) => b == seq![1u8, if x { 1u8 } else { 0u8 }],
                ValueRef::I64(x) => b.len() == 9 && b[0] == 2 && spec_u64_from_le_bytes(b.subrange(1, 9)) as i64 == x,
                ValueRef::U64(x) => b.len() == 9 && b[0] == 3 && spec_u64_from_le_bytes(b.subrange(1, 9)) == x,
                ValueRef::F64Bits(x) => b.len() == 9 && b[0] == 4 && spec_u64_from_le_bytes(b.subrange(1, 9)) == x,
                ValueRef::Str(_) => b[0] == 5,
                ValueRef::Debug(_) => b[0] == 6,
                ValueRef::Display(_) => b[0] == 7,
            }
        }),
{
    lemma_value_bytes(v, limit, scratch_len);
    lemma_value_bytes(w, limit, scratch_len);
}

proof fn lemma_value_bytes(v: ValueRef, limit: int, scratch_len: int)
    ensures
        emitted(value_pieces(v, limit, scratch_len)).len() >= 1,
        emitted(value_pieces(v, limit, scratch_len))[0] == match v {
            ValueRef::Bool(_) => 1u8,
            ValueRef::I64(_) => 2u8,
            ValueRef::U64(_) => 3u8,
            ValueRef::F64Bits(_) => 4u8,
            ValueRef::Str(_) => 5u8,
            ValueRef::Debug(_) => 6u8,
            ValueRef::Display(_) => 7u8,
        },
        ({
            let b = emitted(value_pieces(v, limit, scratch_len));
            match v {
                ValueRef::Bool(x) => b == seq![1u8, if x { 1u8 } else { 0u8 }],
                ValueRef::I64(x) => b.len() == 9 && spec_u64_from_le_bytes(b.subrange(1, 9)) as i64 == x,
                ValueRef::U64(x) => b.len() == 9 && spec_u64_from_le_bytes(b.subrange(1, 9)) == x,
                ValueRef::F64Bits(x) => b.len() == 9 && spec_u64_from_le_bytes(b.subrange(1, 9)) == x,
                _ => true,
            }
        }),
{
    let ps = value_pieces(v, limit, scratch_len);
    reveal_with_fuel(emitted, 4);
    lemma_auto_spec_u64_to_from_le_bytes();
    match v {
        ValueRef::Bool(x) => {
            assert(emitted(ps) =~= seq![1u8, if x { 1u8 } else { 0u8 }]);
        },
        ValueRef::I64(x) => {
            let b = emitted(ps);
            assert(b =~= seq![2u8] + spec_u64_to_le_bytes(x as u64));
            assert(b.subrange(1, 9) =~= spec_u64_to_le_bytes(x as u64));
            assert((x as u64) as i64 == x) by (bit_vector);
        },
        ValueRef::U64(x) => {
            let b = emitted(ps);
            assert(b =~= seq![3u8] + spec_u64_to_le_bytes(x));
            assert(b.subrange(1, 9) =~= spec_u64_to_le_bytes(x));
        },
        ValueRef::F64Bits(x) => {
            let b = emitted(ps);
            assert(b =~= seq![4u8] + spec_u64_to_le_bytes(x));
            assert(b.subrange(1, 9) =~= spec_u64_to_le_bytes(x));
        },
        ValueRef::Str(x) => {
            let d = dynamic_pieces(x.spec_bytes(), limit);
            assert(ps == seq![p_u8(5)] + d);
            assert(ps.drop_last().drop_last() =~= seq![p_u8(5)]);
            assert(emitted(ps.drop_last().drop_last()) =~= seq![5u8]);
            assert(emitted(ps)[0] == 5);
        },
        ValueRef::Debug(x) => {
            assert(ps.drop_last() =~= seq![p_u8(6)]);
            assert(emitted(ps.drop_last()) =~= seq![6u8]);
        },
        ValueRef::Display(x) => {
            assert(ps.drop_last() =~= seq![p_u8(7)]);
            assert(emitted(ps.drop_last()) =~= seq![7u8]);
        },
    }
}

} // verus!
