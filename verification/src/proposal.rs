//! The consensus proposal message, its canonical chain-scoped form, and their
//! exact wire encodings.
//!
//! The byte layout produced here is a fixed interoperability contract: field
//! tags, integer widths and field order must match the historical wire format
//! byte for byte, so every encoder carries a specification that pins the
//! exact byte sequence.

use vstd::prelude::*;

use crate::codec::fld_bytes;
use crate::codec::fld_int64;
use crate::codec::fld_sfixed64;
use crate::codec::fld_uint32;
use crate::codec::msg_field;
use crate::codec::put_bytes_field;
use crate::codec::put_int64_field;
use crate::codec::put_msg_field;
use crate::codec::put_sfixed64_field;
use crate::codec::put_uint32_field;
use crate::codec::put_uvarint;
use crate::codec::put_all;
use crate::codec::uvarint;
use crate::codec::bytes_eq;
use crate::codec::i64_from_bits;
use crate::codec::lemma_peel_int64_field;
use crate::codec::lemma_peel_uint32_field;
use crate::codec::lemma_u64_of_i64_injective;
use crate::codec::starts_not;
use crate::codec::u64_of_i64;
use crate::codec::rd_len_bytes;
use crate::codec::rd_uvarint;

verus! {

/// The kinds of consensus message a validator signs.
#[derive(Clone, Copy, PartialEq, Eq, Structural, Debug)]
pub enum SignedMsgType {
    /// A block proposal.
    Proposal,
    /// A prevote for a block.
    PreVote,
    /// A precommit for a block.
    PreCommit,
}

impl SignedMsgType {
    /// The wire ordinal of this message kind.
    pub open spec fn as_u32(self) -> u32 {
        match self {
            SignedMsgType::Proposal => 0x20,
            SignedMsgType::PreVote => 0x01,
            SignedMsgType::PreCommit => 0x02,
        }
    }

    /// The wire ordinal of this message kind.
    pub fn to_u32(self) -> (r: u32)
        ensures
            r == self.as_u32(),
    {
        match self {
            SignedMsgType::Proposal => 0x20,
            SignedMsgType::PreVote => 0x01,
            SignedMsgType::PreCommit => 0x02,
        }
    }
}

/// A wall-clock instant: seconds and nanoseconds since the Unix epoch.
#[derive(Clone, Copy, PartialEq, Eq, Structural, Debug)]
pub struct TimeMsg {
    /// Whole seconds since the epoch.
    pub seconds: i64,
    /// Additional nanoseconds.
    pub nanos: i32,
}

/// The header of the block parts a proposal refers to.
#[derive(Clone, PartialEq, Debug)]
pub struct PartsSetHeader {
    /// How many parts the block was split into.
    pub total: i64,
    /// The hash over the parts.
    pub hash: Vec<u8>,
}

/// The identifier of the block a message refers to.
#[derive(Clone, PartialEq, Debug)]
pub struct BlockId {
    /// The block hash.
    pub hash: Vec<u8>,
    /// The parts header, when known.
    pub parts_header: Option<PartsSetHeader>,
}

/// The parts header in its canonical form (field order differs from the
/// plain form on the wire).
#[derive(Clone, PartialEq, Debug)]
pub struct CanonicalPartSetHeader {
    /// The hash over the parts.
    pub hash: Vec<u8>,
    /// How many parts the block was split into.
    pub total: i64,
}

/// The block identifier in its canonical form.
#[derive(Clone, PartialEq, Debug)]
pub struct CanonicalBlockId {
    /// The block hash.
    pub hash: Vec<u8>,
    /// The parts header, when known.
    pub parts_header: Option<CanonicalPartSetHeader>,
}

/// A block proposal as received from the validator node; the signature slot
/// starts empty and is filled by the signing pipeline.
#[derive(Clone, PartialEq, Debug)]
pub struct Proposal {
    /// The message kind ordinal; a valid proposal carries the proposal kind.
    pub msg_type: u32,
    /// The block height, non-negative for a valid proposal.
    pub height: i64,
    /// The consensus round, non-negative for a valid proposal.
    pub round: i64,
    /// The proof-of-lock round, `-1` when there is none.
    pub pol_round: i64,
    /// The block this proposal is for.
    pub block_id: Option<BlockId>,
    /// When the proposal was made.
    pub timestamp: Option<TimeMsg>,
    /// The signature over the canonical form; empty until signing succeeds.
    pub signature: Vec<u8>,
}

/// A request that the signer sign one proposal.
#[derive(Clone, PartialEq, Debug)]
pub struct SignProposalRequest {
    /// The proposal to sign; a request without one is rejected.
    pub proposal: Option<Proposal>,
}

/// An error reported back to the validator node in place of a signature.
#[derive(Clone, PartialEq, Debug)]
pub struct RemoteError {
    /// A numeric error class.
    pub code: i32,
    /// A human-readable description.
    pub description: Vec<u8>,
}

/// The answer to a [`SignProposalRequest`]: the proposal with its signature
/// attached, or an error.
#[derive(Clone, PartialEq, Debug)]
pub struct SignedProposalResponse {
    /// The signed proposal, on success.
    pub proposal: Option<Proposal>,
    /// The failure, when signing was refused or failed.
    pub err: Option<RemoteError>,
}

/// The derived, chain-scoped, signature-free projection of a proposal: the
/// structure whose encoding is actually signed.
#[derive(Clone, PartialEq, Debug)]
pub struct CanonicalProposal {
    /// Always the proposal kind ordinal.
    pub msg_type: u32,
    /// The block height.
    pub height: i64,
    /// The consensus round.
    pub round: i64,
    /// The proof-of-lock round.
    pub pol_round: i64,
    /// The block identifier, in canonical field order.
    pub block_id: Option<CanonicalBlockId>,
    /// When the proposal was made.
    pub timestamp: Option<TimeMsg>,
    /// The chain this signature is scoped to.
    pub chain_id: Vec<u8>,
}

/// The wire bytes of a timestamp: seconds then nanoseconds, both varints.
pub open spec fn time_bytes(t: TimeMsg) -> Seq<u8> {
    fld_int64(8, t.seconds) + fld_int64(16, t.nanos as i64)
}

/// The wire bytes of a plain parts header: total then hash.
pub open spec fn parts_bytes(p: PartsSetHeader) -> Seq<u8> {
    fld_int64(8, p.total) + fld_bytes(18, p.hash@)
}

/// The wire bytes of a plain block identifier: hash then parts header.
pub open spec fn block_id_bytes(b: BlockId) -> Seq<u8> {
    fld_bytes(10, b.hash@) + (match b.parts_header {
        Some(p) => msg_field(18, parts_bytes(p)),
        None => Seq::empty(),
    })
}

/// The wire bytes of a canonical parts header: hash then total.
pub open spec fn canonical_parts_bytes(p: CanonicalPartSetHeader) -> Seq<u8> {
    fld_bytes(10, p.hash@) + fld_int64(16, p.total)
}

/// The wire bytes of a canonical block identifier.
pub open spec fn canonical_block_id_bytes(b: CanonicalBlockId) -> Seq<u8> {
    fld_bytes(10, b.hash@) + (match b.parts_header {
        Some(p) => msg_field(18, canonical_parts_bytes(p)),
        None => Seq::empty(),
    })
}

/// The wire bytes of a proposal's field list: varint integers, then the
/// block identifier, timestamp and signature.
pub open spec fn proposal_bytes(p: Proposal) -> Seq<u8> {
    fld_uint32(8, p.msg_type) + fld_int64(16, p.height) + fld_int64(24, p.round) + fld_int64(
        32,
        p.pol_round,
    ) + (match p.block_id {
        Some(b) => msg_field(42, block_id_bytes(b)),
        None => Seq::empty(),
    }) + (match p.timestamp {
        Some(t) => msg_field(50, time_bytes(t)),
        None => Seq::empty(),
    }) + fld_bytes(58, p.signature@)
}

/// The four-byte registration prefix that marks a sign-proposal request on
/// the wire.
pub open spec fn request_prefix() -> Seq<u8> {
    seq![189u8, 228u8, 152u8, 226u8]
}

/// The full framed wire bytes of a sign-proposal request: total length,
/// registration prefix, then the proposal as an embedded message.
pub open spec fn request_bytes(r: SignProposalRequest) -> Seq<u8> {
    let body = match r.proposal {
        Some(p) => msg_field(10, proposal_bytes(p)),
        None => Seq::empty(),
    };
    uvarint((4 + body.len()) as nat) + request_prefix() + body
}

/// The wire bytes of a canonical proposal's field list: fixed-width
/// integers, canonical block identifier, timestamp, then the chain
/// identifier.
pub open spec fn canonical_proposal_bytes(c: CanonicalProposal) -> Seq<u8> {
    fld_uint32(8, c.msg_type) + fld_sfixed64(17, c.height) + fld_sfixed64(25, c.round)
        + fld_sfixed64(33, c.pol_round) + (match c.block_id {
        Some(b) => msg_field(42, canonical_block_id_bytes(b)),
        None => Seq::empty(),
    }) + (match c.timestamp {
        Some(t) => msg_field(50, time_bytes(t)),
        None => Seq::empty(),
    }) + fld_bytes(58, c.chain_id@)
}

/// The canonical field list derived from a plain proposal for `chain`: the
/// message kind pinned to the proposal ordinal, the same ordinal fields, the
/// block identifier in canonical order, and the chain identifier; the
/// signature is stripped.
pub open spec fn canonical_body(p: Proposal, chain: Seq<u8>) -> Seq<u8> {
    fld_uint32(8, 0x20) + fld_sfixed64(17, p.height) + fld_sfixed64(25, p.round) + fld_sfixed64(
        33,
        p.pol_round,
    ) + (match p.block_id {
        Some(b) => msg_field(
            42,
            fld_bytes(10, b.hash@) + (match b.parts_header {
                Some(ph) => msg_field(18, fld_bytes(10, ph.hash@) + fld_int64(16, ph.total)),
                None => Seq::empty(),
            }),
        ),
        None => Seq::empty(),
    }) + (match p.timestamp {
        Some(t) => msg_field(50, time_bytes(t)),
        None => Seq::empty(),
    }) + fld_bytes(58, chain)
}

/// The length-delimited canonical encoding that is signed: the canonical
/// field list prefixed with its own length.
pub open spec fn canonical_sign_bytes(p: Proposal, chain: Seq<u8>) -> Seq<u8> {
    uvarint(canonical_body(p, chain).len()) + canonical_body(p, chain)
}

/// Appends the wire bytes of a timestamp to `buf`.
pub fn encode_time(buf: &mut Vec<u8>, t: &TimeMsg)
    ensures
        final(buf)@ == old(buf)@ + time_bytes(*t),
{
    put_int64_field(buf, 8, t.seconds);
    put_int64_field(buf, 16, t.nanos as i64);
    assert(final(buf)@ =~= old(buf)@ + time_bytes(*t));
}

/// Appends the wire bytes of a plain parts header to `buf`.
pub fn encode_parts(buf: &mut Vec<u8>, p: &PartsSetHeader)
    ensures
        final(buf)@ == old(buf)@ + parts_bytes(*p),
{
    put_int64_field(buf, 8, p.total);
    put_bytes_field(buf, 18, &p.hash);
    assert(final(buf)@ =~= old(buf)@ + parts_bytes(*p));
}

/// Appends the wire bytes of a plain block identifier to `buf`.
pub fn encode_block_id(buf: &mut Vec<u8>, b: &BlockId)
    ensures
        final(buf)@ == old(buf)@ + block_id_bytes(*b),
{
    put_bytes_field(buf, 10, &b.hash);
    match &b.parts_header {
        Some(p) => {
            let mut body: Vec<u8> = Vec::new();
            encode_parts(&mut body, p);
            put_msg_field(buf, 18, &body);
        },
        None => {},
    }
    assert(final(buf)@ =~= old(buf)@ + block_id_bytes(*b));
}

/// Appends the wire bytes of a canonical parts header to `buf`.
pub fn encode_canonical_parts(buf: &mut Vec<u8>, p: &CanonicalPartSetHeader)
    ensures
        final(buf)@ == old(buf)@ + canonical_parts_bytes(*p),
{
    put_bytes_field(buf, 10, &p.hash);
    put_int64_field(buf, 16, p.total);
    assert(final(buf)@ =~= old(buf)@ + canonical_parts_bytes(*p));
}

/// Appends the wire bytes of a canonical block identifier to `buf`.
pub fn encode_canonical_block_id(buf: &mut Vec<u8>, b: &CanonicalBlockId)
    ensures
        final(buf)@ == old(buf)@ + canonical_block_id_bytes(*b),
{
    put_bytes_field(buf, 10, &b.hash);
    match &b.parts_header {
        Some(p) => {
            let mut body: Vec<u8> = Vec::new();
            encode_canonical_parts(&mut body, p);
            put_msg_field(buf, 18, &body);
        },
        None => {},
    }
    assert(final(buf)@ =~= old(buf)@ + canonical_block_id_bytes(*b));
}

/// Appends the wire bytes of a proposal's field list to `buf`.
#[verifier::rlimit(50)]
pub fn encode_proposal(buf: &mut Vec<u8>, p: &Proposal)
    ensures
        final(buf)@ == old(buf)@ + proposal_bytes(*p),
{
    put_uint32_field(buf, 8, p.msg_type);
    put_int64_field(buf, 16, p.height);
    put_int64_field(buf, 24, p.round);
    put_int64_field(buf, 32, p.pol_round);
    match &p.block_id {
        Some(b) => {
            let mut body: Vec<u8> = Vec::new();
            encode_block_id(&mut body, b);
            put_msg_field(buf, 42, &body);
        },
        None => {},
    }
    match &p.timestamp {
        Some(t) => {
            let mut body: Vec<u8> = Vec::new();
            encode_time(&mut body, t);
            put_msg_field(buf, 50, &body);
        },
        None => {},
    }
    put_bytes_field(buf, 58, &p.signature);
    assert(final(buf)@ =~= old(buf)@ + proposal_bytes(*p));
}

/// Appends the wire bytes of a canonical proposal's field list to `buf`.
#[verifier::rlimit(50)]
pub fn encode_canonical_proposal(buf: &mut Vec<u8>, c: &CanonicalProposal)
    ensures
        final(buf)@ == old(buf)@ + canonical_proposal_bytes(*c),
{
    put_uint32_field(buf, 8, c.msg_type);
    put_sfixed64_field(buf, 17, c.height);
    put_sfixed64_field(buf, 25, c.round);
    put_sfixed64_field(buf, 33, c.pol_round);
    match &c.block_id {
        Some(b) => {
            let mut body: Vec<u8> = Vec::new();
            encode_canonical_block_id(&mut body, b);
            put_msg_field(buf, 42, &body);
        },
        None => {},
    }
    match &c.timestamp {
        Some(t) => {
            let mut body: Vec<u8> = Vec::new();
            encode_time(&mut body, t);
            put_msg_field(buf, 50, &body);
        },
        None => {},
    }
    put_bytes_field(buf, 58, &c.chain_id);
    assert(final(buf)@ =~= old(buf)@ + canonical_proposal_bytes(*c));
}

/// A non-empty concatenation begins with its first non-empty part.
proof fn lemma_first_byte_concat(x: Seq<u8>, y: Seq<u8>)
    ensures
        x.len() > 0 ==> (x + y).len() > 0 && (x + y)[0] == x[0],
        x.len() == 0 ==> x + y == y,
{
    if x.len() == 0 {
        assert(x + y =~= y);
    }
}

/// A seven-part concatenation rebracketed from the left to the right.
proof fn lemma_assoc7(
    a: Seq<u8>,
    b: Seq<u8>,
    c: Seq<u8>,
    d: Seq<u8>,
    e: Seq<u8>,
    g: Seq<u8>,
    h: Seq<u8>,
)
    ensures
        (((((a + b) + c) + d) + e) + g) + h == a + (b + (c + (d + (e + (g + h))))),
{
    assert((((((a + b) + c) + d) + e) + g) + h =~= a + (b + (c + (d + (e + (g + h))))));
}

/// Equal proposal encodings carry equal ordinal fields: the field list is
/// read back unambiguously because each field is self-delimiting and every
/// field tag differs from every byte that may follow that field.
#[verifier::rlimit(100)]
proof fn lemma_proposal_bytes_determine_fields(p1: Proposal, p2: Proposal)
    requires
        proposal_bytes(p1) == proposal_bytes(p2),
    ensures
        p1.msg_type == p2.msg_type,
        p1.height == p2.height,
        p1.round == p2.round,
        p1.pol_round == p2.pol_round,
{
    let a1 = fld_uint32(8, p1.msg_type);
    let b1 = fld_int64(16, p1.height);
    let c1 = fld_int64(24, p1.round);
    let d1 = fld_int64(32, p1.pol_round);
    let e1 = match p1.block_id {
        Some(b) => msg_field(42, block_id_bytes(b)),
        None => Seq::<u8>::empty(),
    };
    let g1 = match p1.timestamp {
        Some(t) => msg_field(50, time_bytes(t)),
        None => Seq::<u8>::empty(),
    };
    let h1 = fld_bytes(58, p1.signature@);
    let a2 = fld_uint32(8, p2.msg_type);
    let b2 = fld_int64(16, p2.height);
    let c2 = fld_int64(24, p2.round);
    let d2 = fld_int64(32, p2.pol_round);
    let e2 = match p2.block_id {
        Some(b) => msg_field(42, block_id_bytes(b)),
        None => Seq::<u8>::empty(),
    };
    let g2 = match p2.timestamp {
        Some(t) => msg_field(50, time_bytes(t)),
        None => Seq::<u8>::empty(),
    };
    let h2 = fld_bytes(58, p2.signature@);
    let t4_1 = e1 + (g1 + h1);
    let t3_1 = d1 + t4_1;
    let t2_1 = c1 + t3_1;
    let t1_1 = b1 + t2_1;
    let t4_2 = e2 + (g2 + h2);
    let t3_2 = d2 + t4_2;
    let t2_2 = c2 + t3_2;
    let t1_2 = b2 + t2_2;
    lemma_assoc7(a1, b1, c1, d1, e1, g1, h1);
    lemma_assoc7(a2, b2, c2, d2, e2, g2, h2);
    assert(proposal_bytes(p1) == (((((a1 + b1) + c1) + d1) + e1) + g1) + h1);
    assert(proposal_bytes(p2) == (((((a2 + b2) + c2) + d2) + e2) + g2) + h2);
    lemma_tail_tags(b1, c1, d1, e1, g1, h1);
    lemma_tail_tags(b2, c2, d2, e2, g2, h2);
    lemma_peel_uint32_field(8, p1.msg_type, t1_1, p2.msg_type, t1_2);
    lemma_peel_int64_field(16, p1.height, t2_1, p2.height, t2_2);
    lemma_peel_int64_field(24, p1.round, t3_1, p2.round, t3_2);
    lemma_peel_int64_field(32, p1.pol_round, t4_1, p2.pol_round, t4_2);
}

/// No remainder of a proposal's field list begins with the tag of a field
/// already read: the integer field tags and what may follow them are
/// pairwise distinct bytes.
proof fn lemma_tail_tags(b: Seq<u8>, c: Seq<u8>, d: Seq<u8>, e: Seq<u8>, g: Seq<u8>, h: Seq<u8>)
    requires
        crate::codec::starts_not(b, 8) && (b.len() == 0 || b[0] == 16),
        crate::codec::starts_not(c, 8) && (c.len() == 0 || c[0] == 24),
        crate::codec::starts_not(d, 8) && (d.len() == 0 || d[0] == 32),
        e.len() == 0 || e[0] == 42,
        g.len() == 0 || g[0] == 50,
        h.len() == 0 || h[0] == 58,
    ensures
        crate::codec::starts_not(b + (c + (d + (e + (g + h)))), 8),
        crate::codec::starts_not(c + (d + (e + (g + h))), 16),
        crate::codec::starts_not(d + (e + (g + h)), 24),
        crate::codec::starts_not(e + (g + h), 32),
{
    lemma_first_byte_concat(g, h);
    lemma_first_byte_concat(e, g + h);
    lemma_first_byte_concat(d, e + (g + h));
    lemma_first_byte_concat(c, d + (e + (g + h)));
    lemma_first_byte_concat(b, c + (d + (e + (g + h))));
}

/// Canonical round trip: one byte string is the framed encoding of only one
/// tuple of ordinal fields. Together with the contract of
/// [`SignProposalRequest::decode`] — which accepts a byte string only when
/// it is exactly the encoding of what it returns — decoding the encoding of
/// a request yields a structure equal in all ordinal fields to the
/// original, the stripped signature aside.
pub proof fn lemma_encoding_determines_fields(r1: SignProposalRequest, r2: SignProposalRequest)
    requires
        request_bytes(r1) == request_bytes(r2),
    ensures
        r1.proposal is Some <==> r2.proposal is Some,
        (r1.proposal is Some && r2.proposal is Some) ==> {
            let p1 = r1.proposal->Some_0;
            let p2 = r2.proposal->Some_0;
            p1.msg_type == p2.msg_type && p1.height == p2.height && p1.round == p2.round
                && p1.pol_round == p2.pol_round
        },
{
    let body1 = match r1.proposal {
        Some(p) => msg_field(10, proposal_bytes(p)),
        None => Seq::<u8>::empty(),
    };
    let body2 = match r2.proposal {
        Some(p) => msg_field(10, proposal_bytes(p)),
        None => Seq::<u8>::empty(),
    };
    assert(request_bytes(r1) =~= uvarint((4 + body1.len()) as nat) + (request_prefix() + body1));
    assert(request_bytes(r2) =~= uvarint((4 + body2.len()) as nat) + (request_prefix() + body2));
    crate::codec::lemma_uvarint_peel(
        (4 + body1.len()) as nat,
        request_prefix() + body1,
        (4 + body2.len()) as nat,
        request_prefix() + body2,
    );
    crate::codec::lemma_concat_split(request_prefix(), body1, request_prefix(), body2);
    match (r1.proposal, r2.proposal) {
        (None, None) => {},
        (Some(p1), Some(p2)) => {
            assert(body1 =~= seq![10u8] + (uvarint(proposal_bytes(p1).len()) + proposal_bytes(
                p1,
            )));
            assert(body2 =~= seq![10u8] + (uvarint(proposal_bytes(p2).len()) + proposal_bytes(
                p2,
            )));
            crate::codec::lemma_concat_split(
                seq![10u8],
                uvarint(proposal_bytes(p1).len()) + proposal_bytes(p1),
                seq![10u8],
                uvarint(proposal_bytes(p2).len()) + proposal_bytes(p2),
            );
            crate::codec::lemma_uvarint_peel(
                proposal_bytes(p1).len(),
                proposal_bytes(p1),
                proposal_bytes(p2).len(),
                proposal_bytes(p2),
            );
            lemma_proposal_bytes_determine_fields(p1, p2);
        },
        (Some(_), None) => {
            assert(body1.len() >= 2);
            assert(false);
        },
        (None, Some(_)) => {
            assert(body2.len() >= 2);
            assert(false);
        },
    }
}

/// Why a byte string was refused by the decoder.
#[derive(Clone, Copy, PartialEq, Eq, Structural, Debug)]
pub enum DecodeError {
    /// The input is not the canonical framed encoding of any request.
    Malformed,
}

/// Reads an optional signed varint field with the given tag; an absent
/// field reads as zero. Success is owed wherever the input continues with
/// such a field (present or absent) followed by bytes that cannot be
/// mistaken for it.
fn rd_opt_ivarint_field(data: &Vec<u8>, pos: usize, tag: u8) -> (r: Option<(i64, usize)>)
    requires
        pos <= data@.len(),
    ensures
        r matches Some(p) ==> pos <= p.1 <= data@.len(),
        forall|v: i64, rest: Seq<u8>|
            (data@.skip(pos as int) == fld_int64(tag, v) + rest && starts_not(rest, tag)) ==> (
            r matches Some(p) && p.0 == v && p.1 == pos + fld_int64(tag, v).len()),
{
    if pos < data.len() && data[pos] == tag {
        proof {
            assert(data@.skip(pos as int)[0] == data@[pos as int]);
            assert(data@.skip(pos as int).skip(1) =~= data@.skip(pos + 1));
        }
        match rd_uvarint(data, pos + 1) {
            Some((bits, p2)) => {
                let value = i64_from_bits(bits);
                proof {
                    assert forall|v: i64, rest: Seq<u8>|
                        (data@.skip(pos as int) == fld_int64(tag, v) + rest && starts_not(
                            rest,
                            tag,
                        )) implies value == v && p2 == pos + fld_int64(tag, v).len() by {
                        lemma_nonzero_ivarint_field(data@, pos as int, tag, v, rest);
                        assert(data@.skip(pos + 1) == uvarint(((u64_of_i64(v) as u64)) as nat)
                            + rest);
                        assert(bits as nat == u64_of_i64(v));
                        lemma_u64_of_i64_injective(value, v);
                        assert(p2 == pos + 1 + uvarint(u64_of_i64(v)).len());
                    }
                }
                Some((value, p2))
            },
            None => {
                proof {
                    assert forall|v: i64, rest: Seq<u8>|
                        (data@.skip(pos as int) == fld_int64(tag, v) + rest && starts_not(
                            rest,
                            tag,
                        )) implies false by {
                        lemma_nonzero_ivarint_field(data@, pos as int, tag, v, rest);
                        assert(data@.skip(pos + 1) == uvarint(((u64_of_i64(v) as u64)) as nat)
                            + rest);
                    }
                }
                None
            },
        }
    } else {
        proof {
            assert forall|v: i64, rest: Seq<u8>|
                (data@.skip(pos as int) == fld_int64(tag, v) + rest && starts_not(rest, tag))
                implies v == 0i64 by {
                if v != 0 {
                    assert((fld_int64(tag, v) + rest)[0] == fld_int64(tag, v)[0]);
                    assert(fld_int64(tag, v)[0] == tag);
                    assert(data@.skip(pos as int).len() >= 1);
                    assert(data@.skip(pos as int)[0] == data@[pos as int]);
                }
            }
            assert forall|v: i64, rest: Seq<u8>|
                (data@.skip(pos as int) == fld_int64(tag, v) + rest && starts_not(rest, tag))
                implies fld_int64(tag, v).len() == 0 by {
            }
        }
        Some((0, pos))
    }
}

/// In a taken tag branch, a field-shaped suffix must be a present field: its
/// value is not zero and what follows the tag byte is the value's varint.
proof fn lemma_nonzero_ivarint_field(d: Seq<u8>, pos: int, tag: u8, v: i64, rest: Seq<u8>)
    requires
        0 <= pos < d.len(),
        d.skip(pos) == fld_int64(tag, v) + rest,
        starts_not(rest, tag),
        d[pos] == tag,
    ensures
        v != 0,
        u64_of_i64(v) <= 0xFFFF_FFFF_FFFF_FFFF,
        d.skip(pos + 1) == uvarint(u64_of_i64(v)) + rest,
        fld_int64(tag, v).len() == 1 + uvarint(u64_of_i64(v)).len(),
{
    if v == 0 {
        assert(fld_int64(tag, v) + rest =~= rest);
        assert(d.skip(pos)[0] == d[pos]);
        assert(false);
    }
    assert(d.skip(pos).skip(1) =~= d.skip(pos + 1));
    assert((fld_int64(tag, v) + rest).skip(1) =~= uvarint(u64_of_i64(v)) + rest);
}

/// Reads an optional bytes field with the given tag; an absent field reads
/// as empty. Success is owed as for the varint field.
fn rd_opt_bytes_field(data: &Vec<u8>, pos: usize, tag: u8) -> (r: Option<(Vec<u8>, usize)>)
    requires
        pos <= data@.len(),
    ensures
        r matches Some(p) ==> pos <= p.1 <= data@.len(),
        forall|b: Seq<u8>, rest: Seq<u8>|
            (data@.skip(pos as int) == fld_bytes(tag, b) + rest && starts_not(rest, tag)) ==> (
            r matches Some(p) && p.0@ == b && p.1 == pos + fld_bytes(tag, b).len()),
{
    if pos < data.len() && data[pos] == tag {
        proof {
            assert(data@.skip(pos as int)[0] == data@[pos as int]);
            assert(data@.skip(pos as int).skip(1) =~= data@.skip(pos + 1));
        }
        match rd_len_bytes(data, pos + 1) {
            Some((bv, p2)) => {
                proof {
                    assert forall|b: Seq<u8>, rest: Seq<u8>|
                        (data@.skip(pos as int) == fld_bytes(tag, b) + rest && starts_not(
                            rest,
                            tag,
                        )) implies bv@ == b && p2 == pos + fld_bytes(tag, b).len() by {
                        lemma_nonempty_bytes_field(data@, pos as int, tag, b, rest);
                    }
                }
                Some((bv, p2))
            },
            None => {
                proof {
                    assert forall|b: Seq<u8>, rest: Seq<u8>|
                        (data@.skip(pos as int) == fld_bytes(tag, b) + rest && starts_not(
                            rest,
                            tag,
                        )) implies false by {
                        lemma_nonempty_bytes_field(data@, pos as int, tag, b, rest);
                    }
                }
                None
            },
        }
    } else {
        proof {
            assert forall|b: Seq<u8>, rest: Seq<u8>|
                (data@.skip(pos as int) == fld_bytes(tag, b) + rest && starts_not(rest, tag))
                implies b.len() == 0 && fld_bytes(tag, b).len() == 0 by {
                if b.len() != 0 {
                    assert((fld_bytes(tag, b) + rest)[0] == fld_bytes(tag, b)[0]);
                    assert(fld_bytes(tag, b)[0] == (seq![tag] + uvarint(b.len()) + b)[0]);
                    assert((seq![tag] + uvarint(b.len()) + b)[0] == tag);
                    assert(data@.skip(pos as int).len() >= 1);
                    assert(data@.skip(pos as int)[0] == data@[pos as int]);
                }
            }
        }
        Some((Vec::new(), pos))
    }
}

/// In a taken tag branch, a bytes-field-shaped suffix must be a present
/// field: what follows the tag byte is its length-prefixed body.
proof fn lemma_nonempty_bytes_field(d: Seq<u8>, pos: int, tag: u8, b: Seq<u8>, rest: Seq<u8>)
    requires
        0 <= pos < d.len(),
        d.skip(pos) == fld_bytes(tag, b) + rest,
        starts_not(rest, tag),
        d[pos] == tag,
    ensures
        b.len() != 0,
        d.skip(pos + 1) == uvarint(b.len()) + (b + rest),
        fld_bytes(tag, b).len() == 1 + uvarint(b.len()).len() + b.len(),
{
    if b.len() == 0 {
        assert(fld_bytes(tag, b) + rest =~= rest);
        assert(d.skip(pos)[0] == d[pos]);
        assert(false);
    }
    assert(d.skip(pos).skip(1) =~= d.skip(pos + 1));
    assert((fld_bytes(tag, b) + rest).skip(1) =~= uvarint(b.len()) + (b + rest));
}

/// Whether two parts headers agree in every field.
pub open spec fn same_parts(a: PartsSetHeader, b: PartsSetHeader) -> bool {
    a.total == b.total && a.hash@ == b.hash@
}

/// Whether two block identifiers agree in every field.
pub open spec fn same_block_id(a: BlockId, b: BlockId) -> bool {
    a.hash@ == b.hash@ && match (a.parts_header, b.parts_header) {
        (Option::None, Option::None) => true,
        (Option::Some(x), Option::Some(y)) => same_parts(x, y),
        _ => false,
    }
}

/// Whether two proposals agree in every field.
pub open spec fn same_proposal(a: Proposal, b: Proposal) -> bool {
    a.msg_type == b.msg_type && a.height == b.height && a.round == b.round && a.pol_round
        == b.pol_round && (match (a.block_id, b.block_id) {
        (Option::None, Option::None) => true,
        (Option::Some(x), Option::Some(y)) => same_block_id(x, y),
        _ => false,
    }) && a.timestamp == b.timestamp && a.signature@ == b.signature@
}

/// Proposals that agree in every field have the same wire bytes.
proof fn lemma_same_proposal_bytes(a: Proposal, b: Proposal)
    requires
        same_proposal(a, b),
    ensures
        proposal_bytes(a) == proposal_bytes(b),
{
    match (a.block_id, b.block_id) {
        (Option::Some(x), Option::Some(y)) => {
            assert(block_id_bytes(x) == block_id_bytes(y));
        },
        _ => {},
    }
}

/// Parses the field list of a timestamp; every canonical timestamp body
/// parses back to its fields.
fn parse_time(body: &Vec<u8>) -> (r: Option<TimeMsg>)
    ensures
        forall|t: TimeMsg| body@ == time_bytes(t) ==> r == Some(t),
{
    proof {
        assert(body@.skip(0) =~= body@);
        assert forall|t: TimeMsg| body@ == time_bytes(t) implies body@.skip(0) == fld_int64(
            8,
            t.seconds,
        ) + fld_int64(16, t.nanos as i64) && starts_not(fld_int64(16, t.nanos as i64), 8) by {
            if t.nanos != 0 {
                assert(fld_int64(16, t.nanos as i64)[0] == 16);
            }
        }
    }
    let (seconds, pos) = match rd_opt_ivarint_field(body, 0, 8) {
        Some(x) => x,
        None => {
            return None;
        },
    };
    proof {
        assert forall|t: TimeMsg| body@ == time_bytes(t) implies seconds == t.seconds
            && body@.skip(pos as int) == fld_int64(16, t.nanos as i64) + Seq::<u8>::empty() by {
            assert(body@.skip(fld_int64(8, t.seconds).len() as int) =~= fld_int64(
                16,
                t.nanos as i64,
            ) + Seq::<u8>::empty());
        }
    }
    let (nanos64, pos) = match rd_opt_ivarint_field(body, pos, 16) {
        Some(x) => x,
        None => {
            return None;
        },
    };
    proof {
        assert forall|t: TimeMsg| body@ == time_bytes(t) implies nanos64 == t.nanos as i64 && pos
            == body@.len() by {
            assert(starts_not(Seq::<u8>::empty(), 16));
        }
    }
    if nanos64 < -0x8000_0000i64 || nanos64 > 0x7FFF_FFFFi64 {
        return None;
    }
    if pos != body.len() {
        return None;
    }
    Some(TimeMsg { seconds, nanos: nanos64 as i32 })
}

/// Parses the field list of a plain parts header; every canonical body
/// parses back to its fields.
fn parse_parts(body: &Vec<u8>) -> (r: Option<PartsSetHeader>)
    ensures
        forall|p: PartsSetHeader|
            body@ == parts_bytes(p) ==> (r matches Some(p2) && same_parts(p2, p)),
{
    proof {
        assert(body@.skip(0) =~= body@);
        assert forall|p: PartsSetHeader| body@ == parts_bytes(p) implies body@.skip(0)
            == fld_int64(8, p.total) + fld_bytes(18, p.hash@) && starts_not(
            fld_bytes(18, p.hash@),
            8,
        ) by {
            if p.hash@.len() != 0 {
                assert(fld_bytes(18, p.hash@)[0] == (seq![18u8] + uvarint(p.hash@.len())
                    + p.hash@)[0]);
            }
        }
    }
    let (total, pos) = match rd_opt_ivarint_field(body, 0, 8) {
        Some(x) => x,
        None => {
            return None;
        },
    };
    proof {
        assert forall|p: PartsSetHeader| body@ == parts_bytes(p) implies total == p.total
            && body@.skip(pos as int) == fld_bytes(18, p.hash@) + Seq::<u8>::empty() by {
            assert(body@.skip(fld_int64(8, p.total).len() as int) =~= fld_bytes(18, p.hash@)
                + Seq::<u8>::empty());
        }
    }
    let (hash, pos) = match rd_opt_bytes_field(body, pos, 18) {
        Some(x) => x,
        None => {
            return None;
        },
    };
    proof {
        assert forall|p: PartsSetHeader| body@ == parts_bytes(p) implies hash@ == p.hash@ && pos
            == body@.len() by {
            assert(starts_not(Seq::<u8>::empty(), 18));
        }
    }
    if pos != body.len() {
        return None;
    }
    Some(PartsSetHeader { total, hash })
}

/// Parses the field list of a plain block identifier; every canonical body
/// parses back to its fields.
fn parse_block_id(body: &Vec<u8>) -> (r: Option<BlockId>)
    ensures
        forall|b: BlockId|
            body@ == block_id_bytes(b) ==> (r matches Some(b2) && same_block_id(b2, b)),
{
    proof {
        assert(body@.skip(0) =~= body@);
        assert forall|b: BlockId| body@ == block_id_bytes(b) implies body@.skip(0) == fld_bytes(
            10,
            b.hash@,
        ) + (match b.parts_header {
            Some(p) => msg_field(18, parts_bytes(p)),
            None => Seq::<u8>::empty(),
        }) && starts_not(
            (match b.parts_header {
                Some(p) => msg_field(18, parts_bytes(p)),
                None => Seq::<u8>::empty(),
            }),
            10,
        ) by {
            match b.parts_header {
                Some(p) => {
                    assert(msg_field(18, parts_bytes(p))[0] == 18);
                },
                None => {},
            }
        }
    }
    let (hash, mut pos) = match rd_opt_bytes_field(body, 0, 10) {
        Some(x) => x,
        None => {
            return None;
        },
    };
    proof {
        assert forall|b: BlockId| body@ == block_id_bytes(b) implies hash@ == b.hash@
            && body@.skip(pos as int) == (match b.parts_header {
            Some(p) => msg_field(18, parts_bytes(p)),
            None => Seq::<u8>::empty(),
        }) by {
            assert(body@.skip(fld_bytes(10, b.hash@).len() as int) =~= (match b.parts_header {
                Some(p) => msg_field(18, parts_bytes(p)),
                None => Seq::<u8>::empty(),
            }));
        }
    }
    let mut parts_header: Option<PartsSetHeader> = None;
    if pos < body.len() && body[pos] == 18 {
        proof {
            assert(body@.skip(pos as int)[0] == body@[pos as int]);
            assert(body@.skip(pos as int).skip(1) =~= body@.skip(pos + 1));
            assert forall|b: BlockId| body@ == block_id_bytes(b) implies (b.parts_header
                matches Some(p) && body@.skip(pos + 1) == uvarint(parts_bytes(p).len()) + (
            parts_bytes(p) + Seq::<u8>::empty())) by {
                match b.parts_header {
                    Some(p) => {
                        assert((msg_field(18, parts_bytes(p))).skip(1) =~= uvarint(
                            parts_bytes(p).len(),
                        ) + (parts_bytes(p) + Seq::<u8>::empty()));
                    },
                    None => {
                        assert(body@.skip(pos as int).len() == 0);
                    },
                }
            }
        }
        let (sub, p2) = match rd_len_bytes(body, pos + 1) {
            Some(x) => x,
            None => {
                return None;
            },
        };
        proof {
            assert forall|b: BlockId| body@ == block_id_bytes(b) implies (b.parts_header
                matches Some(p) && sub@ == parts_bytes(p) && p2 == body@.len()) by {
                let p = b.parts_header->Some_0;
                assert(uvarint(parts_bytes(p).len()).len() >= 1);
                assert(p2 == pos + 1 + uvarint(parts_bytes(p).len()).len()
                    + parts_bytes(p).len());
                assert(body@.skip(pos as int).len() == msg_field(18, parts_bytes(p)).len());
            }
        }
        parts_header = match parse_parts(&sub) {
            Some(p) => Some(p),
            None => {
                return None;
            },
        };
        pos = p2;
    } else {
        proof {
            assert forall|b: BlockId| body@ == block_id_bytes(b) implies b.parts_header is None
                && pos == body@.len() by {
                match b.parts_header {
                    Some(p) => {
                        assert(body@.skip(pos as int)[0] == body@[pos as int]);
                        assert(msg_field(18, parts_bytes(p))[0] == 18);
                        assert(body@.skip(pos as int).len() >= 1);
                    },
                    None => {
                        assert(body@.skip(pos as int).len() == 0);
                    },
                }
            }
        }
    }
    if pos != body.len() {
        return None;
    }
    Some(BlockId { hash, parts_header })
}

/// Reads an optional unsigned 32-bit varint field with the given tag; an
/// absent field reads as zero. Success is owed as for the signed field.
fn rd_opt_u32_field(data: &Vec<u8>, pos: usize, tag: u8) -> (r: Option<(u32, usize)>)
    requires
        pos <= data@.len(),
    ensures
        r matches Some(p) ==> pos <= p.1 <= data@.len(),
        forall|v: u32, rest: Seq<u8>|
            (data@.skip(pos as int) == fld_uint32(tag, v) + rest && starts_not(rest, tag)) ==> (
            r matches Some(p) && p.0 == v && p.1 == pos + fld_uint32(tag, v).len()),
{
    if pos < data.len() && data[pos] == tag {
        proof {
            assert(data@.skip(pos as int)[0] == data@[pos as int]);
            assert(data@.skip(pos as int).skip(1) =~= data@.skip(pos + 1));
        }
        match rd_uvarint(data, pos + 1) {
            Some((bits, p2)) => {
                if bits > 0xFFFF_FFFFu64 {
                    proof {
                        assert forall|v: u32, rest: Seq<u8>|
                            (data@.skip(pos as int) == fld_uint32(tag, v) + rest && starts_not(
                                rest,
                                tag,
                            )) implies false by {
                            lemma_nonzero_u32_field(data@, pos as int, tag, v, rest);
                            assert(data@.skip(pos + 1) == uvarint(((v as u64)) as nat) + rest);
                        }
                    }
                    None
                } else {
                    proof {
                        assert forall|v: u32, rest: Seq<u8>|
                            (data@.skip(pos as int) == fld_uint32(tag, v) + rest && starts_not(
                                rest,
                                tag,
                            )) implies bits == v as u64 && p2 == pos + fld_uint32(
                            tag,
                            v,
                        ).len() by {
                            lemma_nonzero_u32_field(data@, pos as int, tag, v, rest);
                            assert(data@.skip(pos + 1) == uvarint(((v as u64)) as nat) + rest);
                            assert(p2 == pos + 1 + uvarint(v as nat).len());
                        }
                    }
                    Some((bits as u32, p2))
                }
            },
            None => {
                proof {
                    assert forall|v: u32, rest: Seq<u8>|
                        (data@.skip(pos as int) == fld_uint32(tag, v) + rest && starts_not(
                            rest,
                            tag,
                        )) implies false by {
                        lemma_nonzero_u32_field(data@, pos as int, tag, v, rest);
                        assert(data@.skip(pos + 1) == uvarint(((v as u64)) as nat) + rest);
                    }
                }
                None
            },
        }
    } else {
        proof {
            assert forall|v: u32, rest: Seq<u8>|
                (data@.skip(pos as int) == fld_uint32(tag, v) + rest && starts_not(rest, tag))
                implies v == 0u32 && fld_uint32(tag, v).len() == 0 by {
                if v != 0 {
                    assert((fld_uint32(tag, v) + rest)[0] == fld_uint32(tag, v)[0]);
                    assert(fld_uint32(tag, v)[0] == tag);
                    assert(data@.skip(pos as int).len() >= 1);
                    assert(data@.skip(pos as int)[0] == data@[pos as int]);
                }
            }
        }
        Some((0, pos))
    }
}

/// In a taken tag branch, an unsigned-field-shaped suffix must be a present
/// field: its value is not zero and what follows the tag byte is its varint.
proof fn lemma_nonzero_u32_field(d: Seq<u8>, pos: int, tag: u8, v: u32, rest: Seq<u8>)
    requires
        0 <= pos < d.len(),
        d.skip(pos) == fld_uint32(tag, v) + rest,
        starts_not(rest, tag),
        d[pos] == tag,
    ensures
        v != 0,
        d.skip(pos + 1) == uvarint(v as nat) + rest,
        fld_uint32(tag, v).len() == 1 + uvarint(v as nat).len(),
{
    if v == 0 {
        assert(fld_uint32(tag, v) + rest =~= rest);
        assert(d.skip(pos)[0] == d[pos]);
        assert(false);
    }
    assert(d.skip(pos).skip(1) =~= d.skip(pos + 1));
    assert((fld_uint32(tag, v) + rest).skip(1) =~= uvarint(v as nat) + rest);
}

/// The wire bytes of an optional block-identifier field.
spec fn opt_block_bytes(ob: Option<BlockId>) -> Seq<u8> {
    match ob {
        Some(b) => msg_field(42, block_id_bytes(b)),
        None => Seq::empty(),
    }
}

/// The wire bytes of an optional timestamp field.
spec fn opt_time_bytes(ot: Option<TimeMsg>) -> Seq<u8> {
    match ot {
        Some(t) => msg_field(50, time_bytes(t)),
        None => Seq::empty(),
    }
}

/// What follows the proof-of-lock field in a proposal's field list.
spec fn tail_after_pol(p: Proposal) -> Seq<u8> {
    opt_block_bytes(p.block_id) + (opt_time_bytes(p.timestamp) + fld_bytes(58, p.signature@))
}

/// What follows the round field.
spec fn tail_after_round(p: Proposal) -> Seq<u8> {
    fld_int64(32, p.pol_round) + tail_after_pol(p)
}

/// What follows the height field.
spec fn tail_after_height(p: Proposal) -> Seq<u8> {
    fld_int64(24, p.round) + tail_after_round(p)
}

/// What follows the message-kind field.
spec fn tail_after_msg_type(p: Proposal) -> Seq<u8> {
    fld_int64(16, p.height) + tail_after_height(p)
}

/// A proposal's field list rebracketed field by field, with the tag facts
/// that let each field be read back unambiguously.
proof fn lemma_proposal_shape(p: Proposal)
    ensures
        proposal_bytes(p) == fld_uint32(8, p.msg_type) + tail_after_msg_type(p),
        starts_not(tail_after_msg_type(p), 8),
        starts_not(tail_after_height(p), 16),
        starts_not(tail_after_round(p), 24),
        starts_not(tail_after_pol(p), 32),
        starts_not(opt_time_bytes(p.timestamp) + fld_bytes(58, p.signature@), 42),
        starts_not(fld_bytes(58, p.signature@), 50),
{
    let a = fld_uint32(8, p.msg_type);
    let b = fld_int64(16, p.height);
    let c = fld_int64(24, p.round);
    let d = fld_int64(32, p.pol_round);
    let e = opt_block_bytes(p.block_id);
    let g = opt_time_bytes(p.timestamp);
    let h = fld_bytes(58, p.signature@);
    lemma_assoc7(a, b, c, d, e, g, h);
    assert(proposal_bytes(p) == (((((a + b) + c) + d) + e) + g) + h);
    if p.height != 0 {
        assert(b[0] == 16);
    }
    if p.round != 0 {
        assert(c[0] == 24);
    }
    if p.pol_round != 0 {
        assert(d[0] == 32);
    }
    match p.block_id {
        Some(bid) => {
            assert(e[0] == 42);
        },
        None => {},
    }
    match p.timestamp {
        Some(t) => {
            assert(g[0] == 50);
        },
        None => {},
    }
    if p.signature@.len() != 0 {
        assert(h[0] == (seq![58u8] + uvarint(p.signature@.len()) + p.signature@)[0]);
    }
    lemma_tail_tags(b, c, d, e, g, h);
    lemma_first_byte_concat(g, h);
}

/// Splitting a proposal's field list after the message-kind field.
proof fn lemma_prop_skip1(p: Proposal)
    ensures
        proposal_bytes(p).skip(fld_uint32(8, p.msg_type).len() as int) == fld_int64(
            16,
            p.height,
        ) + tail_after_height(p),
        starts_not(tail_after_height(p), 16),
{
    lemma_proposal_shape(p);
    assert(proposal_bytes(p).skip(fld_uint32(8, p.msg_type).len() as int)
        =~= tail_after_msg_type(p));
}

/// Splitting a proposal's field list after the height field.
proof fn lemma_prop_skip2(p: Proposal)
    ensures
        proposal_bytes(p).skip(
            (fld_uint32(8, p.msg_type).len() + fld_int64(16, p.height).len()) as int,
        ) == fld_int64(24, p.round) + tail_after_round(p),
        starts_not(tail_after_round(p), 24),
{
    lemma_proposal_shape(p);
    assert(proposal_bytes(p).skip(
        (fld_uint32(8, p.msg_type).len() + fld_int64(16, p.height).len()) as int,
    ) =~= tail_after_height(p));
}

/// Splitting a proposal's field list after the round field.
proof fn lemma_prop_skip3(p: Proposal)
    ensures
        proposal_bytes(p).skip(
            (fld_uint32(8, p.msg_type).len() + fld_int64(16, p.height).len() + fld_int64(
                24,
                p.round,
            ).len()) as int,
        ) == fld_int64(32, p.pol_round) + tail_after_pol(p),
        starts_not(tail_after_pol(p), 32),
{
    lemma_proposal_shape(p);
    assert(proposal_bytes(p).skip(
        (fld_uint32(8, p.msg_type).len() + fld_int64(16, p.height).len() + fld_int64(
            24,
            p.round,
        ).len()) as int,
    ) =~= tail_after_round(p));
}

/// Splitting a proposal's field list after the proof-of-lock field.
proof fn lemma_prop_skip4(p: Proposal)
    ensures
        proposal_bytes(p).skip(
            (fld_uint32(8, p.msg_type).len() + fld_int64(16, p.height).len() + fld_int64(
                24,
                p.round,
            ).len() + fld_int64(32, p.pol_round).len()) as int,
        ) == opt_block_bytes(p.block_id) + (opt_time_bytes(p.timestamp) + fld_bytes(
            58,
            p.signature@,
        )),
        starts_not(opt_time_bytes(p.timestamp) + fld_bytes(58, p.signature@), 42),
{
    lemma_proposal_shape(p);
    assert(proposal_bytes(p).skip(
        (fld_uint32(8, p.msg_type).len() + fld_int64(16, p.height).len() + fld_int64(
            24,
            p.round,
        ).len() + fld_int64(32, p.pol_round).len()) as int,
    ) =~= tail_after_pol(p));
}

/// Splitting a proposal's field list after the block-identifier field.
proof fn lemma_prop_skip5(p: Proposal)
    ensures
        proposal_bytes(p).skip(
            (fld_uint32(8, p.msg_type).len() + fld_int64(16, p.height).len() + fld_int64(
                24,
                p.round,
            ).len() + fld_int64(32, p.pol_round).len() + opt_block_bytes(
                p.block_id,
            ).len()) as int,
        ) == opt_time_bytes(p.timestamp) + fld_bytes(58, p.signature@),
        starts_not(fld_bytes(58, p.signature@), 50),
{
    lemma_proposal_shape(p);
    assert(proposal_bytes(p).skip(
        (fld_uint32(8, p.msg_type).len() + fld_int64(16, p.height).len() + fld_int64(
            24,
            p.round,
        ).len() + fld_int64(32, p.pol_round).len() + opt_block_bytes(p.block_id).len()) as int,
    ) =~= opt_time_bytes(p.timestamp) + fld_bytes(58, p.signature@));
}

/// Splitting a proposal's field list after the timestamp field.
proof fn lemma_prop_skip6(p: Proposal)
    ensures
        proposal_bytes(p).skip(
            (fld_uint32(8, p.msg_type).len() + fld_int64(16, p.height).len() + fld_int64(
                24,
                p.round,
            ).len() + fld_int64(32, p.pol_round).len() + opt_block_bytes(p.block_id).len()
                + opt_time_bytes(p.timestamp).len()) as int,
        ) == fld_bytes(58, p.signature@) + Seq::<u8>::empty(),
        starts_not(Seq::<u8>::empty(), 58),
        proposal_bytes(p).len() == fld_uint32(8, p.msg_type).len() + fld_int64(
            16,
            p.height,
        ).len() + fld_int64(24, p.round).len() + fld_int64(32, p.pol_round).len()
            + opt_block_bytes(p.block_id).len() + opt_time_bytes(p.timestamp).len() + fld_bytes(
            58,
            p.signature@,
        ).len(),
{
    lemma_proposal_shape(p);
    assert(proposal_bytes(p).skip(
        (fld_uint32(8, p.msg_type).len() + fld_int64(16, p.height).len() + fld_int64(
            24,
            p.round,
        ).len() + fld_int64(32, p.pol_round).len() + opt_block_bytes(p.block_id).len()
            + opt_time_bytes(p.timestamp).len()) as int,
    ) =~= fld_bytes(58, p.signature@) + Seq::<u8>::empty());
}

/// Reads an optional block-identifier field; an absent field reads as none.
/// Success is owed wherever the input continues with such a field followed
/// by bytes that cannot be mistaken for it.
fn rd_opt_block_field(data: &Vec<u8>, pos: usize) -> (r: Option<(Option<BlockId>, usize)>)
    requires
        pos <= data@.len(),
    ensures
        r matches Some(p) ==> pos <= p.1 <= data@.len(),
        forall|ob: Option<BlockId>, rest: Seq<u8>|
            (data@.skip(pos as int) == opt_block_bytes(ob) + rest && starts_not(rest, 42)) ==> (
            r matches Some(pr) && (match (pr.0, ob) {
                (Option::None, Option::None) => true,
                (Option::Some(x), Option::Some(y)) => same_block_id(x, y),
                _ => false,
            }) && pr.1 == pos + opt_block_bytes(ob).len()),
{
    if pos < data.len() && data[pos] == 42 {
        proof {
            assert(data@.skip(pos as int)[0] == data@[pos as int]);
            assert(data@.skip(pos as int).skip(1) =~= data@.skip(pos + 1));
            assert forall|ob: Option<BlockId>, rest: Seq<u8>|
                (data@.skip(pos as int) == opt_block_bytes(ob) + rest && starts_not(rest, 42))
                implies (ob matches Some(bid) && data@.skip(pos + 1) == uvarint(
                block_id_bytes(bid).len(),
            ) + (block_id_bytes(bid) + rest)) by {
                match ob {
                    Some(bid) => {
                        assert((opt_block_bytes(ob) + rest).skip(1) =~= uvarint(
                            block_id_bytes(bid).len(),
                        ) + (block_id_bytes(bid) + rest));
                    },
                    None => {
                        assert(opt_block_bytes(ob) + rest =~= rest);
                    },
                }
            }
        }
        let (sub, p2) = match rd_len_bytes(data, pos + 1) {
            Some(x) => x,
            None => {
                return None;
            },
        };
        let parsed = match parse_block_id(&sub) {
            Some(x) => x,
            None => {
                proof {
                    assert forall|ob: Option<BlockId>, rest: Seq<u8>|
                        (data@.skip(pos as int) == opt_block_bytes(ob) + rest && starts_not(
                            rest,
                            42,
                        )) implies false by {
                        let bid = ob->Some_0;
                        assert(sub@ == block_id_bytes(bid));
                    }
                }
                return None;
            },
        };
        proof {
            assert forall|ob: Option<BlockId>, rest: Seq<u8>|
                (data@.skip(pos as int) == opt_block_bytes(ob) + rest && starts_not(rest, 42))
                implies (ob matches Some(bid) && same_block_id(parsed, bid) && p2 == pos
                + opt_block_bytes(ob).len()) by {
                let bid = ob->Some_0;
                assert(sub@ == block_id_bytes(bid));
                assert(uvarint(block_id_bytes(bid).len()).len() >= 1);
                assert(p2 == pos + 1 + uvarint(block_id_bytes(bid).len()).len()
                    + block_id_bytes(bid).len());
            }
        }
        Some((Some(parsed), p2))
    } else {
        proof {
            assert forall|ob: Option<BlockId>, rest: Seq<u8>|
                (data@.skip(pos as int) == opt_block_bytes(ob) + rest && starts_not(rest, 42))
                implies ob is None && opt_block_bytes(ob).len() == 0 by {
                match ob {
                    Some(bid) => {
                        assert((opt_block_bytes(ob) + rest)[0] == opt_block_bytes(ob)[0]);
                        assert(opt_block_bytes(ob)[0] == 42);
                        assert(data@.skip(pos as int).len() >= 1);
                        assert(data@.skip(pos as int)[0] == data@[pos as int]);
                    },
                    None => {},
                }
            }
        }
        Some((None, pos))
    }
}

/// Reads an optional timestamp field; an absent field reads as none.
/// Success is owed as for the block-identifier field.
fn rd_opt_time_field(data: &Vec<u8>, pos: usize) -> (r: Option<(Option<TimeMsg>, usize)>)
    requires
        pos <= data@.len(),
    ensures
        r matches Some(p) ==> pos <= p.1 <= data@.len(),
        forall|ot: Option<TimeMsg>, rest: Seq<u8>|
            (data@.skip(pos as int) == opt_time_bytes(ot) + rest && starts_not(rest, 50)) ==> (
            r matches Some(pr) && pr.0 == ot && pr.1 == pos + opt_time_bytes(ot).len()),
{
    if pos < data.len() && data[pos] == 50 {
        proof {
            assert(data@.skip(pos as int)[0] == data@[pos as int]);
            assert(data@.skip(pos as int).skip(1) =~= data@.skip(pos + 1));
            assert forall|ot: Option<TimeMsg>, rest: Seq<u8>|
                (data@.skip(pos as int) == opt_time_bytes(ot) + rest && starts_not(rest, 50))
                implies (ot matches Some(t) && data@.skip(pos + 1) == uvarint(
                time_bytes(t).len(),
            ) + (time_bytes(t) + rest)) by {
                match ot {
                    Some(t) => {
                        assert((opt_time_bytes(ot) + rest).skip(1) =~= uvarint(
                            time_bytes(t).len(),
                        ) + (time_bytes(t) + rest));
                    },
                    None => {
                        assert(opt_time_bytes(ot) + rest =~= rest);
                    },
                }
            }
        }
        let (sub, p2) = match rd_len_bytes(data, pos + 1) {
            Some(x) => x,
            None => {
                return None;
            },
        };
        let parsed = match parse_time(&sub) {
            Some(x) => x,
            None => {
                proof {
                    assert forall|ot: Option<TimeMsg>, rest: Seq<u8>|
                        (data@.skip(pos as int) == opt_time_bytes(ot) + rest && starts_not(
                            rest,
                            50,
                        )) implies false by {
                        let t = ot->Some_0;
                        assert(sub@ == time_bytes(t));
                    }
                }
                return None;
            },
        };
        proof {
            assert forall|ot: Option<TimeMsg>, rest: Seq<u8>|
                (data@.skip(pos as int) == opt_time_bytes(ot) + rest && starts_not(rest, 50))
                implies (ot == Some(parsed) && p2 == pos + opt_time_bytes(ot).len()) by {
                let t = ot->Some_0;
                assert(sub@ == time_bytes(t));
                assert(parsed == t);
                assert(uvarint(time_bytes(t).len()).len() >= 1);
                assert(p2 == pos + 1 + uvarint(time_bytes(t).len()).len() + time_bytes(t).len());
            }
        }
        Some((Some(parsed), p2))
    } else {
        proof {
            assert forall|ot: Option<TimeMsg>, rest: Seq<u8>|
                (data@.skip(pos as int) == opt_time_bytes(ot) + rest && starts_not(rest, 50))
                implies ot is None && opt_time_bytes(ot).len() == 0 by {
                match ot {
                    Some(t) => {
                        assert((opt_time_bytes(ot) + rest)[0] == opt_time_bytes(ot)[0]);
                        assert(opt_time_bytes(ot)[0] == 50);
                        assert(data@.skip(pos as int).len() >= 1);
                        assert(data@.skip(pos as int)[0] == data@[pos as int]);
                    },
                    None => {},
                }
            }
        }
        Some((None, pos))
    }
}

/// Parses the field list of a proposal; every canonical body parses back to
/// its fields.
#[verifier::rlimit(100)]
fn parse_proposal(body: &Vec<u8>) -> (r: Option<Proposal>)
    ensures
        forall|p: Proposal|
            body@ == proposal_bytes(p) ==> (r matches Some(p2) && same_proposal(p2, p)),
{
    proof {
        assert(body@.skip(0) =~= body@);
        assert forall|p: Proposal| body@ == proposal_bytes(p) implies body@.skip(0) == fld_uint32(
            8,
            p.msg_type,
        ) + tail_after_msg_type(p) && starts_not(tail_after_msg_type(p), 8) by {
            lemma_proposal_shape(p);
        }
    }
    let (msg_type, pos) = match rd_opt_u32_field(body, 0, 8) {
        Some(x) => x,
        None => {
            return None;
        },
    };
    proof {
        assert forall|p: Proposal| body@ == proposal_bytes(p) implies msg_type == p.msg_type
            && body@.skip(pos as int) == fld_int64(16, p.height) + tail_after_height(p)
            && starts_not(tail_after_height(p), 16) by {
            lemma_prop_skip1(p);
        }
    }
    let (height, pos) = match rd_opt_ivarint_field(body, pos, 16) {
        Some(x) => x,
        None => {
            return None;
        },
    };
    proof {
        assert forall|p: Proposal| body@ == proposal_bytes(p) implies height == p.height
            && body@.skip(pos as int) == fld_int64(24, p.round) + tail_after_round(p)
            && starts_not(tail_after_round(p), 24) by {
            lemma_prop_skip2(p);
        }
    }
    let (round, pos) = match rd_opt_ivarint_field(body, pos, 24) {
        Some(x) => x,
        None => {
            return None;
        },
    };
    proof {
        assert forall|p: Proposal| body@ == proposal_bytes(p) implies round == p.round
            && body@.skip(pos as int) == fld_int64(32, p.pol_round) + tail_after_pol(p)
            && starts_not(tail_after_pol(p), 32) by {
            lemma_prop_skip3(p);
        }
    }
    let (pol_round, pos) = match rd_opt_ivarint_field(body, pos, 32) {
        Some(x) => x,
        None => {
            return None;
        },
    };
    proof {
        assert forall|p: Proposal| body@ == proposal_bytes(p) implies pol_round == p.pol_round
            && body@.skip(pos as int) == opt_block_bytes(p.block_id) + (opt_time_bytes(
            p.timestamp,
        ) + fld_bytes(58, p.signature@)) && starts_not(
            opt_time_bytes(p.timestamp) + fld_bytes(58, p.signature@),
            42,
        ) by {
            lemma_prop_skip4(p);
        }
    }
    let (block_id, pos) = match rd_opt_block_field(body, pos) {
        Some(x) => x,
        None => {
            return None;
        },
    };
    proof {
        assert forall|p: Proposal| body@ == proposal_bytes(p) implies (match (
            block_id,
            p.block_id,
        ) {
            (Option::None, Option::None) => true,
            (Option::Some(x), Option::Some(y)) => same_block_id(x, y),
            _ => false,
        }) && body@.skip(pos as int) == opt_time_bytes(p.timestamp) + fld_bytes(
            58,
            p.signature@,
        ) && starts_not(fld_bytes(58, p.signature@), 50) by {
            lemma_prop_skip5(p);
        }
    }
    let (timestamp, pos) = match rd_opt_time_field(body, pos) {
        Some(x) => x,
        None => {
            return None;
        },
    };
    proof {
        assert forall|p: Proposal| body@ == proposal_bytes(p) implies timestamp == p.timestamp
            && body@.skip(pos as int) == fld_bytes(58, p.signature@) + Seq::<u8>::empty()
            && starts_not(Seq::<u8>::empty(), 58) by {
            lemma_prop_skip6(p);
        }
    }
    let (signature, pos) = match rd_opt_bytes_field(body, pos, 58) {
        Some(x) => x,
        None => {
            return None;
        },
    };
    proof {
        assert forall|p: Proposal| body@ == proposal_bytes(p) implies signature@ == p.signature@
            && pos == body@.len() by {
            lemma_prop_skip6(p);
        }
    }
    if pos != body.len() {
        return None;
    }
    Some(Proposal { msg_type, height, round, pol_round, block_id, timestamp, signature })
}

/// The proposal field of a framed request, absent when there is none.
spec fn req_body(m: SignProposalRequest) -> Seq<u8> {
    match m.proposal {
        Some(p) => msg_field(10, proposal_bytes(p)),
        None => Seq::empty(),
    }
}

/// A framed request rebracketed: length varint, then prefix and body.
proof fn lemma_request_shape(m: SignProposalRequest)
    ensures
        request_bytes(m) == uvarint((4 + req_body(m).len()) as nat) + (request_prefix()
            + req_body(m)),
        request_bytes(m).skip(uvarint((4 + req_body(m).len()) as nat).len() as int)
            == request_prefix() + req_body(m),
        request_bytes(m).skip(
            (uvarint((4 + req_body(m).len()) as nat).len() + 4) as int,
        ) == req_body(m),
{
    assert(request_bytes(m) =~= uvarint((4 + req_body(m).len()) as nat) + (request_prefix()
        + req_body(m)));
    assert(request_bytes(m).skip(uvarint((4 + req_body(m).len()) as nat).len() as int)
        =~= request_prefix() + req_body(m));
    assert(request_bytes(m).skip((uvarint((4 + req_body(m).len()) as nat).len() + 4) as int)
        =~= req_body(m));
}

/// Requests that agree in every field have the same wire bytes.
proof fn lemma_same_request_bytes(a: SignProposalRequest, b: SignProposalRequest)
    requires
        match (a.proposal, b.proposal) {
            (Option::None, Option::None) => true,
            (Option::Some(x), Option::Some(y)) => same_proposal(x, y),
            _ => false,
        },
    ensures
        request_bytes(a) == request_bytes(b),
{
    match (a.proposal, b.proposal) {
        (Option::Some(x), Option::Some(y)) => {
            lemma_same_proposal_bytes(x, y);
        },
        _ => {},
    }
}

/// Parses a framed request: length, registration prefix, then the proposal.
/// Every canonical framed encoding parses back to its fields.
#[verifier::rlimit(100)]
fn parse_request(data: &Vec<u8>) -> (r: Option<SignProposalRequest>)
    ensures
        forall|m: SignProposalRequest|
            data@ == request_bytes(m) ==> (r matches Some(m2) && (match (m2.proposal, m.proposal) {
                (Option::None, Option::None) => true,
                (Option::Some(a), Option::Some(b)) => same_proposal(a, b),
                _ => false,
            })),
{
    let total = data.len();
    proof {
        assert(data@.skip(0) =~= data@);
        assert forall|m: SignProposalRequest| data@ == request_bytes(m) implies data@.skip(0)
            == uvarint(((4 + req_body(m).len()) as u64) as nat) + (request_prefix() + req_body(
            m,
        )) && req_body(m).len() + 4 <= total by {
            lemma_request_shape(m);
            assert(uvarint((4 + req_body(m).len()) as nat).len() >= 1);
        }
    }
    let (framed_len, pos) = match rd_uvarint(data, 0) {
        Some(x) => x,
        None => {
            return None;
        },
    };
    proof {
        assert forall|m: SignProposalRequest| data@ == request_bytes(m) implies framed_len == 4
            + req_body(m).len() && pos + 4 + req_body(m).len() == data@.len() && data@.skip(
            pos as int,
        ) == request_prefix() + req_body(m) && data@.skip(pos + 4) == req_body(m) by {
            lemma_request_shape(m);
            assert(uvarint((4 + req_body(m).len()) as nat).len() >= 1);
        }
    }
    if (data.len() - pos) as u64 != framed_len {
        return None;
    }
    if data.len() - pos < 4 {
        return None;
    }
    proof {
        assert forall|m: SignProposalRequest| data@ == request_bytes(m) implies data@[pos as int]
            == 189 && data@[pos + 1] == 228 && data@[pos + 2] == 152 && data@[pos + 3] == 226 by {
            assert((request_prefix() + req_body(m))[0] == 189);
            assert((request_prefix() + req_body(m))[1] == 228);
            assert((request_prefix() + req_body(m))[2] == 152);
            assert((request_prefix() + req_body(m))[3] == 226);
            assert(data@.skip(pos as int)[0] == data@[pos as int]);
            assert(data@.skip(pos as int)[1] == data@[pos + 1]);
            assert(data@.skip(pos as int)[2] == data@[pos + 2]);
            assert(data@.skip(pos as int)[3] == data@[pos + 3]);
        }
    }
    if data[pos] != 189 || data[pos + 1] != 228 || data[pos + 2] != 152 || data[pos + 3] != 226 {
        return None;
    }
    let pos = pos + 4;
    let mut proposal: Option<Proposal> = None;
    if pos < data.len() && data[pos] == 10 {
        proof {
            assert(data@.skip(pos as int)[0] == data@[pos as int]);
            assert(data@.skip(pos as int).skip(1) =~= data@.skip(pos + 1));
            assert forall|m: SignProposalRequest| data@ == request_bytes(m) implies (m.proposal
                matches Some(p) && data@.skip(pos + 1) == uvarint(proposal_bytes(p).len()) + (
            proposal_bytes(p) + Seq::<u8>::empty())) by {
                match m.proposal {
                    Some(p) => {
                        assert((msg_field(10, proposal_bytes(p))).skip(1) =~= uvarint(
                            proposal_bytes(p).len(),
                        ) + (proposal_bytes(p) + Seq::<u8>::empty()));
                    },
                    None => {
                        assert(data@.skip(pos as int).len() == 0);
                    },
                }
            }
        }
        let (sub, p2) = match rd_len_bytes(data, pos + 1) {
            Some(x) => x,
            None => {
                return None;
            },
        };
        proof {
            assert forall|m: SignProposalRequest| data@ == request_bytes(m) implies (m.proposal
                matches Some(p) && sub@ == proposal_bytes(p) && p2 == data@.len()) by {
                let p = m.proposal->Some_0;
                assert(uvarint(proposal_bytes(p).len()).len() >= 1);
                assert(p2 == pos + 1 + uvarint(proposal_bytes(p).len()).len() + proposal_bytes(
                    p,
                ).len());
                assert(data@.skip(pos as int).len() == msg_field(10, proposal_bytes(p)).len());
            }
        }
        proposal = match parse_proposal(&sub) {
            Some(x) => Some(x),
            None => {
                return None;
            },
        };
        let pos = p2;
        if pos != data.len() {
            return None;
        }
    } else {
        proof {
            assert forall|m: SignProposalRequest| data@ == request_bytes(m) implies m.proposal
                is None && pos == data@.len() by {
                match m.proposal {
                    Some(p) => {
                        assert(data@.skip(pos as int)[0] == data@[pos as int]);
                        assert(msg_field(10, proposal_bytes(p))[0] == 10);
                        assert(data@.skip(pos as int).len() >= 1);
                    },
                    None => {
                        assert(data@.skip(pos as int).len() == 0);
                    },
                }
            }
        }
        if pos != data.len() {
            return None;
        }
    }
    Some(SignProposalRequest { proposal })
}

impl Proposal {
    /// The chain-scoped canonical form of this proposal: the signature is
    /// stripped, the message kind is pinned to the proposal ordinal, the
    /// block identifier changes to canonical field order, and the chain
    /// identifier is embedded.
    pub fn canonicalize(&self, chain_id: &Vec<u8>) -> (c: CanonicalProposal)
        ensures
            canonical_proposal_bytes(c) == canonical_body(*self, chain_id@),
            c.msg_type == 0x20u32,
            c.height == self.height,
            c.round == self.round,
            c.pol_round == self.pol_round,
            c.chain_id@ == chain_id@,
    {
        let block_id = match &self.block_id {
            Some(b) => Some(
                CanonicalBlockId {
                    hash: b.hash.clone(),
                    parts_header: match &b.parts_header {
                        Some(p) => Some(
                            CanonicalPartSetHeader { hash: p.hash.clone(), total: p.total },
                        ),
                        None => None,
                    },
                },
            ),
            None => None,
        };
        let c = CanonicalProposal {
            msg_type: SignedMsgType::Proposal.to_u32(),
            height: self.height,
            round: self.round,
            pol_round: self.pol_round,
            block_id,
            timestamp: self.timestamp,
            chain_id: chain_id.clone(),
        };
        assert(canonical_proposal_bytes(c) =~= canonical_body(*self, chain_id@));
        c
    }

    /// The block height as an unsigned value; a negative height has no such
    /// reading and is refused.
    pub fn parse_block_height(&self) -> (r: Option<u64>)
        ensures
            r matches Some(h) ==> self.height >= 0 && h == self.height,
            r is None <==> self.height < 0,
    {
        if self.height >= 0 {
            Some(self.height as u64)
        } else {
            None
        }
    }
}

impl SignProposalRequest {
    /// Appends the full framed wire encoding of this request to `buf`.
    pub fn encode(&self, buf: &mut Vec<u8>)
        ensures
            final(buf)@ == old(buf)@ + request_bytes(*self),
    {
        let mut framed: Vec<u8> = Vec::new();
        framed.push(189);
        framed.push(228);
        framed.push(152);
        framed.push(226);
        match &self.proposal {
            Some(p) => {
                let mut body: Vec<u8> = Vec::new();
                encode_proposal(&mut body, p);
                put_msg_field(&mut framed, 10, &body);
            },
            None => {},
        }
        put_uvarint(buf, framed.len() as u64);
        put_all(buf, &framed);
        assert(final(buf)@ =~= old(buf)@ + request_bytes(*self));
    }

    /// Appends the canonical, chain-scoped encoding of the carried proposal
    /// to `buf`: this is the exact byte string that is signed.
    pub fn sign_bytes(&self, chain_id: &Vec<u8>, buf: &mut Vec<u8>)
        requires
            self.proposal is Some,
        ensures
            final(buf)@ == old(buf)@ + canonical_sign_bytes(self.proposal->Some_0, chain_id@),
    {
        let p = match &self.proposal {
            Some(p) => p,
            None => vstd::pervasive::unreached(),
        };
        let c = p.canonicalize(chain_id);
        let mut body: Vec<u8> = Vec::new();
        encode_canonical_proposal(&mut body, &c);
        put_uvarint(buf, body.len() as u64);
        put_all(buf, &body);
        assert(final(buf)@ =~= old(buf)@ + canonical_sign_bytes(self.proposal->Some_0, chain_id@));
    }

    /// Decodes a framed request from `data`. Decoding is strict: a request
    /// is returned only when `data` is, byte for byte, the canonical framed
    /// encoding of that request, so every accepted input re-encodes to
    /// itself. Success is owed: the canonical encoding of any request
    /// decodes.
    pub fn decode(data: &Vec<u8>) -> (r: Result<SignProposalRequest, DecodeError>)
        ensures
            r matches Ok(m) ==> data@ == request_bytes(m),
            forall|m: SignProposalRequest| data@ == request_bytes(m) ==> r is Ok,
    {
        let parsed = match parse_request(data) {
            Some(m) => m,
            None => {
                return Err(DecodeError::Malformed);
            },
        };
        let mut reencoded: Vec<u8> = Vec::new();
        parsed.encode(&mut reencoded);
        proof {
            assert(reencoded@ =~= request_bytes(parsed));
            assert forall|m: SignProposalRequest| data@ == request_bytes(m) implies reencoded@
                == data@ by {
                lemma_same_request_bytes(parsed, m);
            }
        }
        if bytes_eq(&reencoded, data) {
            Ok(parsed)
        } else {
            Err(DecodeError::Malformed)
        }
    }

    /// Stores `sig` in the carried proposal's signature slot; a request
    /// without a proposal is left unchanged.
    pub fn set_signature(&mut self, sig: &Vec<u8>)
        ensures
            match old(self).proposal {
                None => final(self).proposal is None,
                Some(p0) => final(self).proposal matches Some(p) && p.msg_type == p0.msg_type
                    && p.height == p0.height && p.round == p0.round && p.pol_round == p0.pol_round
                    && p.block_id == p0.block_id && p.timestamp == p0.timestamp && p.signature@
                    == sig@,
            },
    {
        match &mut self.proposal {
            Some(p) => {
                p.signature = sig.clone();
            },
            None => {},
        }
    }
}

} // verus!
