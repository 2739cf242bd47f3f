//! Request handling: the handshake, the `Add` record, and the little-endian
//! reply encoding.
//!
//! Every message begins with the one-byte protocol version; the first
//! message from a client is the handshake, and later messages carry a tag
//! byte (the one tag specified here is `Add`, whose payload is the MIME hint
//! and whose content arrives as a file descriptor over ancillary data).

use vstd::prelude::*;

use crate::allocator::{add_saturated, Allocator};
use crate::database::preserves_entries_except;
use crate::error::{ClientError, CliError};
use crate::names::copy_slice;
use crate::protocol::{spec_composite_id, RingKind, VERSION};
use crate::send_msg_bufs::{pool_exhausted, SendMsgBufs, Token};

verus! {

/// The tag byte of an `Add` record.
pub const TAG_ADD: u8 = 1;

/// The record has the version byte, the `Add` tag, and so a parsable
/// shape.
pub open spec fn spec_wellformed_record(payload: Seq<u8>) -> bool {
    payload.len() >= 2 && payload[0] == VERSION && payload[1] == TAG_ADD
}

/// A parsed request record.
pub enum Request {
    /// Record a new entry; the MIME hint rides in the payload, the content
    /// arrives as a file descriptor.
    Add { mime: Vec<u8> },
}

/// Checks a peer's version byte: a mismatch is surfaced as
/// `VersionMismatch` carrying the unexpected byte.
pub fn validate_version(expected: u8, actual: u8) -> (r: Result<(), ClientError>)
    ensures
        match r {
            Ok(()) => actual == expected,
            Err(e) => actual != expected && (e matches ClientError::VersionMismatch {
                actual: a,
            } && a == actual),
        },
{
    if actual == expected {
        Ok(())
    } else {
        Err(ClientError::VersionMismatch { actual })
    }
}

/// The little-endian bytes of a 64-bit id.
pub open spec fn spec_u64_le(v: u64) -> Seq<u8> {
    seq![
        (v & 0xFF) as u8,
        ((v >> 8) & 0xFF) as u8,
        ((v >> 16) & 0xFF) as u8,
        ((v >> 24) & 0xFF) as u8,
        ((v >> 32) & 0xFF) as u8,
        ((v >> 40) & 0xFF) as u8,
        ((v >> 48) & 0xFF) as u8,
        ((v >> 56) & 0xFF) as u8,
    ]
}

/// Encodes an id for the wire, little-endian.
pub fn u64_to_le_bytes(v: u64) -> (r: Vec<u8>)
    ensures
        r@ == spec_u64_le(v),
{
    let mut r: Vec<u8> = Vec::new();
    r.push((v & 0xFF) as u8);
    r.push(((v >> 8) & 0xFF) as u8);
    r.push(((v >> 16) & 0xFF) as u8);
    r.push(((v >> 24) & 0xFF) as u8);
    r.push(((v >> 32) & 0xFF) as u8);
    r.push(((v >> 40) & 0xFF) as u8);
    r.push(((v >> 48) & 0xFF) as u8);
    r.push(((v >> 56) & 0xFF) as u8);
    proof {
        assert(r@ =~= spec_u64_le(v));
    }
    r
}

/// Decodes a little-endian 64-bit id.
pub fn u64_from_le_bytes(b: &Vec<u8>) -> (r: u64)
    requires
        b@.len() == 8,
    ensures
        spec_u64_le(r) == b@,
{
    let r = (b[0] as u64) | (b[1] as u64) << 8 | (b[2] as u64) << 16 | (b[3] as u64) << 24 | (
    b[4] as u64) << 32 | (b[5] as u64) << 40 | (b[6] as u64) << 48 | (b[7] as u64) << 56;
    proof {
        lemma_le_bytes_split(b@[0], b@[1], b@[2], b@[3], b@[4], b@[5], b@[6], b@[7]);
        assert(spec_u64_le(r) =~= b@);
    }
    r
}

/// Reassembling eight bytes little-endian and splitting the word again
/// gives the bytes back.
proof fn lemma_le_bytes_split(b0: u8, b1: u8, b2: u8, b3: u8, b4: u8, b5: u8, b6: u8, b7: u8)
    by (bit_vector)
    ensures
        ({
            let v = (b0 as u64) | (b1 as u64) << 8 | (b2 as u64) << 16 | (b3 as u64) << 24 | (
            b4 as u64) << 32 | (b5 as u64) << 40 | (b6 as u64) << 48 | (b7 as u64) << 56;
            &&& (v & 0xFF) as u8 == b0
            &&& ((v >> 8) & 0xFF) as u8 == b1
            &&& ((v >> 16) & 0xFF) as u8 == b2
            &&& ((v >> 24) & 0xFF) as u8 == b3
            &&& ((v >> 32) & 0xFF) as u8 == b4
            &&& ((v >> 40) & 0xFF) as u8 == b5
            &&& ((v >> 48) & 0xFF) as u8 == b6
            &&& ((v >> 56) & 0xFF) as u8 == b7
        }),
{
}

/// Round trip: encoding an id and decoding the bytes gives the id back.
pub proof fn lemma_le_roundtrip(v: u64)
    ensures
        ({
            let b = spec_u64_le(v);
            v == ((b[0] as u64) | (b[1] as u64) << 8 | (b[2] as u64) << 16 | (b[3] as u64) << 24
                | (b[4] as u64) << 32 | (b[5] as u64) << 40 | (b[6] as u64) << 48 | (
            b[7] as u64) << 56)
        }),
{
    assert(v == (((v & 0xFF) as u8) as u64) | ((((v >> 8) & 0xFF) as u8) as u64) << 8 | ((((v
        >> 16) & 0xFF) as u8) as u64) << 16 | ((((v >> 24) & 0xFF) as u8) as u64) << 24 | ((((v
        >> 32) & 0xFF) as u8) as u64) << 32 | ((((v >> 40) & 0xFF) as u8) as u64) << 40 | ((((v
        >> 48) & 0xFF) as u8) as u64) << 48 | ((((v >> 56) & 0xFF) as u8) as u64) << 56)
        by (bit_vector);
}

/// Handles a handshake: the reply is the server's version byte, and the
/// connection is kept only when the client's byte matches.
pub fn connect(payload: &Vec<u8>, send_bufs: &mut SendMsgBufs) -> (r: Result<
    (bool, Token),
    CliError,
>)
    requires
        old(send_bufs).wf(),
        payload@.len() >= 1,
    ensures
        final(send_bufs).wf(),
        r is Err <==> pool_exhausted(*old(send_bufs)),
        match r {
            Ok((valid, token)) => {
                &&& valid == (payload@[0] == VERSION)
                &&& final(send_bufs).spec_allocated(token)
                &&& final(send_bufs).spec_data(token) == seq![VERSION]
            },
            Err(e) => e is Internal && *final(send_bufs) == *old(send_bufs),
        },
{
    let version = payload[0];
    let valid = version == VERSION;
    let mut reply: Vec<u8> = Vec::new();
    reply.push(VERSION);
    proof {
        assert(reply@ =~= seq![VERSION]);
    }
    match send_bufs.alloc_buf(reply) {
        Ok(token) => Ok((valid, token)),
        Err(()) => Err(CliError::Internal { context: "no send buffer left for the handshake" }),
    }
}

/// Parses a request record: the version byte, the tag, and the payload.
pub fn parse_request(payload: &Vec<u8>) -> (r: Result<Request, CliError>)
    ensures
        r is Err <==> !spec_wellformed_record(payload@),
        match r {
            Ok(req) => req matches Request::Add { mime } && mime@ == payload@.skip(2),
            Err(e) => e is Internal,
        },
{
    if payload.len() < 2 {
        return Err(CliError::Internal { context: "truncated request record" });
    }
    if payload[0] != VERSION {
        return Err(CliError::Internal { context: "request with a foreign protocol version" });
    }
    if payload[1] != TAG_ADD {
        return Err(CliError::Internal { context: "unknown request tag" });
    }
    let mime = copy_slice(payload, 2, payload.len());
    Ok(Request::Add { mime })
}

/// Dispatches one request from a connected client. For `Add`, `content` is
/// what the handler read from the file descriptor passed over ancillary
/// data; the new entry's composite id is sent back, little-endian. A
/// zero-length (inadmissible) or oversized content leaves the store alone
/// and is answered with an empty record, which the client surfaces as
/// `InvalidResponse`. Fails exactly on a malformed record, an exhausted
/// reply pool, or a saturated bucket class.
pub fn handle(
    payload: &Vec<u8>,
    content: Vec<u8>,
    send_bufs: &mut SendMsgBufs,
    alloc: &mut Allocator,
) -> (r: Result<Option<Token>, CliError>)
    requires
        old(send_bufs).wf(),
        old(alloc).db.wf(),
    ensures
        final(send_bufs).wf(),
        final(alloc).db.wf(),
        r is Err <==> (!spec_wellformed_record(payload@) || pool_exhausted(*old(send_bufs)) || (1
            <= content@.len() <= u32::MAX && add_saturated(old(alloc).db, content@.len()))),
        match r {
            Ok(Some(token)) => {
                &&& spec_wellformed_record(payload@)
                &&& final(send_bufs).spec_allocated(token)
                &&& (if 1 <= content@.len() <= u32::MAX {
                    let id = spec_composite_id(RingKind::Main, old(alloc).db.main.write_head);
                    &&& final(send_bufs).spec_data(token) == spec_u64_le(id)
                    &&& final(alloc).db.spec_lookup(id) == Some(content@)
                    &&& final(alloc).db.spec_mime_lookup(id) == Some(
                        if content@.len() > 4096 {
                            payload@.skip(2)
                        } else {
                            Seq::<u8>::empty()
                        },
                    )
                    &&& preserves_entries_except(old(alloc).db, final(alloc).db, id, id)
                } else {
                    &&& final(send_bufs).spec_data(token) == Seq::<u8>::empty()
                    &&& final(alloc).db == old(alloc).db
                })
            },
            Ok(None) => false,
            Err(e) => e is Internal && *final(send_bufs) == *old(send_bufs),
        },
{
    let request = match parse_request(payload) {
        Ok(req) => req,
        Err(e) => {
            return Err(e);
        },
    };
    match request {
        Request::Add { mime } => {
            if content.len() == 0 || content.len() > 0xFFFF_FFFF as usize {
                // inadmissible content: answer with an empty record, no store change
                match send_bufs.alloc_buf(Vec::new()) {
                    Ok(token) => {
                        proof {
                            assert(final(send_bufs).spec_data(token) =~= Seq::<u8>::empty());
                        }
                        Ok(Some(token))
                    },
                    Err(()) => Err(
                        CliError::Internal { context: "no send buffer left for a reply" },
                    ),
                }
            } else {
                let id = match alloc.add(content, mime) {
                    Ok(id) => id,
                    Err(_) => {
                        return Err(
                            CliError::Internal {
                                context: "the entry's bucket cannot grow further",
                            },
                        );
                    },
                };
                let reply = u64_to_le_bytes(id);
                match send_bufs.alloc_buf(reply) {
                    Ok(token) => Ok(Some(token)),
                    Err(()) => Err(
                        CliError::Internal { context: "no send buffer left for a reply" },
                    ),
                }
            }
        },
    }
}

/// The client side of an `Add`: checks the reply's shape and decodes the
/// new entry's id; a malformed reply is `InvalidResponse`.
pub fn check_add_reply(reply: &Vec<u8>) -> (r: Result<u64, ClientError>)
    ensures
        match r {
            Ok(id) => reply@.len() == 8 && spec_u64_le(id) == reply@,
            Err(e) => reply@.len() != 8 && e is InvalidResponse,
        },
{
    if reply.len() != 8 {
        return Err(ClientError::InvalidResponse { context: "the add reply is not an id" });
    }
    Ok(u64_from_le_bytes(reply))
}

} // verus!
