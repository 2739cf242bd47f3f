//! The decision core of the single-threaded connection reactor.
//!
//! The event loop itself submits io_uring operations and waits for their
//! completions; what to do with each completion is pure logic and lives
//! here: the 32-client table (three bitsets), the user-data packing, and
//! `handle_completion`, the transition from one completion to the reactor's
//! next state and the operations it must submit.

use vstd::prelude::*;

use crate::allocator::{add_saturated, Allocator};
use crate::database::preserves_entries_except;
use crate::error::CliError;
use crate::protocol::{spec_composite_id, RingKind, VERSION};
use crate::requests;
use crate::requests::{spec_u64_le, spec_wellformed_record};
use crate::send_msg_bufs::{pool_exhausted, SendMsgBufs, Token};

verus! {

/// The reactor serves at most this many concurrent clients; the fixed-file
/// slots `[0, 32)` belong to them.
pub const MAX_NUM_CLIENTS: u8 = 32;

/// Receive buffers per client's buffer ring.
pub const MAX_NUM_BUFS_PER_CLIENT: u8 = 8;

/// Whether the bit `id` of `mask` is set.
pub open spec fn bit(mask: u32, id: u8) -> bool {
    mask & (1u32 << id) != 0
}

/// Setting a bit leaves the others alone.
pub proof fn lemma_bit_set(mask: u32, id: u8, id2: u8)
    by (bit_vector)
    requires
        id < 32,
        id2 < 32,
    ensures
        bit(mask | (1u32 << id), id2) == (id == id2 || bit(mask, id2)),
{
}

/// Clearing a bit leaves the others alone.
pub proof fn lemma_bit_clear(mask: u32, id: u8, id2: u8)
    by (bit_vector)
    requires
        id < 32,
        id2 < 32,
    ensures
        bit(mask & !(1u32 << id), id2) == (id != id2 && bit(mask, id2)),
{
}

/// The per-client connection table: three bitsets over the 32 fixed-file
/// client slots.
#[derive(Clone, Copy, Debug, PartialEq, Eq, Structural)]
pub struct Clients {
    pub connections: u32,
    pub pending_closes: u32,
    pub pending_recv: u32,
}

impl Clients {
    /// A fresh table: no clients.
    pub fn new() -> (r: Clients)
        ensures
            r.connections == 0,
            r.pending_closes == 0,
            r.pending_recv == 0,
    {
        Clients { connections: 0, pending_closes: 0, pending_recv: 0 }
    }

    /// Whether the client completed its handshake.
    pub fn is_connected(&self, id: u8) -> (r: bool)
        requires
            id < 32,
        ensures
            r == bit(self.connections, id),
    {
        (self.connections & (1u32 << id)) != 0
    }

    /// Whether the client's close has been submitted but not completed.
    pub fn is_closing(&self, id: u8) -> (r: bool)
        requires
            id < 32,
        ensures
            r == bit(self.pending_closes, id),
    {
        (self.pending_closes & (1u32 << id)) != 0
    }

    /// The client completed its handshake.
    pub fn set_connected(&mut self, id: u8)
        requires
            id < 32,
        ensures
            final(self).connections == old(self).connections | (1u32 << id),
            final(self).pending_closes == old(self).pending_closes & !(1u32 << id),
            final(self).pending_recv == old(self).pending_recv & !(1u32 << id),
    {
        self.connections = self.connections | (1u32 << id);
        self.pending_closes = self.pending_closes & !(1u32 << id);
        self.pending_recv = self.pending_recv & !(1u32 << id);
    }

    /// The client is going away: its close is in flight.
    pub fn set_disconnected(&mut self, id: u8)
        requires
            id < 32,
        ensures
            final(self).connections == old(self).connections & !(1u32 << id),
            final(self).pending_closes == old(self).pending_closes | (1u32 << id),
            final(self).pending_recv == old(self).pending_recv,
    {
        self.connections = self.connections & !(1u32 << id);
        self.pending_closes = self.pending_closes | (1u32 << id);
    }

    /// The client's close completed.
    pub fn set_closed(&mut self, id: u8)
        requires
            id < 32,
        ensures
            final(self).connections == old(self).connections & !(1u32 << id),
            final(self).pending_closes == old(self).pending_closes & !(1u32 << id),
            final(self).pending_recv == old(self).pending_recv & !(1u32 << id),
    {
        self.connections = self.connections & !(1u32 << id);
        self.pending_closes = self.pending_closes & !(1u32 << id);
        self.pending_recv = self.pending_recv & !(1u32 << id);
    }

    /// The client ran out of receive buffers; no receive is armed for it.
    pub fn set_pending_recv(&mut self, id: u8)
        requires
            id < 32,
        ensures
            final(self).connections == old(self).connections,
            final(self).pending_closes == old(self).pending_closes,
            final(self).pending_recv == old(self).pending_recv | (1u32 << id),
    {
        self.pending_recv = self.pending_recv | (1u32 << id);
    }

    /// Clears and returns the client's pending-receive flag.
    pub fn take_pending_recv(&mut self, id: u8) -> (r: bool)
        requires
            id < 32,
        ensures
            r == bit(old(self).pending_recv, id),
            final(self).connections == old(self).connections,
            final(self).pending_closes == old(self).pending_closes,
            final(self).pending_recv == old(self).pending_recv & !(1u32 << id),
    {
        let r = (self.pending_recv & (1u32 << id)) != 0;
        self.pending_recv = self.pending_recv & !(1u32 << id);
        r
    }
}

/// The low three bits of a submission's user-data: which kind of operation
/// completed.
pub const REQ_TYPE_ACCEPT: u64 = 0;

pub const REQ_TYPE_RECV: u64 = 1;

pub const REQ_TYPE_CLOSE: u64 = 2;

pub const REQ_TYPE_READ_SIGNALS: u64 = 3;

pub const REQ_TYPE_SENDMSG: u64 = 4;

pub const REQ_TYPE_LOW_MEM: u64 = 5;

pub const REQ_TYPE_MASK: u64 = 0b111;

/// Packs a send completion's user-data: low 3 bits the request type, then
/// the reply token (8 bits) and receive buffer index (16 bits), and the
/// client in the top 5 bits.
pub fn pack_sendmsg_user_data(token: Token, buf_index: u16, fd: u8) -> (r: u64)
    requires
        fd < 32,
    ensures
        r & REQ_TYPE_MASK == REQ_TYPE_SENDMSG,
        (r >> 3) & 0xFF == token,
        (r >> 11) & 0xFFFF == buf_index,
        r >> 59 == fd,
{
    let r = REQ_TYPE_SENDMSG | (token as u64) << 3 | (buf_index as u64) << 11 | (fd as u64) << 59;
    proof {
        lemma_pack_sendmsg(token, buf_index, fd);
    }
    r
}

/// Splitting a packed send user-data word gives the fields back.
proof fn lemma_pack_sendmsg(token: u8, buf_index: u16, fd: u8)
    by (bit_vector)
    requires
        fd < 32,
    ensures
        ({
            let r = 4u64 | (token as u64) << 3 | (buf_index as u64) << 11 | (fd as u64) << 59;
            &&& r & 0b111 == 4
            &&& (r >> 3) & 0xFF == token
            &&& (r >> 11) & 0xFFFF == buf_index
            &&& r >> 59 == fd
        }),
{
}

/// Packs a receive or close completion's user-data: the request type and
/// the client in the top 5 bits.
pub fn pack_fd_user_data(req_type: u64, fd: u8) -> (r: u64)
    requires
        req_type <= 5,
        fd < 32,
    ensures
        r & REQ_TYPE_MASK == req_type,
        r >> 59 == fd,
{
    let r = req_type | (fd as u64) << 59;
    proof {
        assert(req_type <= 5 && fd < 32 ==> ((req_type | (fd as u64) << 59) & 0b111 == req_type
            && (req_type | (fd as u64) << 59) >> 59 == fd)) by (bit_vector);
    }
    r
}

/// Recovers the client from a completion's user-data.
pub fn restore_fd(user_data: u64) -> (r: u8)
    ensures
        r == user_data >> 59,
        r < 32,
{
    proof {
        assert(user_data >> 59 < 32) by (bit_vector);
    }
    (user_data >> 59) as u8
}

/// How an accept completed.
pub enum AcceptResult {
    /// A client landed in this fixed-file slot.
    Slot(u8),
    /// The fixed-file table is full (`NFILE`): the 33rd client must wait.
    NoFileSlots,
}

/// How a receive completed.
pub enum RecvResult {
    /// A message (empty means the peer shut down cleanly); for `Add`, the
    /// content read from the file descriptor passed over ancillary data.
    Data { payload: Vec<u8>, content: Vec<u8> },
    /// No receive buffer could take the message (`ENOBUFS`/`EMSGSIZE`).
    NoBufs,
    /// The peer reset the connection.
    ConnReset,
}

/// How a send completed.
pub enum SendResult {
    Sent,
    /// The peer went away before consuming the reply.
    Gone,
}

/// One io_uring completion, reduced to what the decision logic reads.
pub enum Completion {
    Accept { result: AcceptResult, more: bool },
    Recv { fd: u8, result: RecvResult, more: bool, buf_index: u16 },
    SendMsg { fd: u8, token: Token, buf_index: u16, result: SendResult },
    Close { fd: u8 },
    Signals { pollin: bool },
    LowMem { pollerr: bool, pollpri: bool, more: bool },
}

/// What the event loop must do after a completion is handled.
#[derive(Clone, Copy, Debug, PartialEq, Eq, Structural)]
pub enum Action {
    /// Register a buffer ring of `MAX_NUM_BUFS_PER_CLIENT` buffers for the
    /// client.
    RegisterBufRing { client: u8 },
    /// Unregister the client's buffer ring.
    UnregisterBufRing { client: u8 },
    /// Re-arm the multi-shot accept.
    PushAccept,
    /// Arm a receive for the client.
    PushRecv { fd: u8 },
    /// Submit the reply behind `token`; `link` ties the following close to
    /// it.
    PushSend { fd: u8, token: Token, buf_index: u16, link: bool },
    /// Submit a close of the client's fixed-file slot.
    PushClose { fd: u8 },
    /// Return the receive buffer to the client's buffer ring.
    RecycleBuf { fd: u8, buf_index: u16 },
    /// Re-arm the memory-pressure poll.
    PushLowMem,
    /// Leave the event loop: a termination signal arrived.
    Exit,
}

/// The reactor's connection-management state.
pub struct ReactorState {
    pub clients: Clients,
    /// An accept failed with `NFILE`; re-arm only once a close completes.
    pub pending_accept: bool,
    /// Which clients have a registered buffer ring.
    pub buf_rings: u32,
}

impl ReactorState {
    /// The state before the first completion.
    pub fn new() -> (r: ReactorState)
        ensures
            r.clients.connections == 0,
            r.clients.pending_closes == 0,
            r.clients.pending_recv == 0,
            !r.pending_accept,
            r.buf_rings == 0,
    {
        ReactorState { clients: Clients::new(), pending_accept: false, buf_rings: 0 }
    }
}

/// A completion the reactor cannot handle: a result naming a fixed-file
/// slot outside the client table, a signal poll without POLLIN, a failed
/// memory-pressure poll, or a dispatch the request layer fails (malformed
/// record, exhausted reply pool, saturated bucket class).
pub open spec fn spec_completion_fails(
    state: ReactorState,
    send_bufs: SendMsgBufs,
    alloc: Allocator,
    completion: Completion,
) -> bool {
    match completion {
        Completion::Accept { result, more } => result matches AcceptResult::Slot(c) && c >= 32,
        Completion::Recv { fd, result, more, buf_index } => fd >= 32 || (match result {
            RecvResult::Data { payload, content } => {
                &&& payload@.len() > 0
                &&& !bit(state.clients.pending_closes, fd)
                &&& (if bit(state.clients.connections, fd) {
                    ||| !spec_wellformed_record(payload@)
                    ||| pool_exhausted(send_bufs)
                    ||| (1 <= content@.len() <= u32::MAX && add_saturated(
                        alloc.db,
                        content@.len(),
                    ))
                } else {
                    pool_exhausted(send_bufs)
                })
            },
            _ => false,
        }),
        Completion::SendMsg { fd, token, buf_index, result } => fd >= 32,
        Completion::Close { fd } => fd >= 32,
        Completion::Signals { pollin } => !pollin,
        Completion::LowMem { pollerr, pollpri, more } => pollerr || !pollpri,
    }
}

/// Handles one completion: updates the connection table and says which
/// operations to submit. The contract pins the connection management down:
/// a full client table defers accepting until a close completes (never
/// before), a handshake with the wrong version byte is answered and then
/// closed, and a client that ran out of buffers receives again only after a
/// successful send.
pub fn handle_completion(
    state: &mut ReactorState,
    send_bufs: &mut SendMsgBufs,
    alloc: &mut Allocator,
    completion: Completion,
) -> (r: Result<Vec<Action>, CliError>)
    requires
        old(send_bufs).wf(),
        old(alloc).db.wf(),
    ensures
        final(send_bufs).wf(),
        final(alloc).db.wf(),
        // exactly when a completion cannot be handled; nothing changes then
        r is Err <==> spec_completion_fails(
            *old(state),
            *old(send_bufs),
            *old(alloc),
            completion,
        ),
        r is Err ==> *final(state) == *old(state) && *final(send_bufs) == *old(send_bufs),
        match r {
            Ok(actions) => match completion {
                Completion::Accept { result, more } => {
                    &&& final(state).clients == old(state).clients
                    &&& (match result {
                        AcceptResult::Slot(client) => {
                            &&& client < 32
                            &&& final(state).pending_accept == old(state).pending_accept
                            &&& final(state).buf_rings == old(state).buf_rings | (1u32 << client)
                            &&& actions@ == (if more {
                                seq![
                                    Action::RegisterBufRing { client },
                                    Action::PushRecv { fd: client },
                                ]
                            } else {
                                seq![
                                    Action::RegisterBufRing { client },
                                    Action::PushAccept,
                                    Action::PushRecv { fd: client },
                                ]
                            })
                        },
                        AcceptResult::NoFileSlots => {
                            // the accept is not re-armed: the connection waits
                            &&& final(state).pending_accept
                            &&& final(state).buf_rings == old(state).buf_rings
                            &&& actions@ == Seq::<Action>::empty()
                        },
                    })
                },
                Completion::Recv { fd, result, more, buf_index } => {
                    &&& fd < 32
                    &&& final(state).pending_accept == old(state).pending_accept
                    &&& final(state).buf_rings == old(state).buf_rings
                    &&& (match result {
                        RecvResult::NoBufs => {
                            // no receive is armed until a send frees a buffer
                            &&& final(state).clients.pending_recv == old(
                                state,
                            ).clients.pending_recv | (1u32 << fd)
                            &&& final(state).clients.connections == old(
                                state,
                            ).clients.connections
                            &&& final(state).clients.pending_closes == old(
                                state,
                            ).clients.pending_closes
                            &&& actions@ == Seq::<Action>::empty()
                        },
                        RecvResult::ConnReset => {
                            &&& final(state).clients.connections == old(state).clients.connections
                                & !(1u32 << fd)
                            &&& final(state).clients.pending_closes == old(
                                state,
                            ).clients.pending_closes | (1u32 << fd)
                            &&& actions@ == seq![Action::PushClose { fd }]
                        },
                        RecvResult::Data { payload, content } => {
                            if payload@.len() == 0 {
                                // EOF: close unless one is already in flight
                                if bit(old(state).clients.pending_closes, fd) {
                                    &&& final(state).clients == old(state).clients
                                    &&& actions@ == Seq::<Action>::empty()
                                } else {
                                    &&& final(state).clients.connections == old(
                                        state,
                                    ).clients.connections & !(1u32 << fd)
                                    &&& final(state).clients.pending_closes == old(
                                        state,
                                    ).clients.pending_closes | (1u32 << fd)
                                    &&& actions@ == seq![Action::PushClose { fd }]
                                }
                            } else if bit(old(state).clients.pending_closes, fd) {
                                // spurious message while closing: dropped
                                &&& final(state).clients == old(state).clients
                                &&& actions@ == Seq::<Action>::empty()
                            } else if bit(old(state).clients.connections, fd) {
                                // a connected client's request was dispatched: the
                                // reply goes out and the receive is re-armed iff
                                // the multi-shot lapsed
                                &&& final(state).clients == old(state).clients
                                &&& exists|t: Token|
                                    {
                                        &&& final(send_bufs).spec_allocated(t)
                                        &&& (if 1 <= content@.len() <= u32::MAX {
                                            let id = spec_composite_id(
                                                RingKind::Main,
                                                old(alloc).db.main.write_head,
                                            );
                                            &&& final(send_bufs).spec_data(t) == spec_u64_le(id)
                                            &&& final(alloc).db.spec_lookup(id) == Some(content@)
                                            &&& preserves_entries_except(
                                                old(alloc).db,
                                                final(alloc).db,
                                                id,
                                                id,
                                            )
                                        } else {
                                            &&& final(send_bufs).spec_data(t)
                                                == Seq::<u8>::empty()
                                            &&& final(alloc).db == old(alloc).db
                                        })
                                        &&& actions@ == (if more {
                                            seq![
                                                Action::PushSend {
                                                    fd,
                                                    token: t,
                                                    buf_index,
                                                    link: false,
                                                },
                                            ]
                                        } else {
                                            seq![
                                                Action::PushSend {
                                                    fd,
                                                    token: t,
                                                    buf_index,
                                                    link: false,
                                                },
                                                Action::PushRecv { fd },
                                            ]
                                        })
                                    }
                            } else {
                                // the handshake: reply, then keep or close
                                if payload@[0] == VERSION {
                                    &&& bit(final(state).clients.connections, fd)
                                    &&& final(state).clients.pending_closes == old(
                                        state,
                                    ).clients.pending_closes & !(1u32 << fd)
                                    &&& exists|t: Token|
                                        {
                                            &&& final(send_bufs).spec_allocated(t)
                                            &&& final(send_bufs).spec_data(t) == seq![VERSION]
                                            &&& actions@ == (if more {
                                                seq![
                                                    Action::PushSend {
                                                        fd,
                                                        token: t,
                                                        buf_index,
                                                        link: false,
                                                    },
                                                ]
                                            } else {
                                                seq![
                                                    Action::PushSend {
                                                        fd,
                                                        token: t,
                                                        buf_index,
                                                        link: false,
                                                    },
                                                    Action::PushRecv { fd },
                                                ]
                                            })
                                        }
                                } else {
                                    // version mismatch: the reply is sent and the
                                    // close is linked behind it
                                    &&& !bit(final(state).clients.connections, fd)
                                    &&& bit(final(state).clients.pending_closes, fd)
                                    &&& exists|t: Token|
                                        {
                                            &&& final(send_bufs).spec_allocated(t)
                                            &&& final(send_bufs).spec_data(t) == seq![VERSION]
                                            &&& actions@ == seq![
                                                Action::PushSend {
                                                    fd,
                                                    token: t,
                                                    buf_index,
                                                    link: true,
                                                },
                                                Action::PushClose { fd },
                                            ]
                                        }
                                }
                            }
                        },
                    })
                },
                Completion::SendMsg { fd, token, buf_index, result } => {
                    &&& fd < 32
                    &&& final(state).pending_accept == old(state).pending_accept
                    &&& final(state).buf_rings == old(state).buf_rings
                    &&& !final(send_bufs).spec_allocated(token)
                    &&& (match result {
                        SendResult::Sent => {
                            &&& final(state).clients.pending_recv == old(
                                state,
                            ).clients.pending_recv & !(1u32 << fd)
                            &&& final(state).clients.connections == old(
                                state,
                            ).clients.connections
                            &&& final(state).clients.pending_closes == old(
                                state,
                            ).clients.pending_closes
                            // the freed buffer lets a starved client receive again
                            &&& actions@ == (if !bit(old(state).clients.pending_closes, fd) && bit(
                                old(state).clients.connections,
                                fd,
                            ) && bit(old(state).clients.pending_recv, fd) {
                                seq![Action::RecycleBuf { fd, buf_index }, Action::PushRecv { fd }]
                            } else {
                                seq![Action::RecycleBuf { fd, buf_index }]
                            })
                        },
                        SendResult::Gone => {
                            if bit(old(state).clients.pending_closes, fd) {
                                &&& final(state).clients == old(state).clients
                                &&& actions@ == seq![Action::RecycleBuf { fd, buf_index }]
                            } else {
                                &&& final(state).clients.connections == old(
                                    state,
                                ).clients.connections & !(1u32 << fd)
                                &&& final(state).clients.pending_closes == old(
                                    state,
                                ).clients.pending_closes | (1u32 << fd)
                                &&& actions@ == seq![
                                    Action::RecycleBuf { fd, buf_index },
                                    Action::PushClose { fd },
                                ]
                            }
                        },
                    })
                },
                Completion::Close { fd } => {
                    &&& fd < 32
                    &&& final(state).clients.connections == old(state).clients.connections & !(
                    1u32 << fd)
                    &&& final(state).clients.pending_closes == old(state).clients.pending_closes
                        & !(1u32 << fd)
                    &&& final(state).buf_rings == old(state).buf_rings & !(1u32 << fd)
                    // accepting resumes exactly when the last pending close drains
                    &&& (if old(state).pending_accept && final(state).clients.pending_closes
                        == 0 {
                        &&& !final(state).pending_accept
                        &&& actions@ == (if bit(old(state).buf_rings, fd) {
                            seq![Action::UnregisterBufRing { client: fd }, Action::PushAccept]
                        } else {
                            seq![Action::PushAccept]
                        })
                    } else {
                        &&& final(state).pending_accept == old(state).pending_accept
                        &&& actions@ == (if bit(old(state).buf_rings, fd) {
                            seq![Action::UnregisterBufRing { client: fd }]
                        } else {
                            Seq::<Action>::empty()
                        })
                    })
                },
                Completion::Signals { pollin } => {
                    &&& pollin
                    &&& *final(state) == *old(state)
                    &&& actions@ == seq![Action::Exit]
                },
                Completion::LowMem { pollerr, pollpri, more } => {
                    &&& !pollerr
                    &&& pollpri
                    &&& *final(state) == *old(state)
                    &&& final(send_bufs).spare@.len() == 0
                    &&& actions@ == (if more {
                        Seq::<Action>::empty()
                    } else {
                        seq![Action::PushLowMem]
                    })
                },
            },
            Err(e) => e is Internal,
        },
{
    let mut actions: Vec<Action> = Vec::new();
    match completion {
        Completion::Accept { result, more } => {
            match result {
                AcceptResult::Slot(client) => {
                    if client >= MAX_NUM_CLIENTS {
                        return Err(
                            CliError::Internal { context: "accept landed outside the client table" },
                        );
                    }
                    self_register(state, client);
                    actions.push(Action::RegisterBufRing { client });
                    if !more {
                        actions.push(Action::PushAccept);
                    }
                    actions.push(Action::PushRecv { fd: client });
                    proof {
                        if more {
                            assert(actions@ =~= seq![
                                Action::RegisterBufRing { client },
                                Action::PushRecv { fd: client },
                            ]);
                        } else {
                            assert(actions@ =~= seq![
                                Action::RegisterBufRing { client },
                                Action::PushAccept,
                                Action::PushRecv { fd: client },
                            ]);
                        }
                    }
                    Ok(actions)
                },
                AcceptResult::NoFileSlots => {
                    state.pending_accept = true;
                    proof {
                        assert(actions@ =~= Seq::<Action>::empty());
                    }
                    Ok(actions)
                },
            }
        },
        Completion::Recv { fd, result, more, buf_index } => {
            if fd >= MAX_NUM_CLIENTS {
                return Err(CliError::Internal { context: "recv for a foreign fixed-file slot" });
            }
            match result {
                RecvResult::NoBufs => {
                    state.clients.set_pending_recv(fd);
                    proof {
                        assert(actions@ =~= Seq::<Action>::empty());
                    }
                    Ok(actions)
                },
                RecvResult::ConnReset => {
                    actions.push(Action::PushClose { fd });
                    state.clients.set_disconnected(fd);
                    proof {
                        assert(actions@ =~= seq![Action::PushClose { fd }]);
                    }
                    Ok(actions)
                },
                RecvResult::Data { payload, content } => {
                    if payload.len() == 0 {
                        if !state.clients.is_closing(fd) {
                            actions.push(Action::PushClose { fd });
                            state.clients.set_disconnected(fd);
                            proof {
                                assert(actions@ =~= seq![Action::PushClose { fd }]);
                            }
                        } else {
                            proof {
                                assert(actions@ =~= Seq::<Action>::empty());
                            }
                        }
                        return Ok(actions);
                    }
                    if state.clients.is_closing(fd) {
                        proof {
                            assert(actions@ =~= Seq::<Action>::empty());
                        }
                        return Ok(actions);
                    }
                    if state.clients.is_connected(fd) {
                        let response = match requests::handle(
                            &payload,
                            content,
                            send_bufs,
                            alloc,
                        ) {
                            Ok(resp) => resp,
                            Err(e) => {
                                return Err(e);
                            },
                        };
                        if let Some(token) = response {
                            actions.push(Action::PushSend { fd, token, buf_index, link: false });
                        }
                        if !more {
                            actions.push(Action::PushRecv { fd });
                        }
                        Ok(actions)
                    } else {
                        let (valid, token) = match requests::connect(&payload, send_bufs) {
                            Ok(p) => p,
                            Err(e) => {
                                return Err(e);
                            },
                        };
                        if valid {
                            state.clients.set_connected(fd);
                            actions.push(Action::PushSend { fd, token, buf_index, link: false });
                            if !more {
                                actions.push(Action::PushRecv { fd });
                            }
                            proof {
                                if more {
                                    assert(actions@ =~= seq![
                                        Action::PushSend { fd, token, buf_index, link: false },
                                    ]);
                                } else {
                                    assert(actions@ =~= seq![
                                        Action::PushSend { fd, token, buf_index, link: false },
                                        Action::PushRecv { fd },
                                    ]);
                                }
                                lemma_bit_set(old(state).clients.connections, fd, fd);
                            }
                        } else {
                            state.clients.set_disconnected(fd);
                            actions.push(Action::PushSend { fd, token, buf_index, link: true });
                            actions.push(Action::PushClose { fd });
                            proof {
                                assert(actions@ =~= seq![
                                    Action::PushSend { fd, token, buf_index, link: true },
                                    Action::PushClose { fd },
                                ]);
                                lemma_bit_clear(old(state).clients.connections, fd, fd);
                                lemma_bit_set(old(state).clients.pending_closes, fd, fd);
                            }
                        }
                        Ok(actions)
                    }
                },
            }
        },
        Completion::SendMsg { fd, token, buf_index, result } => {
            if fd >= MAX_NUM_CLIENTS {
                return Err(CliError::Internal { context: "send for a foreign fixed-file slot" });
            }
            send_bufs.free(token as u64);
            proof {
                assert((token as u64) & 0xFF == token as u64) by (bit_vector);
            }
            actions.push(Action::RecycleBuf { fd, buf_index });
            match result {
                SendResult::Gone => {
                    if !state.clients.is_closing(fd) {
                        actions.push(Action::PushClose { fd });
                        state.clients.set_disconnected(fd);
                        proof {
                            assert(actions@ =~= seq![
                                Action::RecycleBuf { fd, buf_index },
                                Action::PushClose { fd },
                            ]);
                        }
                    } else {
                        proof {
                            assert(actions@ =~= seq![Action::RecycleBuf { fd, buf_index }]);
                        }
                    }
                    Ok(actions)
                },
                SendResult::Sent => {
                    let closing = state.clients.is_closing(fd);
                    let connected = state.clients.is_connected(fd);
                    let was_pending = state.clients.take_pending_recv(fd);
                    if !closing && connected && was_pending {
                        actions.push(Action::PushRecv { fd });
                        proof {
                            assert(actions@ =~= seq![
                                Action::RecycleBuf { fd, buf_index },
                                Action::PushRecv { fd },
                            ]);
                        }
                    } else {
                        proof {
                            assert(actions@ =~= seq![Action::RecycleBuf { fd, buf_index }]);
                        }
                    }
                    Ok(actions)
                },
            }
        },
        Completion::Close { fd } => {
            if fd >= MAX_NUM_CLIENTS {
                return Err(CliError::Internal { context: "close for a foreign fixed-file slot" });
            }
            state.clients.set_closed(fd);
            let had_ring = (state.buf_rings & (1u32 << fd)) != 0;
            state.buf_rings = state.buf_rings & !(1u32 << fd);
            if had_ring {
                actions.push(Action::UnregisterBufRing { client: fd });
            }
            if state.pending_accept && state.clients.pending_closes == 0 {
                actions.push(Action::PushAccept);
                state.pending_accept = false;
                proof {
                    if bit(old(state).buf_rings, fd) {
                        assert(actions@ =~= seq![
                            Action::UnregisterBufRing { client: fd },
                            Action::PushAccept,
                        ]);
                    } else {
                        assert(actions@ =~= seq![Action::PushAccept]);
                    }
                }
            } else {
                proof {
                    if bit(old(state).buf_rings, fd) {
                        assert(actions@ =~= seq![Action::UnregisterBufRing { client: fd }]);
                    } else {
                        assert(actions@ =~= Seq::<Action>::empty());
                    }
                }
            }
            Ok(actions)
        },
        Completion::Signals { pollin } => {
            if !pollin {
                return Err(CliError::Internal { context: "unknown signal poll event" });
            }
            actions.push(Action::Exit);
            proof {
                assert(actions@ =~= seq![Action::Exit]);
            }
            Ok(actions)
        },
        Completion::LowMem { pollerr, pollpri, more } => {
            if pollerr {
                return Err(CliError::Internal { context: "error polling for low memory events" });
            }
            if !pollpri {
                return Err(CliError::Internal { context: "unknown low memory poll event" });
            }
            send_bufs.trim();
            if !more {
                actions.push(Action::PushLowMem);
                proof {
                    assert(actions@ =~= seq![Action::PushLowMem]);
                }
            } else {
                proof {
                    assert(actions@ =~= Seq::<Action>::empty());
                }
            }
            Ok(actions)
        },
    }
}

/// Marks a fresh client's buffer ring as registered.
fn self_register(state: &mut ReactorState, client: u8)
    requires
        client < 32,
    ensures
        final(state).clients == old(state).clients,
        final(state).pending_accept == old(state).pending_accept,
        final(state).buf_rings == old(state).buf_rings | (1u32 << client),
{
    state.buf_rings = state.buf_rings | (1u32 << client);
}

} // verus!
