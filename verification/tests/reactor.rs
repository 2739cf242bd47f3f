//! The reactor's connection management: the client table, user-data
//! packing, the handshake, back-pressure and the full-table accept path.

use ringboard::allocator::Allocator;
use ringboard::protocol::VERSION;
use ringboard::reactor::{
    handle_completion, pack_fd_user_data, pack_sendmsg_user_data, restore_fd, AcceptResult,
    Action, Clients, Completion, ReactorState, RecvResult, SendResult, REQ_TYPE_MASK,
    REQ_TYPE_RECV, REQ_TYPE_SENDMSG,
};
use ringboard::send_msg_bufs::SendMsgBufs;

fn world() -> (ReactorState, SendMsgBufs, Allocator) {
    (ReactorState::new(), SendMsgBufs::new(), Allocator::open(16))
}

fn accept(state: &mut ReactorState, bufs: &mut SendMsgBufs, alloc: &mut Allocator, slot: u8) {
    let actions = handle_completion(
        state,
        bufs,
        alloc,
        Completion::Accept { result: AcceptResult::Slot(slot), more: true },
    )
    .unwrap();
    assert!(matches!(actions[0], Action::RegisterBufRing { client } if client == slot));
    assert!(matches!(actions[1], Action::PushRecv { fd } if fd == slot));
}

fn handshake(
    state: &mut ReactorState,
    bufs: &mut SendMsgBufs,
    alloc: &mut Allocator,
    fd: u8,
    version: u8,
) -> Vec<Action> {
    handle_completion(
        state,
        bufs,
        alloc,
        Completion::Recv {
            fd,
            result: RecvResult::Data { payload: vec![version], content: Vec::new() },
            more: true,
            buf_index: 0,
        },
    )
    .unwrap()
}

#[test]
fn client_table_bits() {
    let mut c = Clients::new();
    assert!(!c.is_connected(3));
    c.set_connected(3);
    assert!(c.is_connected(3));
    assert!(!c.is_connected(4));
    c.set_disconnected(3);
    assert!(!c.is_connected(3));
    assert!(c.is_closing(3));
    c.set_closed(3);
    assert!(!c.is_closing(3));
    c.set_pending_recv(9);
    assert!(c.take_pending_recv(9));
    assert!(!c.take_pending_recv(9));
}

#[test]
fn user_data_packing_roundtrip() {
    let ud = pack_sendmsg_user_data(0xAB, 300, 12);
    assert_eq!(ud & REQ_TYPE_MASK, REQ_TYPE_SENDMSG);
    assert_eq!((ud >> 3) & 0xFF, 0xAB);
    assert_eq!((ud >> 11) & 0xFFFF, 300);
    assert_eq!(restore_fd(ud), 12);
    let ud2 = pack_fd_user_data(REQ_TYPE_RECV, 31);
    assert_eq!(ud2 & REQ_TYPE_MASK, REQ_TYPE_RECV);
    assert_eq!(restore_fd(ud2), 31);
}

#[test]
fn good_handshake_connects() {
    let (mut state, mut bufs, mut alloc) = world();
    accept(&mut state, &mut bufs, &mut alloc, 0);
    let actions = handshake(&mut state, &mut bufs, &mut alloc, 0, VERSION);
    assert!(state.clients.is_connected(0));
    assert_eq!(actions.len(), 1);
    match actions[0] {
        Action::PushSend { fd, token, link, .. } => {
            assert_eq!(fd, 0);
            assert!(!link);
            // the reply echoes the server's version byte
            assert_eq!(bufs.get(token).unwrap(), &vec![VERSION]);
        },
        _ => panic!("the handshake must be answered"),
    }
}

#[test]
fn version_mismatch_replies_then_closes() {
    let (mut state, mut bufs, mut alloc) = world();
    accept(&mut state, &mut bufs, &mut alloc, 0);
    let actions = handshake(&mut state, &mut bufs, &mut alloc, 0, 0xFF);
    assert!(!state.clients.is_connected(0));
    assert!(state.clients.is_closing(0));
    assert_eq!(actions.len(), 2);
    // the reply still goes out, with the close linked behind it
    assert!(matches!(actions[0], Action::PushSend { fd: 0, link: true, .. }));
    assert!(matches!(actions[1], Action::PushClose { fd: 0 }));
}

#[test]
fn full_table_defers_the_thirty_third_accept() {
    let (mut state, mut bufs, mut alloc) = world();
    for slot in 0..32u8 {
        accept(&mut state, &mut bufs, &mut alloc, slot);
        let _ = handshake(&mut state, &mut bufs, &mut alloc, slot, VERSION);
        assert!(state.clients.is_connected(slot));
    }
    // the 33rd connection finds no fixed-file slot: accepting pauses
    let actions = handle_completion(
        &mut state,
        &mut bufs,
        &mut alloc,
        Completion::Accept { result: AcceptResult::NoFileSlots, more: false },
    )
    .unwrap();
    assert!(actions.is_empty());
    assert!(state.pending_accept);

    // one client goes away; its close completion re-arms the accept
    let _ = handle_completion(
        &mut state,
        &mut bufs,
        &mut alloc,
        Completion::Recv {
            fd: 7,
            result: RecvResult::Data { payload: Vec::new(), content: Vec::new() },
            more: true,
            buf_index: 0,
        },
    )
    .unwrap();
    let close_actions = handle_completion(
        &mut state,
        &mut bufs,
        &mut alloc,
        Completion::Close { fd: 7 },
    )
    .unwrap();
    assert!(close_actions.contains(&Action::PushAccept));
    assert!(!state.pending_accept);

    // the waiting client lands in the freed slot and handshakes normally
    accept(&mut state, &mut bufs, &mut alloc, 7);
    let actions = handshake(&mut state, &mut bufs, &mut alloc, 7, VERSION);
    assert!(state.clients.is_connected(7));
    assert!(matches!(actions[0], Action::PushSend { fd: 7, link: false, .. }));
}

#[test]
fn buffer_exhaustion_waits_for_a_send() {
    let (mut state, mut bufs, mut alloc) = world();
    accept(&mut state, &mut bufs, &mut alloc, 2);
    let _ = handshake(&mut state, &mut bufs, &mut alloc, 2, VERSION);
    let actions = handle_completion(
        &mut state,
        &mut bufs,
        &mut alloc,
        Completion::Recv { fd: 2, result: RecvResult::NoBufs, more: true, buf_index: 0 },
    )
    .unwrap();
    // no receive is re-armed while the client has no buffers
    assert!(actions.is_empty());

    // a completed send frees a buffer and restores the receive
    let token = bufs.alloc_buf(vec![1]).unwrap();
    let actions = handle_completion(
        &mut state,
        &mut bufs,
        &mut alloc,
        Completion::SendMsg { fd: 2, token, buf_index: 4, result: SendResult::Sent },
    )
    .unwrap();
    assert_eq!(actions.len(), 2);
    assert!(matches!(actions[0], Action::RecycleBuf { fd: 2, buf_index: 4 }));
    assert!(matches!(actions[1], Action::PushRecv { fd: 2 }));
}

#[test]
fn connection_reset_closes_the_client() {
    let (mut state, mut bufs, mut alloc) = world();
    accept(&mut state, &mut bufs, &mut alloc, 1);
    let _ = handshake(&mut state, &mut bufs, &mut alloc, 1, VERSION);
    let actions = handle_completion(
        &mut state,
        &mut bufs,
        &mut alloc,
        Completion::Recv { fd: 1, result: RecvResult::ConnReset, more: false, buf_index: 0 },
    )
    .unwrap();
    assert_eq!(actions, vec![Action::PushClose { fd: 1 }]);
    assert!(state.clients.is_closing(1));
}

#[test]
fn add_request_is_dispatched_to_the_store() {
    let (mut state, mut bufs, mut alloc) = world();
    accept(&mut state, &mut bufs, &mut alloc, 0);
    let _ = handshake(&mut state, &mut bufs, &mut alloc, 0, VERSION);
    let actions = handle_completion(
        &mut state,
        &mut bufs,
        &mut alloc,
        Completion::Recv {
            fd: 0,
            result: RecvResult::Data {
                payload: vec![VERSION, 1],
                content: b"clipboard text".to_vec(),
            },
            more: true,
            buf_index: 3,
        },
    )
    .unwrap();
    assert_eq!(actions.len(), 1);
    let id = match actions[0] {
        Action::PushSend { token, .. } => {
            let reply = bufs.get(token).unwrap().clone();
            ringboard::requests::check_add_reply(&reply).unwrap()
        },
        _ => panic!("an add is answered with the new id"),
    };
    // the id resolves to the added bytes
    let db = alloc.database();
    let reader = ringboard::ring_reader::DatabaseReader::open(db);
    let mut entries = ringboard::ring_reader::EntryReader::open(db);
    let loaded = reader.get(id).unwrap().to_slice_growable(&mut entries, db).unwrap();
    assert_eq!(loaded.into_inner(), b"clipboard text".to_vec());
}

#[test]
fn foreign_fixed_file_slots_are_reactor_errors() {
    let (mut state, mut bufs, mut alloc) = world();
    let r = handle_completion(
        &mut state,
        &mut bufs,
        &mut alloc,
        Completion::Accept { result: AcceptResult::Slot(40), more: true },
    );
    assert!(matches!(r, Err(ringboard::error::CliError::Internal { .. })));
    let r = handle_completion(&mut state, &mut bufs, &mut alloc, Completion::Close { fd: 32 });
    assert!(matches!(r, Err(ringboard::error::CliError::Internal { .. })));
}

#[test]
fn signals_exit_and_low_memory_trims() {
    let (mut state, mut bufs, mut alloc) = world();
    let t = bufs.alloc_buf(vec![9]).unwrap();
    bufs.free(t as u64);
    assert!(bufs.spare_count() > 0);
    let actions = handle_completion(
        &mut state,
        &mut bufs,
        &mut alloc,
        Completion::LowMem { pollerr: false, pollpri: true, more: true },
    )
    .unwrap();
    assert!(actions.is_empty());
    assert_eq!(bufs.spare_count(), 0);

    let actions = handle_completion(
        &mut state,
        &mut bufs,
        &mut alloc,
        Completion::Signals { pollin: true },
    )
    .unwrap();
    assert_eq!(actions, vec![Action::Exit]);
}
