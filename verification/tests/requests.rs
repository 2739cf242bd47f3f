//! The request layer: the handshake reply and the add record.

use ringboard::allocator::Allocator;
use ringboard::protocol::VERSION;
use ringboard::requests::{connect, handle, parse_request, Request};
use ringboard::send_msg_bufs::SendMsgBufs;

#[test]
fn connect_replies_with_the_server_version() {
    let mut bufs = SendMsgBufs::new();
    let (valid, token) = connect(&vec![VERSION], &mut bufs).unwrap();
    assert!(valid);
    assert_eq!(bufs.get(token).unwrap(), &vec![VERSION]);
    let (valid, token) = connect(&vec![0xFF], &mut bufs).unwrap();
    assert!(!valid);
    // the reply goes out either way
    assert_eq!(bufs.get(token).unwrap(), &vec![VERSION]);
}

#[test]
fn request_records_parse() {
    let req = parse_request(&vec![VERSION, 1, b't', b'x']).unwrap();
    let Request::Add { mime } = req;
    assert_eq!(mime, b"tx".to_vec());
    assert!(parse_request(&vec![VERSION]).is_err());
    assert!(parse_request(&vec![0xFF, 1]).is_err());
    assert!(parse_request(&vec![VERSION, 9]).is_err());
}

#[test]
fn zero_length_adds_are_rejected() {
    let mut bufs = SendMsgBufs::new();
    let mut alloc = Allocator::open(8);
    let r = handle(&vec![VERSION, 1], Vec::new(), &mut bufs, &mut alloc).unwrap();
    // the reply is an empty record, which the client reads as invalid
    let token = r.unwrap();
    let reply = bufs.get(token).unwrap().clone();
    assert!(reply.is_empty());
    assert!(matches!(
        ringboard::requests::check_add_reply(&reply),
        Err(ringboard::error::ClientError::InvalidResponse { .. })
    ));
    // and nothing was stored
    let reader = ringboard::ring_reader::DatabaseReader::open(alloc.database());
    assert_eq!(alloc.database().main.write_head, 0);
    let mut main = reader.main();
    assert!(main.collect_from_head().is_empty());
}

#[test]
fn send_buffer_tokens_cycle() {
    let mut bufs = SendMsgBufs::new();
    let t1 = bufs.alloc_buf(vec![1, 2]).unwrap();
    let t2 = bufs.alloc_buf(vec![3]).unwrap();
    assert_ne!(t1, t2);
    assert_eq!(bufs.get(t1).unwrap(), &vec![1, 2]);
    bufs.free(t1 as u64);
    assert!(bufs.get(t1).is_none());
    assert_eq!(bufs.spare_count(), 1);
    bufs.trim();
    assert_eq!(bufs.spare_count(), 0);
    // the freed token can be taken again
    let t3 = bufs.alloc_buf(vec![4]).unwrap();
    assert_eq!(t3, t1);
}
