use tokio::sync::mpsc::{unbounded_channel, UnboundedReceiver};
use tokio::sync::oneshot::error::TryRecvError;
use wallet_test_server::{CallError, Delivery, Handled, Inbound, MessageReply, PendingCall, Ws};

fn json(text: &str) -> serde_json::Value {
    serde_json::from_str(text).unwrap()
}

/// Registers a connection and hands back what it has been sent so far.
fn connect(ws: &mut Ws, addr: u64) -> UnboundedReceiver<String> {
    let (tx, rx) = unbounded_channel();
    assert!(ws.open_connection(addr, tx));
    rx
}

/// Reads a reply frame as a peer would write it.
fn reply_frame(text: &str) -> MessageReply {
    let frame = json(text);
    assert_eq!(frame["kind"], json(r#""reply""#));
    let body = &frame["body"];
    MessageReply::Reply {
        result: body["result"].clone(),
        number: body["number"].as_u64().unwrap() as u32,
    }
}

fn reply(number: u32, result: &str) -> MessageReply {
    MessageReply::Reply { result: json(result), number }
}

fn issue(ws: &mut Ws, addr: u64, call: &str) -> PendingCall {
    match ws.send(addr, json(call)) {
        Ok(call) => call,
        Err(e) => panic!("call failed: {:?}", e),
    }
}

#[test]
fn connection_is_announced_first() {
    let mut ws = Ws::new();
    let mut out = connect(&mut ws, 7);
    assert_eq!(out.try_recv().unwrap(), r#"{"kind":"open","body":"/rpc/7"}"#);
    assert!(out.try_recv().is_err());
}

#[test]
fn ping_resolves_to_pong() {
    let mut ws = Ws::new();
    let mut out = connect(&mut ws, 7);
    assert_eq!(out.try_recv().unwrap(), r#"{"kind":"open","body":"/rpc/7"}"#);
    let mut call = issue(&mut ws, 7, r#"{"op":"ping"}"#);
    assert_eq!(call.number, 0);
    assert_eq!(
        out.try_recv().unwrap(),
        r#"{"kind":"request","body":{"call":{"op":"ping"},"number":0}}"#
    );
    assert!(matches!(call.reply.try_recv(), Err(TryRecvError::Empty)));
    let frame = reply_frame(r#"{"kind":"reply","body":{"result":"pong","number":0}}"#);
    assert_eq!(ws.deliver(7, frame), Delivery::Resolved);
    assert_eq!(call.reply.try_recv().unwrap(), json(r#""pong""#));
}

#[test]
fn replies_out_of_order_reach_their_callers() {
    let mut ws = Ws::new();
    let _out = connect(&mut ws, 1);
    let mut a = issue(&mut ws, 1, r#""A""#);
    let mut b = issue(&mut ws, 1, r#""B""#);
    assert_eq!(a.number, 0);
    assert_eq!(b.number, 1);
    assert_eq!(ws.deliver(1, reply(1, r#""result of B""#)), Delivery::Resolved);
    assert!(matches!(a.reply.try_recv(), Err(TryRecvError::Empty)));
    assert_eq!(ws.deliver(1, reply(0, r#""result of A""#)), Delivery::Resolved);
    assert_eq!(b.reply.try_recv().unwrap(), json(r#""result of B""#));
    assert_eq!(a.reply.try_recv().unwrap(), json(r#""result of A""#));
}

#[test]
fn many_calls_in_reverse_order() {
    let mut ws = Ws::new();
    let _out = connect(&mut ws, 2);
    let mut calls: Vec<PendingCall> = (0..20).map(|i| issue(&mut ws, 2, &i.to_string())).collect();
    for (i, call) in calls.iter().enumerate() {
        assert_eq!(call.number, i as u32);
    }
    for n in (0..20u32).rev() {
        assert_eq!(ws.deliver(2, reply(n, &(100 + n).to_string())), Delivery::Resolved);
    }
    for (i, call) in calls.iter_mut().enumerate() {
        assert_eq!(call.reply.try_recv().unwrap(), json(&(100 + i).to_string()));
    }
}

#[test]
fn numbers_increase_and_are_not_reset_by_replies() {
    let mut ws = Ws::new();
    let _out = connect(&mut ws, 3);
    let first = issue(&mut ws, 3, "1");
    assert_eq!(ws.deliver(3, reply(first.number, "null")), Delivery::Resolved);
    let second = issue(&mut ws, 3, "2");
    let third = issue(&mut ws, 3, "3");
    assert_eq!((first.number, second.number, third.number), (0, 1, 2));
}

#[test]
fn connections_number_their_calls_apart() {
    let mut ws = Ws::new();
    let _a = connect(&mut ws, 10);
    let _b = connect(&mut ws, 11);
    let mut on_a = issue(&mut ws, 10, r#""a""#);
    let mut on_b = issue(&mut ws, 11, r#""b""#);
    assert_eq!((on_a.number, on_b.number), (0, 0));
    assert_eq!(ws.deliver(11, reply(0, r#""from b""#)), Delivery::Resolved);
    assert!(matches!(on_a.reply.try_recv(), Err(TryRecvError::Empty)));
    assert_eq!(on_b.reply.try_recv().unwrap(), json(r#""from b""#));
    assert_eq!(ws.deliver(10, reply(0, r#""from a""#)), Delivery::Resolved);
    assert_eq!(on_a.reply.try_recv().unwrap(), json(r#""from a""#));
}

#[test]
fn unmatched_reply_is_dropped() {
    let mut ws = Ws::new();
    let _out = connect(&mut ws, 4);
    let mut call = issue(&mut ws, 4, "0");
    assert_eq!(ws.deliver(4, reply(5, "1")), Delivery::UnmatchedReply);
    assert!(matches!(call.reply.try_recv(), Err(TryRecvError::Empty)));
    assert_eq!(ws.deliver(4, reply(0, "2")), Delivery::Resolved);
    assert_eq!(ws.deliver(4, reply(0, "3")), Delivery::UnmatchedReply);
    assert_eq!(call.reply.try_recv().unwrap(), json("2"));
}

#[test]
fn unknown_peer_fails_without_sending() {
    let mut ws = Ws::new();
    let mut out = connect(&mut ws, 5);
    let _ = out.try_recv();
    assert!(matches!(ws.send(6, json("1")), Err(CallError::PeerNotFound)));
    assert!(out.try_recv().is_err());
    assert_eq!(ws.deliver(6, reply(0, "1")), Delivery::PeerNotFound);
    let call = issue(&mut ws, 5, "1");
    assert_eq!(call.number, 0);
}

#[test]
fn closing_fails_every_outstanding_call() {
    let mut ws = Ws::new();
    let _out = connect(&mut ws, 8);
    let mut a = issue(&mut ws, 8, "1");
    let mut b = issue(&mut ws, 8, "2");
    let mut c = issue(&mut ws, 8, "3");
    assert_eq!(ws.deliver(8, reply(1, "null")), Delivery::Resolved);
    assert_eq!(ws.close(8), 2);
    assert!(matches!(a.reply.try_recv(), Err(TryRecvError::Closed)));
    assert!(b.reply.try_recv().is_ok());
    assert!(matches!(c.reply.try_recv(), Err(TryRecvError::Closed)));
    assert_eq!(ws.deliver(8, reply(0, "null")), Delivery::PeerNotFound);
    assert!(matches!(ws.send(8, json("4")), Err(CallError::PeerNotFound)));
    assert_eq!(ws.close(8), 0);
}

#[test]
fn replacing_a_connection_fails_its_calls() {
    let mut ws = Ws::new();
    let _old = connect(&mut ws, 9);
    let mut call = issue(&mut ws, 9, "1");
    let _new = connect(&mut ws, 9);
    assert!(matches!(call.reply.try_recv(), Err(TryRecvError::Closed)));
    assert_eq!(issue(&mut ws, 9, "2").number, 0);
}

#[test]
fn send_to_a_gone_writer_fails() {
    let mut ws = Ws::new();
    let out = connect(&mut ws, 12);
    drop(out);
    assert!(matches!(ws.send(12, json("1")), Err(CallError::SendFailed)));
    assert_eq!(ws.deliver(12, reply(0, "1")), Delivery::UnmatchedReply);
    assert_eq!(ws.close(12), 0);
}

#[test]
fn announcement_to_a_gone_writer_registers_nothing() {
    let mut ws = Ws::new();
    let (tx, rx) = unbounded_channel::<String>();
    drop(rx);
    assert!(!ws.open_connection(13, tx));
    assert!(matches!(ws.send(13, json("1")), Err(CallError::PeerNotFound)));
}

#[test]
fn reply_to_a_caller_that_left() {
    let mut ws = Ws::new();
    let _out = connect(&mut ws, 14);
    let call = issue(&mut ws, 14, "1");
    let number = call.number;
    drop(call);
    assert_eq!(ws.deliver(14, reply(number, "1")), Delivery::CallerGone);
    assert_eq!(ws.deliver(14, reply(number, "1")), Delivery::UnmatchedReply);
}

#[test]
fn reader_events() {
    let mut ws = Ws::new();
    let mut out = connect(&mut ws, 15);
    let mut call = issue(&mut ws, 15, r#"{"op":"ping"}"#);
    assert_eq!(out.try_recv().unwrap(), r#"{"kind":"open","body":"/rpc/15"}"#);
    assert_eq!(
        out.try_recv().unwrap(),
        r#"{"kind":"request","body":{"call":{"op":"ping"},"number":0}}"#
    );
    assert_eq!(ws.on_inbound(15, Inbound::Control), Handled::Skipped);
    assert_eq!(
        ws.on_inbound(15, Inbound::Reply(reply(3, "null"))),
        Handled::Delivered(Delivery::UnmatchedReply)
    );
    assert_eq!(
        ws.on_inbound(15, Inbound::Reply(reply(0, r#""pong""#))),
        Handled::Delivered(Delivery::Resolved)
    );
    assert_eq!(call.reply.try_recv().unwrap(), json(r#""pong""#));
    assert_eq!(
        ws.on_inbound(99, Inbound::Reply(reply(0, "null"))),
        Handled::Delivered(Delivery::PeerNotFound)
    );
}

#[test]
fn malformed_frame_tears_down_its_connection_only() {
    let mut ws = Ws::new();
    let _a = connect(&mut ws, 16);
    let _b = connect(&mut ws, 17);
    let mut on_a = issue(&mut ws, 16, "1");
    let mut on_b = issue(&mut ws, 17, "2");
    assert_eq!(ws.on_inbound(16, Inbound::Malformed), Handled::TornDown);
    assert!(matches!(on_a.reply.try_recv(), Err(TryRecvError::Closed)));
    assert!(matches!(on_b.reply.try_recv(), Err(TryRecvError::Empty)));
    assert!(matches!(ws.send(16, json("3")), Err(CallError::PeerNotFound)));
    assert_eq!(ws.on_inbound(17, Inbound::Ended), Handled::TornDown);
    assert!(matches!(on_b.reply.try_recv(), Err(TryRecvError::Closed)));
}

#[test]
fn back_to_back_requests_carry_consecutive_numbers() {
    let mut ws = Ws::new();
    let mut out = connect(&mut ws, 18);
    let _ = out.try_recv();
    let a = issue(&mut ws, 18, r#""A""#);
    let b = issue(&mut ws, 18, r#""B""#);
    assert_eq!((a.number, b.number), (0, 1));
    assert_eq!(out.try_recv().unwrap(), r#"{"kind":"request","body":{"call":"A","number":0}}"#);
    assert_eq!(out.try_recv().unwrap(), r#"{"kind":"request","body":{"call":"B","number":1}}"#);
    assert!(out.try_recv().is_err());
}

#[test]
fn taking_a_reply_hands_back_its_slot_and_result() {
    let mut ws = Ws::new();
    let _out = connect(&mut ws, 19);
    let mut a = issue(&mut ws, 19, "1");
    let mut b = issue(&mut ws, 19, "2");
    assert!(ws.take_reply(19, reply(7, "0")).is_none());
    assert!(ws.take_reply(20, reply(0, "0")).is_none());
    let (slot, result) = ws.take_reply(19, reply(1, r#""for b""#)).unwrap();
    assert_eq!(result, json(r#""for b""#));
    slot.send(result).unwrap();
    assert_eq!(b.reply.try_recv().unwrap(), json(r#""for b""#));
    assert!(matches!(a.reply.try_recv(), Err(TryRecvError::Empty)));
    assert!(ws.take_reply(19, reply(1, "0")).is_none());
    assert_eq!(ws.deliver(19, reply(0, r#""for a""#)), Delivery::Resolved);
    assert_eq!(a.reply.try_recv().unwrap(), json(r#""for a""#));
}
