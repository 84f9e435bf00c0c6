use mod_bridge::server::{
    attach_player, detach_player, local_op, poll_pending, rpc_panic_reply, BridgeState, LocalOp, MAX_QUEUE,
};

fn attached() -> BridgeState<u32> {
    let mut s: BridgeState<u32> = BridgeState::new();
    attach_player(&mut s, "Papa's Freezeria".to_string());
    s
}

#[test]
fn freeze_then_list_then_unfreeze() {
    let mut s = attached();
    let r = s.op_freeze(r#"{"op":"freeze","path":"root/thanksTanks.buildWait","value":0}"#);
    assert_eq!(r, r#"{"ok":true,"frozen":true,"path":"root/thanksTanks.buildWait","value":0,"count":1}"#);
    let r = s.op_freeze(r#"{"op":"freeze","path":"so:game|coins","value": 999999}"#);
    assert_eq!(r, r#"{"ok":true,"frozen":true,"path":"so:game|coins","value":999999,"count":2}"#);
    assert_eq!(
        s.op_list_freezes(),
        r#"{"ok":true,"freezes":[{"path":"root/thanksTanks.buildWait","value":0},{"path":"so:game|coins","value":999999}],"count":2}"#
    );
    let r = s.op_unfreeze(r#"{"op":"unfreeze","path":"root/thanksTanks.buildWait"}"#);
    assert_eq!(r, r#"{"ok":true,"unfrozen":true,"path":"root/thanksTanks.buildWait","count":1}"#);
    assert_eq!(s.op_list_freezes(), r#"{"ok":true,"freezes":[{"path":"so:game|coins","value":999999}],"count":1}"#);
}

#[test]
fn freeze_same_path_replaces_value() {
    let mut s = attached();
    s.op_freeze(r#"{"path":"root.a","value":1}"#);
    s.op_freeze(r#"{"path":"root.b","value":2}"#);
    let r = s.op_freeze(r#"{"path":"root.a","value":"x"}"#);
    assert_eq!(r, r#"{"ok":true,"frozen":true,"path":"root.a","value":"x","count":2}"#);
    assert_eq!(
        s.op_list_freezes(),
        r#"{"ok":true,"freezes":[{"path":"root.b","value":2},{"path":"root.a","value":"x"}],"count":2}"#
    );
}

#[test]
fn unfreeze_after_freeze_restores_list() {
    let mut s = attached();
    s.op_freeze(r#"{"path":"root.a","value":1}"#);
    let before = s.op_list_freezes();
    s.op_freeze(r#"{"path":"root.b","value":2}"#);
    s.op_unfreeze(r#"{"path":"root.b"}"#);
    assert_eq!(s.op_list_freezes(), before);
}

#[test]
fn unfreeze_request_undoes_freeze_request() {
    let mut s = attached();
    s.op_freeze(r#"{"op":"freeze","path":"root.a","value":1}"#);
    let before = s.op_list_freezes();
    assert_eq!(
        s.op_freeze(r#"{"op":"freeze","path":"root.money","value":0}"#),
        r#"{"ok":true,"frozen":true,"path":"root.money","value":0,"count":2}"#
    );
    assert_eq!(
        s.op_unfreeze(r#"{"op":"unfreeze","path":"root.money"}"#),
        r#"{"ok":true,"unfrozen":true,"path":"root.money","count":1}"#
    );
    assert_eq!(s.op_list_freezes(), before);
}

#[test]
fn freeze_errors() {
    let mut s = attached();
    assert_eq!(s.op_freeze(r#"{"op":"freeze","value":1}"#), r#"{"ok":false,"error":"freeze needs path"}"#);
    assert_eq!(s.op_freeze(r#"{"op":"freeze","path":"root.x"}"#), r#"{"ok":false,"error":"freeze needs value"}"#);
    assert_eq!(s.op_list_freezes(), r#"{"ok":true,"freezes":[],"count":0}"#);
}

#[test]
fn unfreeze_without_path_clears_all() {
    let mut s = attached();
    s.op_freeze(r#"{"path":"root.a","value":1}"#);
    s.op_freeze(r#"{"path":"root.b","value":2}"#);
    assert_eq!(s.op_unfreeze(r#"{"op":"unfreeze"}"#), r#"{"ok":true,"unfrozen":"all","count":0}"#);
    assert_eq!(s.op_list_freezes(), r#"{"ok":true,"freezes":[],"count":0}"#);
}

#[test]
fn freeze_path_is_escaped_in_reply() {
    let mut s = attached();
    let r = s.op_freeze(r#"{"path":"so:a\"b|x","value":1}"#);
    assert_eq!(r, r#"{"ok":true,"frozen":true,"path":"so:a\"b|x","value":1,"count":1}"#);
}

#[test]
fn local_op_classification() {
    assert_eq!(local_op(r#"{"op":"freeze","path":"a","value":1}"#), Some(LocalOp::Freeze));
    assert_eq!(local_op(r#"  {"op": "unfreeze"}  "#), Some(LocalOp::Unfreeze));
    assert_eq!(local_op(r#"{"op":"list_freezes"}"#), Some(LocalOp::ListFreezes));
    assert_eq!(local_op(r#"{"op":"get","path":"root.x"}"#), None);
    assert_eq!(local_op(r#"{"op" : "freeze"}"#), None);
}

#[test]
fn handle_local_rpc_answers_or_forwards() {
    let mut s = attached();
    let r = s.handle_local_rpc(" {\"op\":\"freeze\",\"path\":\"root.x\",\"value\":5}\n");
    assert_eq!(r, Some(r#"{"ok":true,"frozen":true,"path":"root.x","value":5,"count":1}"#.to_string()));
    assert_eq!(s.handle_local_rpc(r#"{"op":"ping"}"#), None);
    assert_eq!(
        s.handle_local_rpc(r#"{"op":"list_freezes"}"#),
        Some(r#"{"ok":true,"freezes":[{"path":"root.x","value":5}],"count":1}"#.to_string())
    );
}

#[test]
fn enqueue_refused_without_movie() {
    let mut s: BridgeState<u32> = BridgeState::new();
    match s.enqueue_rpc("{\"op\":\"ping\"}".to_string(), 7) {
        Err((back, msg)) => {
            assert_eq!(back, 7);
            assert_eq!(msg, r#"{"ok":false,"error":"no movie loaded yet"}"#);
        }
        Ok(()) => panic!("expected a refusal"),
    }
}

#[test]
fn enqueue_refused_when_busy() {
    let mut s = attached();
    assert_eq!(MAX_QUEUE, 2);
    assert!(s.enqueue_rpc("a".to_string(), 1).is_ok());
    assert!(s.enqueue_rpc("b".to_string(), 2).is_ok());
    match s.enqueue_rpc("c".to_string(), 3) {
        Err((back, msg)) => {
            assert_eq!(back, 3);
            assert_eq!(msg, "{\"ok\":false,\"error\":\"mod-bridge busy \u{2014} one RPC at a time, retry\"}");
        }
        Ok(()) => panic!("expected busy"),
    }
}

#[test]
fn poll_pending_applies_freezes_and_takes_one_job() {
    let mut s = attached();
    s.op_freeze(r#"{"path":"root/a.b","value":0}"#);
    s.op_freeze(r#"{"path":"so:x|y","value":"v"}"#);
    s.enqueue_rpc("first".to_string(), 1).unwrap();
    s.enqueue_rpc("second".to_string(), 2).unwrap();
    let (reqs, jobs) = poll_pending(&mut s);
    assert_eq!(
        reqs,
        vec![
            r#"{"op":"set","path":"root/a.b","value":0}"#.to_string(),
            r#"{"op":"set","path":"so:x|y","value":"v"}"#.to_string()
        ]
    );
    assert_eq!(jobs.len(), 1);
    assert_eq!(jobs[0].request, "first");
    assert_eq!(jobs[0].reply, 1);
    let (_, jobs) = poll_pending(&mut s);
    assert_eq!(jobs.len(), 1);
    assert_eq!(jobs[0].request, "second");
    let (_, jobs) = poll_pending(&mut s);
    assert!(jobs.is_empty());
}

#[test]
fn detach_fails_waiters_and_drops_freezes() {
    let mut s = attached();
    s.op_freeze(r#"{"path":"root.a","value":1}"#);
    s.enqueue_rpc("a".to_string(), 10).unwrap();
    s.enqueue_rpc("b".to_string(), 11).unwrap();
    let failed = detach_player(&mut s);
    assert_eq!(failed.len(), 2);
    assert_eq!(failed[0].0, 10);
    assert_eq!(failed[1].0, 11);
    assert_eq!(failed[0].1, r#"{"ok":false,"error":"player detached"}"#);
    assert_eq!(s.op_list_freezes(), r#"{"ok":true,"freezes":[],"count":0}"#);
    assert_eq!(
        s.health_body(),
        r#"{"ok":true,"mod_bridge":true,"desktop":true,"has_player":false,"title":"","queue":0}"#
    );
    assert!(s.enqueue_rpc("c".to_string(), 12).is_err());
}

#[test]
fn health_body_reports_title_and_queue() {
    let mut s = attached();
    s.enqueue_rpc("a".to_string(), 1).unwrap();
    assert_eq!(
        s.health_body(),
        r#"{"ok":true,"mod_bridge":true,"desktop":true,"has_player":true,"title":"Papa's Freezeria","queue":1}"#
    );
}

#[test]
fn panic_reply_quotes_message() {
    assert_eq!(rpc_panic_reply("index \"3\" out of range"), r#"{"ok":false,"error":"rpc panicked: index \"3\" out of range"}"#);
}
