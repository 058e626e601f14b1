//! The concurrency engine: reply correlation, teardown, the registry, the
//! three-tier router, and the per-event context.

use languageclient::context::{Context, Position, Resolved, Viewport};
use languageclient::dispatch::{fallback_reply, server_not_running_error, Call, Disposition,
    LanguageClient};
use languageclient::json::Json;
use languageclient::message::{Id, Message, MethodCall, Notification, Output, Params};
use languageclient::registry::Registry;
use languageclient::rpcclient::{output_to_result, RpcClient};
use languageclient::transport::encode_message;

fn b(s: &str) -> Vec<u8> {
    s.as_bytes().to_vec()
}

#[test]
fn replies_pair_with_their_own_ids_in_any_order() {
    // three concurrent calls on one connection, replies shuffled
    let orders: Vec<Vec<usize>> = vec![
        vec![0, 1, 2],
        vec![0, 2, 1],
        vec![1, 0, 2],
        vec![1, 2, 0],
        vec![2, 0, 1],
        vec![2, 1, 0],
    ];
    for order in orders {
        let mut client: RpcClient<u64> = RpcClient::new(Some(b("go")));
        let mut ids = Vec::new();
        for slot in [100u64, 200, 300] {
            let (id, _frame) = client.call(b("m"), Params::Absent, slot);
            ids.push(id);
        }
        assert_eq!(ids, vec![1, 2, 3]);
        for &k in &order {
            let got = client.resolve_reply(ids[k]).expect("slot for this id");
            assert_eq!(got, 100 * (k as u64 + 1), "reply matched a foreign slot");
        }
    }
}

#[test]
fn many_calls_correlate_under_rotated_and_reversed_reply_orders() {
    let n: usize = 8;
    let mut orders: Vec<Vec<usize>> = Vec::new();
    for shift in 0..n {
        let forward: Vec<usize> = (0..n).map(|q| (q + shift) % n).collect();
        let mut backward = forward.clone();
        backward.reverse();
        orders.push(forward);
        orders.push(backward);
    }
    for order in orders {
        let mut client: RpcClient<u64> = RpcClient::new(Some(b("go")));
        for q in 0..n {
            let (id, _frame) = client.call(b("m"), Params::Absent, 1000 + q as u64);
            assert_eq!(id, q as u64 + 1);
        }
        for &q in &order {
            let got = client.resolve_reply(q as u64 + 1).expect("slot for this id");
            assert_eq!(got, 1000 + q as u64, "reply matched a foreign slot");
        }
    }
}

#[test]
fn a_reply_nobody_waits_on_is_reported() {
    let mut client: RpcClient<u64> = RpcClient::new(None);
    let (_id, _frame) = client.call(b("m"), Params::Absent, 7);
    assert!(client.resolve_reply(99).is_none());
    // the registered call is still resolvable
    assert_eq!(client.resolve_reply(1), Some(7));
    // and resolves only once
    assert!(client.resolve_reply(1).is_none());
}

#[test]
fn teardown_fails_every_pending_call_exactly_once() {
    let mut client: RpcClient<u64> = RpcClient::new(Some(b("go")));
    for slot in [10u64, 20, 30] {
        client.call(b("m"), Params::Absent, slot);
    }
    let failed = client.disconnect();
    let mut ids: Vec<u64> = failed.iter().map(|e| e.0).collect();
    let mut slots: Vec<u64> = failed.iter().map(|e| e.1).collect();
    ids.sort();
    slots.sort();
    assert_eq!(ids, vec![1, 2, 3]);
    assert_eq!(slots, vec![10, 20, 30]);
    // nothing is handed out twice
    assert!(client.disconnect().is_empty());
    assert!(client.resolve_reply(1).is_none());
}

#[test]
fn call_frames_carry_fresh_ids_and_the_method_verbatim() {
    let mut client: RpcClient<u64> = RpcClient::new(None);
    let (id1, frame1) = client.call(b("workspace/symbol"), Params::Absent, 1);
    let (id2, frame2) = client.call(b("workspace/symbol"), Params::Absent, 2);
    assert_eq!(id1, 1);
    assert_eq!(id2, 2);
    let expect1 = encode_message(Message::MethodCall(MethodCall {
        id: Id::Num(1),
        method: b("workspace/symbol"),
        params: Params::Absent,
    }));
    assert_eq!(frame1, expect1);
    assert_ne!(frame1, frame2);
}

#[test]
fn notify_frames_have_no_id() {
    let client: RpcClient<u64> = RpcClient::new(None);
    let frame = client.notify(b("initialized"), Params::Named(vec![]));
    let expect = encode_message(Message::Notification(Notification {
        method: b("initialized"),
        params: Params::Named(vec![]),
    }));
    assert_eq!(frame, expect);
}

#[test]
fn registry_looks_up_registers_and_removes() {
    let mut reg: Registry<u32> = Registry::new();
    assert!(reg.get_client(&Some(b("go"))).is_none());
    reg.register(Some(b("go")), 11);
    reg.register(None, 99);
    assert_eq!(reg.get_client(&Some(b("go"))), Some(&11));
    assert_eq!(reg.get_client(&None), Some(&99));
    assert!(reg.get_client(&Some(b("rust"))).is_none());
    // a restart replaces the handle under its language
    reg.register(Some(b("go")), 12);
    assert_eq!(reg.get_client(&Some(b("go"))), Some(&12));
    assert_eq!(reg.remove(&Some(b("go"))), Some(12));
    assert!(reg.get_client(&Some(b("go"))).is_none());
    assert_eq!(reg.get_client(&None), Some(&99));
}

#[test]
fn optional_server_method_is_ignored_with_a_warning() {
    let lc: LanguageClient<u32> = LanguageClient::new();
    let note = Notification { method: b("$/progress"), params: Params::Absent };
    let event = Call::Notification(Some(b("go")), note);
    assert!(matches!(lc.handle_call(&event), Disposition::IgnoreOptional));
    // dispatch continues: the next event still routes
    let next = Call::Notification(
        Some(b("go")),
        Notification { method: b("textDocument/publishDiagnostics"), params: Params::Absent },
    );
    assert!(matches!(lc.handle_call(&next), Disposition::Builtin));
}

#[test]
fn required_server_method_without_handler_is_an_error() {
    let lc: LanguageClient<u32> = LanguageClient::new();
    let call = MethodCall { id: Id::Num(1), method: b("weird/method"), params: Params::Absent };
    let event = Call::MethodCall(Some(b("go")), call);
    assert!(matches!(lc.handle_call(&event), Disposition::UnhandledFromServer));
}

#[test]
fn user_override_wins_over_the_builtin_table() {
    let mut lc: LanguageClient<u32> = LanguageClient::new();
    let call = MethodCall {
        id: Id::Num(1),
        method: b("textDocument/hover"),
        params: Params::Absent,
    };
    assert!(matches!(lc.handle_method_call(&None, &call), Disposition::Builtin));
    lc.register_handler(b("textDocument/hover"), b("MyHover"));
    match lc.handle_method_call(&None, &call) {
        Disposition::UserHandler(h) => assert_eq!(h, b("MyHover")),
        _ => panic!("override not taken"),
    }
}

#[test]
fn unknown_editor_method_is_proxied_to_the_resolved_server() {
    let mut lc: LanguageClient<RpcClient<u64>> = LanguageClient::new();
    lc.clients.register(Some(b("go")), RpcClient::new(Some(b("go"))));
    let params = Params::Named(vec![(b("languageId"), Json::Str(b("go")))]);
    let call = MethodCall { id: Id::Num(9), method: b("custom/unknownMethod"), params };
    // the router chooses the proxy tier
    assert!(matches!(lc.handle_method_call(&None, &call), Disposition::ProxyToServer));
    // the context resolves the target language
    let mut ctx = Context::new(&call.params);
    let lang = match ctx.get_languageId() {
        Resolved::Ready(l) => l,
        _ => panic!("language id not resolved from params"),
    };
    assert_eq!(lang, b("go"));
    // and the call goes to that connection verbatim
    let client = lc.clients.get_client(&Some(lang)).expect("connection registered");
    let mut forwarded = RpcClient::<u64>::new(client.language_id.clone());
    let (_id, frame) = forwarded.call(call.method.clone(), Params::Absent, 0u64);
    let expect = encode_message(Message::MethodCall(MethodCall {
        id: Id::Num(1),
        method: b("custom/unknownMethod"),
        params: Params::Absent,
    }));
    assert_eq!(frame, expect);
}

#[test]
fn unknown_editor_method_without_server_returns_not_running() {
    let lc: LanguageClient<u32> = LanguageClient::new();
    let call = MethodCall {
        id: Id::Num(4),
        method: b("custom/unknownMethod"),
        params: Params::Named(vec![(b("languageId"), Json::Str(b("go")))]),
    };
    assert!(matches!(lc.handle_method_call(&None, &call), Disposition::ProxyToServer));
    assert!(lc.clients.get_client(&Some(b("go"))).is_none());
    // the error delivered back to the editor caller
    match server_not_running_error(Id::Num(4)) {
        Message::Output(Output::Failure { id, error }) => {
            assert!(matches!(id, Id::Num(4)));
            assert_eq!(error.message, b("Server not running for this language"));
            assert_eq!(error.code, -32603);
        }
        _ => panic!("not a failure reply"),
    }
}

#[test]
fn precomputed_filename_needs_no_editor_query() {
    let params = Params::Named(vec![(b("filename"), Json::Str(b("/a/b.go")))]);
    let mut ctx = Context::new(&params);
    let mut queries = 0;
    for _ in 0..3 {
        match ctx.get_filename() {
            Resolved::Ready(f) => assert_eq!(f, b("/a/b.go")),
            Resolved::NeedQuery => queries += 1,
            Resolved::Invalid => panic!("invalid"),
        }
    }
    assert_eq!(queries, 0);
}

#[test]
fn missing_filename_queries_the_editor_exactly_once() {
    let mut ctx = Context::new(&Params::Absent);
    let mut queries = 0;
    for _ in 0..3 {
        match ctx.get_filename() {
            Resolved::Ready(f) => assert_eq!(f, b("/from/editor.rs")),
            Resolved::NeedQuery => {
                // the surrounding loop runs the one editor query
                queries += 1;
                assert_eq!(ctx.filename_query(), b("LSP#filename()"));
                ctx.supply_filename(b("/from/editor.rs"));
            }
            Resolved::Invalid => panic!("invalid"),
        }
    }
    assert_eq!(queries, 1);
}

#[test]
fn bufnr_query_needs_the_filename_first() {
    let mut ctx = Context::new(&Params::Absent);
    assert!(matches!(ctx.get_bufnr(), Resolved::NeedQuery));
    assert!(matches!(ctx.bufnr_query(), Resolved::NeedQuery));
    ctx.supply_filename(b("/a/b.go"));
    match ctx.bufnr_query() {
        Resolved::Ready(q) => assert_eq!(q, b("bufnr('/a/b.go')")),
        _ => panic!("query not built"),
    }
    ctx.supply_bufnr(3);
    assert!(matches!(ctx.get_bufnr(), Resolved::Ready(3)));
}

#[test]
fn slots_decode_their_precomputed_shapes() {
    let params = Params::Named(vec![
        (b("bufnr"), Json::Int(5)),
        (b("languageId"), Json::Str(b("rust"))),
        (b("handle"), Json::Bool(false)),
        (
            b("LSP#viewport()"),
            Json::Obj(vec![(b("start"), Json::Int(10)), (b("end"), Json::Int(30))]),
        ),
        (
            b("LSP#position()"),
            Json::Obj(vec![(b("line"), Json::Int(3)), (b("character"), Json::Int(14))]),
        ),
        (b("expand('<cword>')"), Json::Str(b("main"))),
    ]);
    let mut ctx = Context::new(&params);
    assert!(matches!(ctx.get_bufnr(), Resolved::Ready(5)));
    match ctx.get_languageId() {
        Resolved::Ready(l) => assert_eq!(l, b("rust")),
        _ => panic!("languageId not resolved"),
    }
    assert!(matches!(ctx.get_handle(), Resolved::Ready(false)));
    match ctx.get_viewport() {
        Resolved::Ready(v) => assert_eq!(v, Viewport { start: 10, end: 30 }),
        _ => panic!("viewport not resolved"),
    }
    match ctx.get_position() {
        Resolved::Ready(p) => assert_eq!(p, Position { line: 3, character: 14 }),
        _ => panic!("position not resolved"),
    }
    match ctx.get_current_word() {
        Resolved::Ready(w) => assert_eq!(w, b("main")),
        _ => panic!("word not resolved"),
    }
}

#[test]
fn handle_defaults_to_true_without_a_query() {
    let mut ctx = Context::new(&Params::Absent);
    assert!(matches!(ctx.get_handle(), Resolved::Ready(true)));
}

#[test]
fn wrong_shapes_are_invalid_not_crashes() {
    let params = Params::Named(vec![
        (b("filename"), Json::Int(3)),
        (b("bufnr"), Json::Str(b("x"))),
    ]);
    let mut ctx = Context::new(&params);
    assert!(matches!(ctx.get_filename(), Resolved::Invalid));
    assert!(matches!(ctx.get_bufnr(), Resolved::Invalid));
}

#[test]
fn text_is_memoized_from_one_buffer_query() {
    let mut ctx = Context::new(&Params::Absent);
    assert!(matches!(ctx.get_text(), Resolved::NeedQuery));
    ctx.supply_text(vec![b("fn main() {"), b("}")]);
    match ctx.get_text() {
        Resolved::Ready(lines) => {
            assert_eq!(lines.len(), 2);
            assert_eq!(lines[0], b("fn main() {"));
        }
        _ => panic!("text not memoized"),
    }
}

#[test]
fn language_id_query_names_the_buffer_and_variable() {
    let mut ctx = Context::new(&Params::Absent);
    assert!(matches!(ctx.languageId_query(), Resolved::NeedQuery));
    ctx.supply_filename(b("/a/b.rs"));
    match ctx.languageId_query() {
        Resolved::Ready((buf, var)) => {
            assert_eq!(buf, b("/a/b.rs"));
            assert_eq!(var, b("&filetype"));
        }
        _ => panic!("query not built"),
    }
    ctx.supply_languageId(b("rust"));
    match ctx.get_languageId() {
        Resolved::Ready(l) => assert_eq!(l, b("rust")),
        _ => panic!("not memoized"),
    }
}

#[test]
fn text_prefers_the_precomputed_slot_and_names_its_buffer() {
    let params = Params::Named(vec![(
        b("text"),
        Json::Arr(vec![Json::Str(b("fn main() {")), Json::Str(b("}"))]),
    )]);
    let mut ctx = Context::new(&params);
    match ctx.get_text() {
        Resolved::Ready(lines) => {
            assert_eq!(lines.len(), 2);
            assert_eq!(lines[0], b("fn main() {"));
        }
        _ => panic!("precomputed text not taken"),
    }
    // a non-string element is a malformed precomputation
    let bad = Params::Named(vec![(b("text"), Json::Arr(vec![Json::Int(1)]))]);
    let mut ctx = Context::new(&bad);
    assert!(matches!(ctx.get_text(), Resolved::Invalid));
    // without a precomputation the one buffer query needs the filename
    let mut ctx = Context::new(&Params::Absent);
    assert!(matches!(ctx.text_query(), Resolved::NeedQuery));
    ctx.supply_filename(b("/a/b.go"));
    match ctx.text_query() {
        Resolved::Ready(buf) => assert_eq!(buf, b("/a/b.go")),
        _ => panic!("query not built"),
    }
}

#[test]
fn replies_map_to_caller_outcomes() {
    match output_to_result(Output::Success { id: Id::Num(1), result: Json::Bool(true) }) {
        Ok(Json::Bool(true)) => {}
        _ => panic!("success payload lost"),
    }
    let failure = Output::Failure {
        id: Id::Num(1),
        error: languageclient::message::RpcError {
            code: -1,
            message: b("boom"),
            data: None,
        },
    };
    match output_to_result(failure) {
        Err(m) => assert_eq!(m, b("boom")),
        _ => panic!("failure message lost"),
    }
}

#[test]
fn the_loop_owes_replies_for_unanswered_calls() {
    match fallback_reply(&Disposition::IgnoreOptional, Id::Num(7)) {
        Some(Message::Output(Output::Success { id, result })) => {
            assert!(matches!(id, Id::Num(7)));
            assert!(matches!(result, Json::Null));
        }
        _ => panic!("no empty success"),
    }
    match fallback_reply(&Disposition::UnhandledFromServer, Id::Num(8)) {
        Some(Message::Output(Output::Failure { id, error })) => {
            assert!(matches!(id, Id::Num(8)));
            assert_eq!(error.code, -32601);
            assert_eq!(error.message, b("Message not handled"));
        }
        _ => panic!("no error reply"),
    }
    assert!(fallback_reply(&Disposition::Builtin, Id::Num(9)).is_none());
    assert!(fallback_reply(&Disposition::ProxyToServer, Id::Num(9)).is_none());
}

#[test]
fn try_get_reads_the_precomputed_map_only() {
    let params = Params::Named(vec![(b("k"), Json::Bool(true))]);
    let ctx = Context::new(&params);
    assert!(ctx.try_get(b("k").as_slice()).is_some());
    assert!(ctx.try_get(b("missing").as_slice()).is_none());
}
