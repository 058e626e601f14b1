//! The wire level: JSON text, frames, header lines, and body handling.

use languageclient::codec::{json_encode, json_parse};
use languageclient::json::Json;
use languageclient::message::{json_to_msg, msg_to_json, Id, Message, MethodCall, Notification,
    Output, Params, RpcError};
use languageclient::transport::{encode_frame, encode_message, handle_body, parse_content_length,
    BodyOutcome, HeaderStep, ReaderState};

fn b(s: &str) -> Vec<u8> {
    s.as_bytes().to_vec()
}

fn frame_body(frame: &[u8]) -> &[u8] {
    let mut i = 0;
    while i + 4 <= frame.len() {
        if &frame[i..i + 4] == b"\r\n\r\n" {
            return &frame[i + 4..];
        }
        i += 1;
    }
    panic!("no header terminator in frame");
}

fn roundtrip(m: Message) -> Message {
    let first = json_encode(&msg_to_json(m));
    let parsed = json_parse(&first).expect("own encoding parses");
    let back = json_to_msg(&parsed).expect("own encoding classifies");
    let second = json_encode(&msg_to_json(back));
    let parsed_again = json_parse(&second).expect("re-encoding parses");
    let again = json_to_msg(&parsed_again).expect("re-encoding classifies");
    assert_eq!(first, second, "encoding is not stable across one round trip");
    again
}

#[test]
fn encode_value_exact_bytes() {
    let v = Json::Obj(vec![
        (b("a"), Json::Int(-12)),
        (b("b"), Json::Arr(vec![Json::Bool(true), Json::Null, Json::Str(b("x\"y"))])),
    ]);
    let out = json_encode(&v);
    assert_eq!(out, b("{\"a\":-12,\"b\":[true,null,\"x\\u0022y\"]}"));
}

#[test]
fn encode_escapes_controls_and_backslash() {
    let v = Json::Str(vec![10u8, 92u8, 65u8]);
    assert_eq!(json_encode(&v), b("\"\\u000a\\u005cA\""));
}

#[test]
fn parse_accepts_whitespace_and_short_escapes() {
    let parsed = json_parse(b(" {\"k\" : \"a\\n\\\\\\\"\\u0041\" } ").as_slice()).unwrap();
    match &parsed {
        Json::Obj(fields) => {
            assert_eq!(fields.len(), 1);
            assert_eq!(fields[0].0, b("k"));
            match &fields[0].1 {
                Json::Str(s) => assert_eq!(s, &vec![b'a', 10u8, 92u8, 34u8, b'A']),
                _ => panic!("not a string"),
            }
        }
        _ => panic!("not an object"),
    }
}

#[test]
fn parse_unicode_escape_becomes_utf8() {
    match json_parse(b("\"\\u00e9\\u20ac\"").as_slice()).unwrap() {
        Json::Str(s) => assert_eq!(s, vec![0xc3, 0xa9, 0xe2, 0x82, 0xac]),
        _ => panic!("not a string"),
    }
}

#[test]
fn parse_rejects_junk_floats_and_lone_surrogates() {
    assert!(json_parse(b("{} extra").as_slice()).is_none());
    assert!(json_parse(b("1.5").as_slice()).is_none());
    assert!(json_parse(b("1e3").as_slice()).is_none());
    assert!(json_parse(b("\"\\ud800\"").as_slice()).is_none());
    assert!(json_parse(b("[1,]").as_slice()).is_none());
    assert!(json_parse(b("").as_slice()).is_none());
}

#[test]
fn parse_integer_bounds() {
    match json_parse(b("9223372036854775807").as_slice()).unwrap() {
        Json::Int(n) => assert_eq!(n, i64::MAX),
        _ => panic!("not an int"),
    }
    match json_parse(b("-9223372036854775808").as_slice()).unwrap() {
        Json::Int(n) => assert_eq!(n, i64::MIN),
        _ => panic!("not an int"),
    }
    assert!(json_parse(b("9223372036854775808").as_slice()).is_none());
    assert!(json_parse(b("-9223372036854775809").as_slice()).is_none());
}

#[test]
fn roundtrip_method_call_with_array_params() {
    let m = Message::MethodCall(MethodCall {
        id: Id::Num(7),
        method: b("textDocument/hover"),
        params: Params::Array(vec![
            Json::Int(13),
            Json::Str(b("a\\b\"c\n")),
            Json::Obj(vec![(b("deep"), Json::Arr(vec![Json::Null]))]),
        ]),
    });
    match roundtrip(m) {
        Message::MethodCall(c) => {
            assert!(matches!(c.id, Id::Num(7)));
            assert_eq!(c.method, b("textDocument/hover"));
            match c.params {
                Params::Array(items) => assert_eq!(items.len(), 3),
                _ => panic!("wrong params kind"),
            }
        }
        _ => panic!("wrong kind"),
    }
}

#[test]
fn roundtrip_notification_with_named_params() {
    let m = Message::Notification(Notification {
        method: b("textDocument/didOpen"),
        params: Params::Named(vec![(b("filename"), Json::Str(b("/a/b.go")))]),
    });
    match roundtrip(m) {
        Message::Notification(n) => {
            assert_eq!(n.method, b("textDocument/didOpen"));
            match n.params {
                Params::Named(fields) => {
                    assert_eq!(fields.len(), 1);
                    assert_eq!(fields[0].0, b("filename"));
                }
                _ => panic!("wrong params kind"),
            }
        }
        _ => panic!("wrong kind"),
    }
}

#[test]
fn roundtrip_success_and_failure_outputs() {
    let ok = Message::Output(Output::Success {
        id: Id::Num(3),
        result: Json::Arr(vec![Json::Int(-1), Json::Bool(false)]),
    });
    match roundtrip(ok) {
        Message::Output(Output::Success { id, .. }) => assert!(matches!(id, Id::Num(3))),
        _ => panic!("wrong kind"),
    }
    let failed = Message::Output(Output::Failure {
        id: Id::Str(b("abc")),
        error: RpcError {
            code: -32601,
            message: b("not found"),
            data: Some(Json::Str(b("why"))),
        },
    });
    match roundtrip(failed) {
        Message::Output(Output::Failure { id, error }) => {
            match id {
                Id::Str(s) => assert_eq!(s, b("abc")),
                _ => panic!("wrong id"),
            }
            assert_eq!(error.code, -32601);
            assert_eq!(error.message, b("not found"));
            assert!(error.data.is_some());
        }
        _ => panic!("wrong kind"),
    }
}

#[test]
fn classify_follows_id_and_result_rules() {
    // no id: a notification
    let v = json_parse(b("{\"method\":\"m\"}").as_slice()).unwrap();
    assert!(matches!(json_to_msg(&v), Some(Message::Notification(_))));
    // id and no result or error: a method call
    let v = json_parse(b("{\"id\":1,\"method\":\"m\"}").as_slice()).unwrap();
    assert!(matches!(json_to_msg(&v), Some(Message::MethodCall(_))));
    // id and result: a reply
    let v = json_parse(b("{\"id\":1,\"result\":null}").as_slice()).unwrap();
    assert!(matches!(json_to_msg(&v), Some(Message::Output(Output::Success { .. }))));
    // id and error: a failure reply
    let v = json_parse(b("{\"id\":1,\"error\":{\"code\":-1,\"message\":\"m\"}}").as_slice())
        .unwrap();
    assert!(matches!(json_to_msg(&v), Some(Message::Output(Output::Failure { .. }))));
    // both result and error: malformed
    let v = json_parse(b("{\"id\":1,\"result\":null,\"error\":{\"code\":-1,\"message\":\"m\"}}")
        .as_slice())
        .unwrap();
    assert!(json_to_msg(&v).is_none());
    // a call without a method: malformed
    let v = json_parse(b("{\"id\":1}").as_slice()).unwrap();
    assert!(json_to_msg(&v).is_none());
}

#[test]
fn frame_carries_exact_byte_length() {
    let frame = encode_frame(&b("{}"));
    assert_eq!(frame, b("Content-Length: 2\r\n\r\n{}"));
    let msg = Message::Notification(Notification { method: b("exit"), params: Params::Absent });
    let frame = encode_message(msg);
    let body = frame_body(&frame);
    let header = String::from_utf8(frame[..frame.len() - body.len() - 4].to_vec()).unwrap();
    let announced: usize = header.trim_start_matches("Content-Length:").trim().parse().unwrap();
    assert_eq!(announced, body.len());
    assert_eq!(body, b("{\"jsonrpc\":\"2.0\",\"method\":\"exit\"}").as_slice());
}

#[test]
fn content_length_lines_parse_or_fail() {
    assert_eq!(parse_content_length(b("Content-Length: 123").as_slice()), Some(123));
    assert_eq!(parse_content_length(b("Content-Length:0").as_slice()), Some(0));
    assert_eq!(parse_content_length(b("Content-Length:  42 ").as_slice()), Some(42));
    assert_eq!(parse_content_length(b("Content-Length: 12a").as_slice()), None);
    assert_eq!(parse_content_length(b("Content-Length abc").as_slice()), None);
    assert_eq!(parse_content_length(b("Content-Length:").as_slice()), None);
}

#[test]
fn reader_follows_header_blocks() {
    let mut st = ReaderState::new();
    assert!(matches!(st.step_header_line(b("Content-Length: 10\r\n").as_slice()),
        HeaderStep::Skip));
    assert!(matches!(st.step_header_line(b("Content-Type: utf8\r\n").as_slice()),
        HeaderStep::Skip));
    match st.step_header_line(b("\r\n").as_slice()) {
        HeaderStep::GetBody(n) => assert_eq!(n, 10),
        _ => panic!("expected a body request"),
    }
    // a later block reuses the machine
    assert!(matches!(st.step_header_line(b("Content-Length: 3\r\n").as_slice()),
        HeaderStep::Skip));
    match st.step_header_line(b("\r\n").as_slice()) {
        HeaderStep::GetBody(n) => assert_eq!(n, 3),
        _ => panic!("expected a body request"),
    }
}

#[test]
fn reader_fails_after_six_blank_lines() {
    let mut st = ReaderState::new();
    for _ in 0..5 {
        assert!(matches!(st.step_header_line(b("\r\n").as_slice()), HeaderStep::GetBody(_)));
    }
    assert!(matches!(st.step_header_line(b("\r\n").as_slice()), HeaderStep::Fail));
}

#[test]
fn reader_skips_a_malformed_length_and_continues() {
    let mut st = ReaderState::new();
    assert!(matches!(st.step_header_line(b("Content-Length: 7\r\n").as_slice()),
        HeaderStep::Skip));
    // a framing error is reported and skipped; the connection goes on with
    // the length it had
    assert!(matches!(st.step_header_line(b("Content-Length: ten\r\n").as_slice()),
        HeaderStep::BadHeader));
    assert!(matches!(st.step_header_line(b("\r\n").as_slice()), HeaderStep::GetBody(7)));
}

#[test]
fn empty_body_is_skipped_not_classified() {
    // a frame with Content-Length: 0 yields an empty body
    assert!(matches!(handle_body(b("").as_slice()), BodyOutcome::Blank));
    assert!(matches!(handle_body(b(" \r\n\t").as_slice()), BodyOutcome::Blank));
}

#[test]
fn empty_containers_round_trip() {
    let v = Json::Arr(vec![]);
    assert_eq!(json_encode(&v), b("[]"));
    assert!(matches!(json_parse(b("[]").as_slice()), Some(Json::Arr(_))));
    let v = Json::Obj(vec![]);
    assert_eq!(json_encode(&v), b("{}"));
    assert!(matches!(json_parse(b("{}").as_slice()), Some(Json::Obj(_))));
    assert!(matches!(json_parse(b(" [ ] ").as_slice()), Some(Json::Arr(_))));
}

#[test]
fn raw_utf8_bytes_pass_through_strings() {
    let v = Json::Str("héllo €".as_bytes().to_vec());
    let out = json_encode(&v);
    match json_parse(&out).unwrap() {
        Json::Str(s) => assert_eq!(s, "héllo €".as_bytes()),
        _ => panic!("not a string"),
    }
}

#[test]
fn deep_nesting_round_trips() {
    let mut v = Json::Int(1);
    for _ in 0..40 {
        v = Json::Arr(vec![v, Json::Null]);
    }
    let out = json_encode(&v);
    let back = json_parse(&out).unwrap();
    assert_eq!(json_encode(&back), out);
}

#[test]
fn a_full_wire_session_reads_back() {
    // two frames as a server would send them, fed line by line
    let reply = Message::Output(Output::Success { id: Id::Num(1), result: Json::Bool(true) });
    let frame = encode_message(reply);
    let mut st = ReaderState::new();
    assert!(matches!(
        st.step_header_line(b("Content-Length: 1000000").as_slice()),
        HeaderStep::Skip
    ));
    let text = String::from_utf8(frame.clone()).unwrap();
    let line_end = text.find("\r\n").unwrap();
    assert!(matches!(
        st.step_header_line(frame[..line_end].to_vec().as_slice()),
        HeaderStep::Skip
    ));
    let body = frame_body(&frame);
    match st.step_header_line(b("").as_slice()) {
        HeaderStep::GetBody(n) => assert_eq!(n, body.len()),
        _ => panic!("no body requested"),
    }
    match handle_body(body) {
        BodyOutcome::Event(Message::Output(Output::Success { id, result })) => {
            assert!(matches!(id, Id::Num(1)));
            assert!(matches!(result, Json::Bool(true)));
        }
        _ => panic!("reply not classified"),
    }
}

#[test]
fn bodies_classify_or_are_malformed() {
    match handle_body(b("{\"id\":4,\"method\":\"m\",\"params\":[]}").as_slice()) {
        BodyOutcome::Event(Message::MethodCall(c)) => {
            assert!(matches!(c.id, Id::Num(4)));
            assert_eq!(c.method, b("m"));
        }
        _ => panic!("expected a method call event"),
    }
    assert!(matches!(handle_body(b("{not json").as_slice()), BodyOutcome::Malformed));
    assert!(matches!(handle_body(b("[1,2]").as_slice()), BodyOutcome::Malformed));
}
