//! Logical JSON-RPC messages and their correspondence with JSON values.
//!
//! A wire body is one JSON object; this module says which objects stand for a
//! method call, a notification or a reply, and proves that the two directions
//! of that correspondence invert each other.

use vstd::prelude::*;
use vstd::string::StringSliceAdditionalSpecFns;
use vstd::string::StrSliceExecFns;
use crate::json::{Json, JsonV, jv, jv_seq, jv_fields, field_lookup, lemma_jv_fields};

verus! {

/// A request id: the protocol allows a number or a string.
pub enum Id {
    Num(u64),
    Str(Vec<u8>),
}

/// Parameters of a call or notification: absent, positional, or keyed.
pub enum Params {
    Absent,
    Array(Vec<Json>),
    Named(Vec<(Vec<u8>, Json)>),
}

/// A structured failure carried by an error reply.
pub struct RpcError {
    pub code: i64,
    pub message: Vec<u8>,
    pub data: Option<Json>,
}

/// A request that expects a reply.
pub struct MethodCall {
    pub id: Id,
    pub method: Vec<u8>,
    pub params: Params,
}

/// A one-way message.
pub struct Notification {
    pub method: Vec<u8>,
    pub params: Params,
}

/// A reply to an earlier request: success payload or structured failure.
pub enum Output {
    Success { id: Id, result: Json },
    Failure { id: Id, error: RpcError },
}

/// Any complete wire-level message.
pub enum Message {
    MethodCall(MethodCall),
    Notification(Notification),
    Output(Output),
}

/// Abstractions of the above, field for field.
pub enum IdV {
    Num(int),
    Str(Seq<u8>),
}

pub enum ParamsV {
    Absent,
    Array(Seq<JsonV>),
    Named(Seq<(Seq<u8>, JsonV)>),
}

pub struct RpcErrorV {
    pub code: int,
    pub message: Seq<u8>,
    pub data: Option<JsonV>,
}

pub enum MessageV {
    MethodCall { id: IdV, method: Seq<u8>, params: ParamsV },
    Notification { method: Seq<u8>, params: ParamsV },
    Success { id: IdV, result: JsonV },
    Failure { id: IdV, error: RpcErrorV },
}

pub open spec fn id_v(id: Id) -> IdV {
    match id {
        Id::Num(n) => IdV::Num(n as int),
        Id::Str(s) => IdV::Str(s@),
    }
}

pub open spec fn params_v(p: Params) -> ParamsV {
    match p {
        Params::Absent => ParamsV::Absent,
        Params::Array(items) => ParamsV::Array(jv_seq(items@)),
        Params::Named(fields) => ParamsV::Named(jv_fields(fields@)),
    }
}

pub open spec fn err_v(e: RpcError) -> RpcErrorV {
    RpcErrorV {
        code: e.code as int,
        message: e.message@,
        data: match e.data {
            Option::None => Option::None,
            Option::Some(d) => Option::Some(jv(d)),
        },
    }
}

pub open spec fn msg_v(m: Message) -> MessageV {
    match m {
        Message::MethodCall(c) => MessageV::MethodCall {
            id: id_v(c.id),
            method: c.method@,
            params: params_v(c.params),
        },
        Message::Notification(n) => MessageV::Notification {
            method: n.method@,
            params: params_v(n.params),
        },
        Message::Output(Output::Success { id, result }) => MessageV::Success {
            id: id_v(id),
            result: jv(result),
        },
        Message::Output(Output::Failure { id, error }) => MessageV::Failure {
            id: id_v(id),
            error: err_v(error),
        },
    }
}

/// The protocol's member names, as byte sequences.
pub open spec fn k_jsonrpc() -> Seq<u8> {
    "jsonrpc".spec_bytes()
}

pub open spec fn k_id() -> Seq<u8> {
    "id".spec_bytes()
}

pub open spec fn k_method() -> Seq<u8> {
    "method".spec_bytes()
}

pub open spec fn k_params() -> Seq<u8> {
    "params".spec_bytes()
}

pub open spec fn k_result() -> Seq<u8> {
    "result".spec_bytes()
}

pub open spec fn k_error() -> Seq<u8> {
    "error".spec_bytes()
}

pub open spec fn k_code() -> Seq<u8> {
    "code".spec_bytes()
}

pub open spec fn k_message() -> Seq<u8> {
    "message".spec_bytes()
}

pub open spec fn k_data() -> Seq<u8> {
    "data".spec_bytes()
}

pub open spec fn v2_bytes() -> Seq<u8> {
    "2.0".spec_bytes()
}

/// The protocol member names are pairwise distinct, within each object that
/// uses them together.
pub proof fn lemma_wire_keys_distinct()
    ensures
        k_jsonrpc() != k_id(),
        k_jsonrpc() != k_method(),
        k_jsonrpc() != k_params(),
        k_jsonrpc() != k_result(),
        k_jsonrpc() != k_error(),
        k_id() != k_method(),
        k_id() != k_params(),
        k_id() != k_result(),
        k_id() != k_error(),
        k_method() != k_params(),
        k_method() != k_result(),
        k_method() != k_error(),
        k_params() != k_result(),
        k_params() != k_error(),
        k_result() != k_error(),
        k_code() != k_message(),
        k_code() != k_data(),
        k_message() != k_data(),
{
    broadcast use vstd::string::is_ascii_spec_bytes;

    reveal_strlit("jsonrpc");
    reveal_strlit("id");
    reveal_strlit("method");
    reveal_strlit("params");
    reveal_strlit("result");
    reveal_strlit("error");
    reveal_strlit("code");
    reveal_strlit("message");
    reveal_strlit("data");
    assert(vstd::string::is_ascii("jsonrpc"));
    assert(vstd::string::is_ascii("id"));
    assert(vstd::string::is_ascii("method"));
    assert(vstd::string::is_ascii("params"));
    assert(vstd::string::is_ascii("result"));
    assert(vstd::string::is_ascii("error"));
    assert(vstd::string::is_ascii("code"));
    assert(vstd::string::is_ascii("message"));
    assert(vstd::string::is_ascii("data"));
    assert(k_method()[0] == 'm' as u8);
    assert(k_params()[0] == 'p' as u8);
    assert(k_result()[0] == 'r' as u8);
    assert(k_code()[0] == 'c' as u8);
    assert(k_data()[0] == 'd' as u8);
}

/// The JSON value standing for an id.
pub open spec fn id_jv(id: IdV) -> JsonV {
    match id {
        IdV::Num(n) => JsonV::Int(n),
        IdV::Str(s) => JsonV::Str(s),
    }
}

/// The `params` member a parameter bag contributes: nothing when absent.
pub open spec fn params_fields(p: ParamsV) -> Seq<(Seq<u8>, JsonV)> {
    match p {
        ParamsV::Absent => Seq::empty(),
        ParamsV::Array(items) => seq![(k_params(), JsonV::Arr(items))],
        ParamsV::Named(fields) => seq![(k_params(), JsonV::Obj(fields))],
    }
}

/// The JSON object standing for a structured failure.
pub open spec fn err_jv(e: RpcErrorV) -> JsonV {
    JsonV::Obj(
        seq![(k_code(), JsonV::Int(e.code)), (k_message(), JsonV::Str(e.message))]
        + match e.data {
            Option::None => Seq::empty(),
            Option::Some(d) => seq![(k_data(), d)],
        },
    )
}

/// The JSON object a message is written as.
pub open spec fn msg_jv(m: MessageV) -> JsonV {
    match m {
        MessageV::MethodCall { id, method, params } => JsonV::Obj(
            seq![
                (k_jsonrpc(), JsonV::Str(v2_bytes())),
                (k_id(), id_jv(id)),
                (k_method(), JsonV::Str(method)),
            ] + params_fields(params),
        ),
        MessageV::Notification { method, params } => JsonV::Obj(
            seq![
                (k_jsonrpc(), JsonV::Str(v2_bytes())),
                (k_method(), JsonV::Str(method)),
            ] + params_fields(params),
        ),
        MessageV::Success { id, result } => JsonV::Obj(
            seq![
                (k_jsonrpc(), JsonV::Str(v2_bytes())),
                (k_id(), id_jv(id)),
                (k_result(), result),
            ],
        ),
        MessageV::Failure { id, error } => JsonV::Obj(
            seq![
                (k_jsonrpc(), JsonV::Str(v2_bytes())),
                (k_id(), id_jv(id)),
                (k_error(), err_jv(error)),
            ],
        ),
    }
}

/// Which ids a JSON value can stand for.
pub open spec fn classify_id(j: JsonV) -> Option<IdV> {
    match j {
        JsonV::Int(n) => if 0 <= n <= u64::MAX {
            Option::Some(IdV::Num(n))
        } else {
            Option::None
        },
        JsonV::Str(s) => Option::Some(IdV::Str(s)),
        _ => Option::None,
    }
}

/// Reads the parameter bag out of an object's fields: an absent member is an
/// empty bag; a member of any kind but array or object is malformed.
pub open spec fn classify_params(fields: Seq<(Seq<u8>, JsonV)>) -> Option<ParamsV> {
    match field_lookup(fields, k_params()) {
        Option::None => Option::Some(ParamsV::Absent),
        Option::Some(JsonV::Arr(items)) => Option::Some(ParamsV::Array(items)),
        Option::Some(JsonV::Obj(f)) => Option::Some(ParamsV::Named(f)),
        Option::Some(_) => Option::None,
    }
}

/// Reads a structured failure out of the value under `error`.
pub open spec fn classify_error(j: JsonV) -> Option<RpcErrorV> {
    match j {
        JsonV::Obj(fields) => match (field_lookup(fields, k_code()), field_lookup(
            fields,
            k_message(),
        )) {
            (Option::Some(JsonV::Int(c)), Option::Some(JsonV::Str(s))) => if i64::MIN <= c
                <= i64::MAX {
                Option::Some(
                    RpcErrorV { code: c, message: s, data: field_lookup(fields, k_data()) },
                )
            } else {
                Option::None
            },
            _ => Option::None,
        },
        _ => Option::None,
    }
}

/// Classifies one parsed JSON value as a logical message: a value with an id
/// and no `result` or `error` member is a method call, one without an id is a
/// notification, one with an id and a `result` or `error` member is a reply.
/// Anything else is malformed and stands for no message.
pub open spec fn classify(j: JsonV) -> Option<MessageV> {
    match j {
        JsonV::Obj(fields) => {
            let idf = field_lookup(fields, k_id());
            let resf = field_lookup(fields, k_result());
            let errf = field_lookup(fields, k_error());
            if idf is Some {
                if resf is Some || errf is Some {
                    match classify_id(idf->0) {
                        Option::None => Option::None,
                        Option::Some(id) => if resf is Some && errf is None {
                            Option::Some(MessageV::Success { id, result: resf->0 })
                        } else if errf is Some && resf is None {
                            match classify_error(errf->0) {
                                Option::None => Option::None,
                                Option::Some(e) => Option::Some(
                                    MessageV::Failure { id, error: e },
                                ),
                            }
                        } else {
                            Option::None
                        },
                    }
                } else {
                    match (classify_id(idf->0), field_lookup(fields, k_method()), classify_params(
                        fields,
                    )) {
                        (Option::Some(id), Option::Some(JsonV::Str(method)), Option::Some(params))
                            => Option::Some(MessageV::MethodCall { id, method, params }),
                        _ => Option::None,
                    }
                }
            } else {
                match (field_lookup(fields, k_method()), classify_params(fields)) {
                    (Option::Some(JsonV::Str(method)), Option::Some(params)) => Option::Some(
                        MessageV::Notification { method, params },
                    ),
                    _ => Option::None,
                }
            }
        },
        _ => Option::None,
    }
}

/// The ids and codes a message can carry on this wire.
pub open spec fn wf_id(id: IdV) -> bool {
    match id {
        IdV::Num(n) => 0 <= n <= u64::MAX,
        IdV::Str(_) => true,
    }
}

pub open spec fn wf_msg(m: MessageV) -> bool {
    match m {
        MessageV::MethodCall { id, .. } => wf_id(id),
        MessageV::Notification { .. } => true,
        MessageV::Success { id, .. } => wf_id(id),
        MessageV::Failure { id, error } => wf_id(id) && i64::MIN <= error.code <= i64::MAX,
    }
}

/// Writing a message as a JSON object and classifying that object gives the
/// message back: id, method, params, result and error are all preserved.
pub proof fn lemma_classify_inverts_msg_jv(m: MessageV)
    requires
        wf_msg(m),
    ensures
        classify(msg_jv(m)) == Option::Some(m),
{
    reveal_with_fuel(field_lookup, 6);
    lemma_wire_keys_distinct();
    match m {
        MessageV::MethodCall { id, method, params } => {
            lemma_params_roundtrip(
                seq![
                    (k_jsonrpc(), JsonV::Str(v2_bytes())),
                    (k_id(), id_jv(id)),
                    (k_method(), JsonV::Str(method)),
                ],
                params,
            );
        },
        MessageV::Notification { method, params } => {
            lemma_params_roundtrip(
                seq![
                    (k_jsonrpc(), JsonV::Str(v2_bytes())),
                    (k_method(), JsonV::Str(method)),
                ],
                params,
            );
        },
        MessageV::Success { id, result } => {
        },
        MessageV::Failure { id, error } => {
            match error.data {
                Option::None => {
                    assert(err_jv(error)->Obj_0 =~= seq![
                        (k_code(), JsonV::Int(error.code)),
                        (k_message(), JsonV::Str(error.message)),
                    ]);
                },
                Option::Some(d) => {
                    assert(err_jv(error)->Obj_0 =~= seq![
                        (k_code(), JsonV::Int(error.code)),
                        (k_message(), JsonV::Str(error.message)),
                        (k_data(), d),
                    ]);
                },
            }
        },
    }
}

/// Ids that fit the wire's signed 64-bit number space.
pub open spec fn id_fits(id: Id) -> bool {
    match id {
        Id::Num(n) => n <= i64::MAX as u64,
        Id::Str(_) => true,
    }
}

pub open spec fn msg_fits(m: Message) -> bool {
    match m {
        Message::MethodCall(c) => id_fits(c.id),
        Message::Notification(_) => true,
        Message::Output(Output::Success { id, .. }) => id_fits(id),
        Message::Output(Output::Failure { id, .. }) => id_fits(id),
    }
}

fn id_to_json(id: Id) -> (r: Json)
    requires
        id_fits(id),
    ensures
        jv(r) == id_jv(id_v(id)),
{
    match id {
        Id::Num(n) => Json::Int(n as i64),
        Id::Str(s) => Json::Str(s),
    }
}

fn params_to_json(p: Params) -> (r: Option<Json>)
    ensures
        match params_v(p) {
            ParamsV::Absent => r is None,
            ParamsV::Array(items) => r matches Option::Some(v) && jv(v) == JsonV::Arr(items),
            ParamsV::Named(fields) => r matches Option::Some(v) && jv(v) == JsonV::Obj(fields),
        },
{
    match p {
        Params::Absent => Option::None,
        Params::Array(items) => Option::Some(Json::Arr(items)),
        Params::Named(fields) => Option::Some(Json::Obj(fields)),
    }
}

/// Writes a message as the JSON object it stands for.
pub fn msg_to_json(m: Message) -> (r: Json)
    requires
        msg_fits(m),
    ensures
        jv(r) == msg_jv(msg_v(m)),
{
    let ghost gm = msg_v(m);
    match m {
        Message::MethodCall(c) => {
            let ghost gparams = params_v(c.params);
            let mut fields: Vec<(Vec<u8>, Json)> = Vec::new();
            fields.push(("jsonrpc".as_bytes_vec(), Json::Str("2.0".as_bytes_vec())));
            fields.push(("id".as_bytes_vec(), id_to_json(c.id)));
            let ghost gid = id_v(c.id);
            fields.push(("method".as_bytes_vec(), Json::Str(c.method)));
            let ghost gmethod = c.method@;
            match params_to_json(c.params) {
                Option::Some(pj) => fields.push(("params".as_bytes_vec(), pj)),
                Option::None => {},
            }
            proof {
                lemma_jv_fields(fields@);
                assert(jv_fields(fields@) =~= seq![
                    (k_jsonrpc(), JsonV::Str(v2_bytes())),
                    (k_id(), id_jv(gid)),
                    (k_method(), JsonV::Str(gmethod)),
                ] + params_fields(gparams));
            }
            Json::Obj(fields)
        },
        Message::Notification(n) => {
            let ghost gparams = params_v(n.params);
            let mut fields: Vec<(Vec<u8>, Json)> = Vec::new();
            fields.push(("jsonrpc".as_bytes_vec(), Json::Str("2.0".as_bytes_vec())));
            fields.push(("method".as_bytes_vec(), Json::Str(n.method)));
            let ghost gmethod = n.method@;
            match params_to_json(n.params) {
                Option::Some(pj) => fields.push(("params".as_bytes_vec(), pj)),
                Option::None => {},
            }
            proof {
                lemma_jv_fields(fields@);
                assert(jv_fields(fields@) =~= seq![
                    (k_jsonrpc(), JsonV::Str(v2_bytes())),
                    (k_method(), JsonV::Str(gmethod)),
                ] + params_fields(gparams));
            }
            Json::Obj(fields)
        },
        Message::Output(Output::Success { id, result }) => {
            let mut fields: Vec<(Vec<u8>, Json)> = Vec::new();
            fields.push(("jsonrpc".as_bytes_vec(), Json::Str("2.0".as_bytes_vec())));
            fields.push(("id".as_bytes_vec(), id_to_json(id)));
            let ghost gid = id_v(id);
            let ghost gresult = jv(result);
            fields.push(("result".as_bytes_vec(), result));
            proof {
                lemma_jv_fields(fields@);
                assert(jv_fields(fields@) =~= seq![
                    (k_jsonrpc(), JsonV::Str(v2_bytes())),
                    (k_id(), id_jv(gid)),
                    (k_result(), gresult),
                ]);
            }
            Json::Obj(fields)
        },
        Message::Output(Output::Failure { id, error }) => {
            let ghost gerr = err_v(error);
            let mut efields: Vec<(Vec<u8>, Json)> = Vec::new();
            efields.push(("code".as_bytes_vec(), Json::Int(error.code)));
            efields.push(("message".as_bytes_vec(), Json::Str(error.message)));
            match error.data {
                Option::Some(d) => efields.push(("data".as_bytes_vec(), d)),
                Option::None => {},
            }
            proof {
                lemma_jv_fields(efields@);
                assert(jv_fields(efields@) =~= seq![
                    (k_code(), JsonV::Int(gerr.code)),
                    (k_message(), JsonV::Str(gerr.message)),
                ] + match gerr.data {
                    Option::None => Seq::empty(),
                    Option::Some(d) => seq![(k_data(), d)],
                });
            }
            let mut fields: Vec<(Vec<u8>, Json)> = Vec::new();
            fields.push(("jsonrpc".as_bytes_vec(), Json::Str("2.0".as_bytes_vec())));
            fields.push(("id".as_bytes_vec(), id_to_json(id)));
            let ghost gid = id_v(id);
            fields.push(("error".as_bytes_vec(), Json::Obj(efields)));
            proof {
                lemma_jv_fields(fields@);
                assert(jv_fields(fields@) =~= seq![
                    (k_jsonrpc(), JsonV::Str(v2_bytes())),
                    (k_id(), id_jv(gid)),
                    (k_error(), err_jv(gerr)),
                ]);
            }
            Json::Obj(fields)
        },
    }
}

fn to_id(v: &Json) -> (r: Option<Id>)
    ensures
        match r {
            Option::Some(id) => classify_id(jv(*v)) == Option::Some(id_v(id)),
            Option::None => classify_id(jv(*v)) is None,
        },
{
    match v {
        Json::Int(i) => if *i >= 0 {
            Option::Some(Id::Num(*i as u64))
        } else {
            Option::None
        },
        Json::Str(s) => Option::Some(Id::Str(crate::json::clone_bytes(s))),
        _ => Option::None,
    }
}

fn to_rpc_error(v: &Json) -> (r: Option<RpcError>)
    ensures
        match r {
            Option::Some(e) => classify_error(jv(*v)) == Option::Some(err_v(e)),
            Option::None => classify_error(jv(*v)) is None,
        },
{
    match v {
        Json::Obj(_) => {},
        _ => {
            return Option::None;
        },
    }
    let code: i64 = match v.get_field("code".as_bytes()) {
        Option::Some(Json::Int(c)) => *c,
        _ => {
            return Option::None;
        },
    };
    let message: Vec<u8> = match v.get_field("message".as_bytes()) {
        Option::Some(Json::Str(s)) => crate::json::clone_bytes(s),
        _ => {
            return Option::None;
        },
    };
    let data: Option<Json> = match v.get_field("data".as_bytes()) {
        Option::Some(d) => Option::Some(crate::json::json_clone(d)),
        Option::None => Option::None,
    };
    Option::Some(RpcError { code, message, data })
}

fn get_params(j: &Json) -> (r: Option<Params>)
    requires
        jv(*j) is Obj,
    ensures
        match r {
            Option::Some(p) => classify_params(jv(*j)->Obj_0) == Option::Some(params_v(p)),
            Option::None => classify_params(jv(*j)->Obj_0) is None,
        },
{
    match j.get_field("params".as_bytes()) {
        Option::None => Option::Some(Params::Absent),
        Option::Some(Json::Arr(items)) => Option::Some(
            Params::Array(crate::json::clone_items(items)),
        ),
        Option::Some(Json::Obj(fields)) => Option::Some(
            Params::Named(crate::json::clone_fields(fields)),
        ),
        Option::Some(_) => Option::None,
    }
}

fn get_method(j: &Json) -> (r: Option<Vec<u8>>)
    requires
        jv(*j) is Obj,
    ensures
        match r {
            Option::Some(m) => field_lookup(jv(*j)->Obj_0, k_method()) == Option::Some(
                JsonV::Str(m@),
            ),
            Option::None => !(field_lookup(jv(*j)->Obj_0, k_method()) matches Option::Some(
                JsonV::Str(_),
            )),
        },
{
    match j.get_field("method".as_bytes()) {
        Option::Some(Json::Str(s)) => Option::Some(crate::json::clone_bytes(s)),
        _ => Option::None,
    }
}

/// Classifies one parsed JSON value as a logical message, after
/// [`classify`]: a malformed value yields nothing.
pub fn json_to_msg(j: &Json) -> (r: Option<Message>)
    ensures
        match r {
            Option::Some(m) => classify(jv(*j)) == Option::Some(msg_v(m)),
            Option::None => classify(jv(*j)) is None,
        },
{
    match j {
        Json::Obj(_) => {},
        _ => {
            return Option::None;
        },
    }
    let id_f = j.get_field("id".as_bytes());
    let res_f = j.get_field("result".as_bytes());
    let err_f = j.get_field("error".as_bytes());
    match id_f {
        Option::Some(idv) => {
            if res_f.is_some() || err_f.is_some() {
                let id = match to_id(idv) {
                    Option::Some(id) => id,
                    Option::None => {
                        return Option::None;
                    },
                };
                match (res_f, err_f) {
                    (Option::Some(rv), Option::None) => Option::Some(
                        Message::Output(
                            Output::Success { id, result: crate::json::json_clone(rv) },
                        ),
                    ),
                    (Option::None, Option::Some(ev)) => match to_rpc_error(ev) {
                        Option::Some(e) => Option::Some(
                            Message::Output(Output::Failure { id, error: e }),
                        ),
                        Option::None => Option::None,
                    },
                    _ => Option::None,
                }
            } else {
                let id = match to_id(idv) {
                    Option::Some(id) => id,
                    Option::None => {
                        return Option::None;
                    },
                };
                let method = match get_method(j) {
                    Option::Some(m) => m,
                    Option::None => {
                        return Option::None;
                    },
                };
                let params = match get_params(j) {
                    Option::Some(p) => p,
                    Option::None => {
                        return Option::None;
                    },
                };
                Option::Some(Message::MethodCall(MethodCall { id, method, params }))
            }
        },
        Option::None => {
            let method = match get_method(j) {
                Option::Some(m) => m,
                Option::None => {
                    return Option::None;
                },
            };
            let params = match get_params(j) {
                Option::Some(p) => p,
                Option::None => {
                    return Option::None;
                },
            };
            Option::Some(Message::Notification(Notification { method, params }))
        },
    }
}

/// In an object whose leading fields carry none of the reserved lookup keys
/// under scrutiny, the trailing `params` member decodes back to the bag that
/// produced it.
proof fn lemma_params_roundtrip(head: Seq<(Seq<u8>, JsonV)>, params: ParamsV)
    requires
        forall|i: int| 0 <= i < head.len() ==> #[trigger] head[i].0 != k_params(),
    ensures
        classify_params(head + params_fields(params)) == Option::Some(params),
    decreases head.len(),
{
    reveal_with_fuel(field_lookup, 3);
    if head.len() == 0 {
        match params {
            ParamsV::Absent => {
                assert((head + params_fields(params)).len() == 0);
            },
            ParamsV::Array(items) => {
                assert((head + params_fields(params))[0] == (k_params(), JsonV::Arr(items)));
            },
            ParamsV::Named(fields) => {
                assert((head + params_fields(params))[0] == (k_params(), JsonV::Obj(fields)));
            },
        }
    } else {
        let all = head + params_fields(params);
        assert(all[0] == head[0]);
        assert(all.skip(1) =~= head.skip(1) + params_fields(params));
        lemma_params_roundtrip(head.skip(1), params);
    }
}

} // verus!
