//! The method-dispatch router: for every inbound call or notification, one
//! of three tiers answers — a user-installed override, the built-in handler
//! table, or the proxy path — tried in exactly that order.
//!
//! An unrecognized method from a server is an error unless its name begins
//! with `$`, the protocol's optional prefix, which is ignored with a
//! warning. An unrecognized method from the editor is proxied verbatim to
//! the server of the language the context resolves; a language with no
//! running server becomes a "server not running" error delivered back to
//! the caller, never a crash.

use vstd::prelude::*;
use vstd::string::StringSliceAdditionalSpecFns;
use vstd::string::StrSliceExecFns;
use crate::json::{bytes_eq, Json, JsonV};
use crate::message::{Message, MethodCall, Notification, Output, RpcError, Id, id_v, err_v, msg_v,
    MessageV, RpcErrorV};
use crate::registry::Registry;

verus! {

/// An inbound event: a message tagged with the connection it came from —
/// nothing for the editor, the language identifier for a server.
pub enum Call {
    MethodCall(Option<Vec<u8>>, MethodCall),
    Notification(Option<Vec<u8>>, Notification),
}

/// The handler name installed for a method, if any.
pub open spec fn handler_lookup(entries: Seq<(Vec<u8>, Vec<u8>)>, method: Seq<u8>) -> Option<
    Seq<u8>,
>
    decreases entries.len(),
{
    if entries.len() == 0 {
        Option::None
    } else if entries[0].0@ == method {
        Option::Some(entries[0].1@)
    } else {
        handler_lookup(entries.skip(1), method)
    }
}

/// The built-in requests: the standard document and workspace calls the
/// broker answers itself, and its own extension calls.
pub open spec fn is_builtin_request(m: Seq<u8>) -> bool {
    ||| m == "client/registerCapability".spec_bytes()
    ||| m == "client/unregisterCapability".spec_bytes()
    ||| m == "textDocument/hover".spec_bytes()
    ||| m == "languageClient/findLocations".spec_bytes()
    ||| m == "textDocument/rename".spec_bytes()
    ||| m == "textDocument/documentSymbol".spec_bytes()
    ||| m == "workspace/symbol".spec_bytes()
    ||| m == "textDocument/codeAction".spec_bytes()
    ||| m == "textDocument/completion".spec_bytes()
    ||| m == "textDocument/signatureHelp".spec_bytes()
    ||| m == "textDocument/references".spec_bytes()
    ||| m == "textDocument/formatting".spec_bytes()
    ||| m == "textDocument/rangeFormatting".spec_bytes()
    ||| m == "completionItem/resolve".spec_bytes()
    ||| m == "workspace/executeCommand".spec_bytes()
    ||| m == "workspace/applyEdit".spec_bytes()
    ||| m == "textDocument/documentHighlight".spec_bytes()
    ||| m == "languageClient/getState".spec_bytes()
    ||| m == "languageClient/isAlive".spec_bytes()
    ||| m == "languageClient/startServer".spec_bytes()
    ||| m == "languageClient/registerServerCommands".spec_bytes()
    ||| m == "languageClient/setLoggingLevel".spec_bytes()
    ||| m == "languageClient/setDiagnosticsList".spec_bytes()
    ||| m == "languageClient/registerHandlers".spec_bytes()
    ||| m == "LanguageClient_NCMRefresh".spec_bytes()
    ||| m == "LanguageClient_NCM2OnComplete".spec_bytes()
    ||| m == "languageClient/explainErrorAtPoint".spec_bytes()
    ||| m == "languageClient/omniComplete".spec_bytes()
    ||| m == "java/classFileContents".spec_bytes()
    ||| m == "languageClient/debugInfo".spec_bytes()
}

/// The built-in notifications: standard lifecycle and diagnostics traffic,
/// the broker's own editor-event hooks, and a few server-specific extras.
pub open spec fn is_builtin_notification(m: Seq<u8>) -> bool {
    ||| m == "workspace/didChangeConfiguration".spec_bytes()
    ||| m == "textDocument/didOpen".spec_bytes()
    ||| m == "textDocument/didChange".spec_bytes()
    ||| m == "textDocument/didSave".spec_bytes()
    ||| m == "textDocument/didClose".spec_bytes()
    ||| m == "textDocument/publishDiagnostics".spec_bytes()
    ||| m == "window/logMessage".spec_bytes()
    ||| m == "window/showMessage".spec_bytes()
    ||| m == "exit".spec_bytes()
    ||| m == "languageClient/handleFileType".spec_bytes()
    ||| m == "languageClient/handleBufNewFile".spec_bytes()
    ||| m == "languageClient/handleTextChanged".spec_bytes()
    ||| m == "languageClient/handleBufWritePost".spec_bytes()
    ||| m == "languageClient/handleBufDelete".spec_bytes()
    ||| m == "languageClient/handleCursorMoved".spec_bytes()
    ||| m == "languageClient/handleCompleteDone".spec_bytes()
    ||| m == "LanguageClient_FZFSinkLocation".spec_bytes()
    ||| m == "LanguageClient_FZFSinkCommand".spec_bytes()
    ||| m == "languageClient/clearDocumentHighlight".spec_bytes()
    ||| m == "language/status".spec_bytes()
    ||| m == "rustDocument/beginBuild".spec_bytes()
    ||| m == "rustDocument/diagnosticsBegin".spec_bytes()
    ||| m == "rustDocument/diagnosticsEnd".spec_bytes()
    ||| m == "window/progress".spec_bytes()
    ||| m == "languageClient/serverExited".spec_bytes()
}

/// A method name under the protocol's reserved optional prefix.
pub open spec fn is_optional_method(m: Seq<u8>) -> bool {
    m.len() > 0 && m[0] == '$' as u8
}

/// Where the router sends one inbound method call or notification.
pub enum Disposition {
    /// Tier one: forward the raw parameters to this user-installed handler
    /// and return its answer verbatim.
    UserHandler(Vec<u8>),
    /// Tier two: the built-in handler for the method runs.
    Builtin,
    /// A server sent an optional method nobody handles: log a warning and,
    /// for a call, answer with an empty success.
    IgnoreOptional,
    /// A server sent a required method nobody handles: an error.
    UnhandledFromServer,
    /// The editor sent a method nobody handles: forward it verbatim to the
    /// server of the language the context resolves.
    ProxyToServer,
}

/// The router's decision, as a relation the implementation must realize.
pub open spec fn spec_disposition(
    handlers: Seq<(Vec<u8>, Vec<u8>)>,
    builtin: bool,
    source: Option<Seq<u8>>,
    method: Seq<u8>,
    r: Disposition,
) -> bool {
    match handler_lookup(handlers, method) {
        Option::Some(h) => r matches Disposition::UserHandler(v) && v@ == h,
        Option::None => if builtin {
            r is Builtin
        } else if source is Some {
            if is_optional_method(method) {
                r is IgnoreOptional
            } else {
                r is UnhandledFromServer
            }
        } else {
            r is ProxyToServer
        },
    }
}

/// The router's shared state: the user-installed overrides and the running
/// connections.
pub struct LanguageClient<H> {
    pub user_handlers: Vec<(Vec<u8>, Vec<u8>)>,
    pub clients: Registry<H>,
}

impl<H> LanguageClient<H> {
    pub open spec fn wf(self) -> bool {
        self.clients.wf()
    }

    pub fn new() -> (r: LanguageClient<H>)
        ensures
            r.wf(),
            r.user_handlers@.len() == 0,
            r.clients.entries@.len() == 0,
    {
        LanguageClient { user_handlers: Vec::new(), clients: Registry::new() }
    }

    /// Installs a user override for a method name, ahead of every built-in.
    pub fn register_handler(&mut self, method: Vec<u8>, handler: Vec<u8>)
        ensures
            final(self).user_handlers@ == old(self).user_handlers@.push((method, handler)),
            final(self).clients == old(self).clients,
    {
        self.user_handlers.push((method, handler));
    }

    fn find_handler(&self, method: &[u8]) -> (r: Option<Vec<u8>>)
        ensures
            match r {
                Option::Some(h) => handler_lookup(self.user_handlers@, method@) == Option::Some(
                    h@,
                ),
                Option::None => handler_lookup(self.user_handlers@, method@) is None,
            },
    {
        let mut i: usize = 0;
        let ghost entries = self.user_handlers@;
        proof {
            assert(entries.skip(0) =~= entries);
        }
        while i < self.user_handlers.len()
            invariant
                0 <= i <= entries.len(),
                entries == self.user_handlers@,
                handler_lookup(entries, method@) == handler_lookup(
                    entries.skip(i as int),
                    method@,
                ),
            decreases entries.len() - i,
        {
            proof {
                assert(entries.skip(i as int)[0] == entries[i as int]);
            }
            if bytes_eq(self.user_handlers[i].0.as_slice(), method) {
                return Option::Some(crate::json::clone_bytes(&self.user_handlers[i].1));
            }
            proof {
                assert(entries.skip(i as int).skip(1) =~= entries.skip(i as int + 1));
            }
            i = i + 1;
        }
        proof {
            assert(entries.skip(i as int).len() == 0);
        }
        Option::None
    }

    /// Routes one inbound request through the three tiers: user override,
    /// built-in table, proxy.
    pub fn handle_method_call(&self, language_id: &Option<Vec<u8>>, method_call: &MethodCall) -> (r:
        Disposition)
        ensures
            spec_disposition(
                self.user_handlers@,
                is_builtin_request(method_call.method@),
                crate::registry::key_v(*language_id),
                method_call.method@,
                r,
            ),
    {
        if let Option::Some(h) = self.find_handler(method_call.method.as_slice()) {
            return Disposition::UserHandler(h);
        }
        if is_builtin_request_name(method_call.method.as_slice()) {
            return Disposition::Builtin;
        }
        if language_id.is_some() {
            if method_call.method.len() > 0 && method_call.method[0] == '$' as u8 {
                Disposition::IgnoreOptional
            } else {
                Disposition::UnhandledFromServer
            }
        } else {
            Disposition::ProxyToServer
        }
    }

    /// Routes one inbound notification the same way.
    pub fn handle_notification(&self, language_id: &Option<Vec<u8>>, notification: &Notification)
        -> (r: Disposition)
        ensures
            spec_disposition(
                self.user_handlers@,
                is_builtin_notification(notification.method@),
                crate::registry::key_v(*language_id),
                notification.method@,
                r,
            ),
    {
        if let Option::Some(h) = self.find_handler(notification.method.as_slice()) {
            return Disposition::UserHandler(h);
        }
        if is_builtin_notification_name(notification.method.as_slice()) {
            return Disposition::Builtin;
        }
        if language_id.is_some() {
            if notification.method.len() > 0 && notification.method[0] == '$' as u8 {
                Disposition::IgnoreOptional
            } else {
                Disposition::UnhandledFromServer
            }
        } else {
            Disposition::ProxyToServer
        }
    }

    /// Routes one inbound event, whichever kind it is.
    pub fn handle_call(&self, msg: &Call) -> (r: Disposition)
        ensures
            match msg {
                Call::MethodCall(lid, c) => spec_disposition(
                    self.user_handlers@,
                    is_builtin_request(c.method@),
                    crate::registry::key_v(*lid),
                    c.method@,
                    r,
                ),
                Call::Notification(lid, n) => spec_disposition(
                    self.user_handlers@,
                    is_builtin_notification(n.method@),
                    crate::registry::key_v(*lid),
                    n.method@,
                    r,
                ),
            },
    {
        match msg {
            Call::MethodCall(lid, c) => self.handle_method_call(lid, c),
            Call::Notification(lid, n) => self.handle_notification(lid, n),
        }
    }
}

fn is_builtin_request_name(m: &[u8]) -> (r: bool)
    ensures
        r == is_builtin_request(m@),
{
    bytes_eq(m, "client/registerCapability".as_bytes())
        || bytes_eq(m, "client/unregisterCapability".as_bytes())
        || bytes_eq(m, "textDocument/hover".as_bytes())
        || bytes_eq(m, "languageClient/findLocations".as_bytes())
        || bytes_eq(m, "textDocument/rename".as_bytes())
        || bytes_eq(m, "textDocument/documentSymbol".as_bytes())
        || bytes_eq(m, "workspace/symbol".as_bytes())
        || bytes_eq(m, "textDocument/codeAction".as_bytes())
        || bytes_eq(m, "textDocument/completion".as_bytes())
        || bytes_eq(m, "textDocument/signatureHelp".as_bytes())
        || bytes_eq(m, "textDocument/references".as_bytes())
        || bytes_eq(m, "textDocument/formatting".as_bytes())
        || bytes_eq(m, "textDocument/rangeFormatting".as_bytes())
        || bytes_eq(m, "completionItem/resolve".as_bytes())
        || bytes_eq(m, "workspace/executeCommand".as_bytes())
        || bytes_eq(m, "workspace/applyEdit".as_bytes())
        || bytes_eq(m, "textDocument/documentHighlight".as_bytes())
        || bytes_eq(m, "languageClient/getState".as_bytes())
        || bytes_eq(m, "languageClient/isAlive".as_bytes())
        || bytes_eq(m, "languageClient/startServer".as_bytes())
        || bytes_eq(m, "languageClient/registerServerCommands".as_bytes())
        || bytes_eq(m, "languageClient/setLoggingLevel".as_bytes())
        || bytes_eq(m, "languageClient/setDiagnosticsList".as_bytes())
        || bytes_eq(m, "languageClient/registerHandlers".as_bytes())
        || bytes_eq(m, "LanguageClient_NCMRefresh".as_bytes())
        || bytes_eq(m, "LanguageClient_NCM2OnComplete".as_bytes())
        || bytes_eq(m, "languageClient/explainErrorAtPoint".as_bytes())
        || bytes_eq(m, "languageClient/omniComplete".as_bytes())
        || bytes_eq(m, "java/classFileContents".as_bytes())
        || bytes_eq(m, "languageClient/debugInfo".as_bytes())
}

fn is_builtin_notification_name(m: &[u8]) -> (r: bool)
    ensures
        r == is_builtin_notification(m@),
{
    bytes_eq(m, "workspace/didChangeConfiguration".as_bytes())
        || bytes_eq(m, "textDocument/didOpen".as_bytes())
        || bytes_eq(m, "textDocument/didChange".as_bytes())
        || bytes_eq(m, "textDocument/didSave".as_bytes())
        || bytes_eq(m, "textDocument/didClose".as_bytes())
        || bytes_eq(m, "textDocument/publishDiagnostics".as_bytes())
        || bytes_eq(m, "window/logMessage".as_bytes())
        || bytes_eq(m, "window/showMessage".as_bytes())
        || bytes_eq(m, "exit".as_bytes())
        || bytes_eq(m, "languageClient/handleFileType".as_bytes())
        || bytes_eq(m, "languageClient/handleBufNewFile".as_bytes())
        || bytes_eq(m, "languageClient/handleTextChanged".as_bytes())
        || bytes_eq(m, "languageClient/handleBufWritePost".as_bytes())
        || bytes_eq(m, "languageClient/handleBufDelete".as_bytes())
        || bytes_eq(m, "languageClient/handleCursorMoved".as_bytes())
        || bytes_eq(m, "languageClient/handleCompleteDone".as_bytes())
        || bytes_eq(m, "LanguageClient_FZFSinkLocation".as_bytes())
        || bytes_eq(m, "LanguageClient_FZFSinkCommand".as_bytes())
        || bytes_eq(m, "languageClient/clearDocumentHighlight".as_bytes())
        || bytes_eq(m, "language/status".as_bytes())
        || bytes_eq(m, "rustDocument/beginBuild".as_bytes())
        || bytes_eq(m, "rustDocument/diagnosticsBegin".as_bytes())
        || bytes_eq(m, "rustDocument/diagnosticsEnd".as_bytes())
        || bytes_eq(m, "window/progress".as_bytes())
        || bytes_eq(m, "languageClient/serverExited".as_bytes())
}

/// The reply that carries a handler's failure back to the caller of a
/// method call: a JSON-RPC error under the call's own id.
pub fn error_output(id: Id, code: i64, message: Vec<u8>) -> (r: Message)
    ensures
        msg_v(r) == (MessageV::Failure {
            id: id_v(id),
            error: (RpcErrorV { code: code as int, message: message@, data: Option::None }),
        }),
{
    Message::Output(
        Output::Failure {
            id,
            error: RpcError { code, message, data: Option::None },
        },
    )
}

/// The reply the dispatch loop itself owes for a routed method call: an
/// empty success for an ignored optional method, a "not handled" error for
/// a required method nobody answers. Every other disposition produces its
/// reply elsewhere, and a notification never gets one.
pub fn fallback_reply(d: &Disposition, id: Id) -> (r: Option<Message>)
    ensures
        match d {
            Disposition::IgnoreOptional => r matches Option::Some(m) && msg_v(m)
                == (MessageV::Success { id: id_v(id), result: JsonV::Null }),
            Disposition::UnhandledFromServer => r matches Option::Some(m) && msg_v(m)
                == (MessageV::Failure {
                id: id_v(id),
                error: (RpcErrorV {
                    code: -32601,
                    message: "Message not handled".spec_bytes(),
                    data: Option::None,
                }),
            }),
            _ => r is None,
        },
{
    match d {
        Disposition::IgnoreOptional => Option::Some(
            Message::Output(Output::Success { id, result: Json::Null }),
        ),
        Disposition::UnhandledFromServer => Option::Some(
            error_output(id, -32601, "Message not handled".as_bytes_vec()),
        ),
        _ => Option::None,
    }
}

/// The user-facing error for a proxy target with no running connection.
pub fn server_not_running_error(id: Id) -> (r: Message)
    ensures
        msg_v(r) == (MessageV::Failure {
            id: id_v(id),
            error: (RpcErrorV {
                code: -32603,
                message: "Server not running for this language".spec_bytes(),
                data: Option::None,
            }),
        }),
{
    error_output(id, -32603, "Server not running for this language".as_bytes_vec())
}

} // verus!
