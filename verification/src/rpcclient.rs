//! One connection's client half: the outgoing id counter, the pending-call
//! table, and the frames that calls and notifications put on the wire.
//!
//! Ids count up from one and are never reused while a call is outstanding,
//! so every reply resolves exactly the caller that waits under its id. The
//! byte stream itself is owned by the surrounding process; this state decides
//! what is written and who is woken.

use vstd::prelude::*;
use crate::json::Json;
use crate::message::{Message, MethodCall, Notification, Output, Id, IdV, Params, params_v,
    MessageV, msg_jv};
use crate::pending::{PendingTable, lemma_pend_lookup_absent};
use crate::transport::{frame_bytes, encode_message};
use crate::codec::jser;

verus! {

pub struct RpcClient<S> {
    /// Which server connection this client writes to; nothing for the
    /// editor's own connection.
    pub language_id: Option<Vec<u8>>,
    /// The last id handed out.
    pub id: u64,
    /// One entry per outstanding call.
    pub pending: PendingTable<S>,
}

impl<S> RpcClient<S> {
    /// Every outstanding id was handed out by this counter, so a fresh id
    /// collides with none of them.
    pub open spec fn wf(self) -> bool {
        &&& self.pending.wf()
        &&& forall|k: int| 0 <= k < self.pending.entries@.len()
            ==> 1 <= (#[trigger] self.pending.entries@[k]).0 <= self.id
    }

    pub fn new(language_id: Option<Vec<u8>>) -> (r: RpcClient<S>)
        ensures
            r.language_id == language_id,
            r.id == 0,
            r.pending.entries@.len() == 0,
            r.wf(),
    {
        RpcClient { language_id, id: 0, pending: PendingTable::new() }
    }

    /// Prepares one outbound request: allocates the next id, registers the
    /// caller's completion slot under it, and yields the frame to write.
    /// The caller then suspends on its slot until [`Self::resolve_reply`]
    /// hands the slot out or [`Self::disconnect`] fails it.
    pub fn call(&mut self, method: Vec<u8>, params: Params, slot: S) -> (r: (u64, Vec<u8>))
        requires
            old(self).wf(),
            old(self).id < 0x7fff_ffff_ffff_ffff,
        ensures
            final(self).wf(),
            final(self).id == old(self).id + 1,
            final(self).language_id == old(self).language_id,
            r.0 == old(self).id + 1,
            r.1@ == frame_bytes(
                jser(
                    msg_jv(
                        MessageV::MethodCall {
                            id: IdV::Num(r.0 as int),
                            method: method@,
                            params: params_v(params),
                        },
                    ),
                ),
            ),
            final(self).pending.spec_lookup(r.0) == Option::Some(slot),
            forall|other: u64| other != r.0 ==> final(self).pending.spec_lookup(other) == old(
                self,
            ).pending.spec_lookup(other),
    {
        self.id = self.id + 1;
        let id = self.id;
        proof {
            assert forall|k: int|
                0 <= k < self.pending.entries@.len() implies (
            #[trigger] self.pending.entries@[k]).0 != id by {}
            lemma_pend_lookup_absent(self.pending.entries@, id);
        }
        let msg = Message::MethodCall(
            MethodCall { id: Id::Num(id), method, params },
        );
        let frame = encode_message(msg);
        self.pending.register(id, slot);
        (id, frame)
    }

    /// The frame of one fire-and-forget notification: no id, no
    /// registration, nothing to wait on.
    pub fn notify(&self, method: Vec<u8>, params: Params) -> (r: Vec<u8>)
        ensures
            r@ == frame_bytes(
                jser(
                    msg_jv(MessageV::Notification { method: method@, params: params_v(params) }),
                ),
            ),
    {
        let msg = Message::Notification(Notification { method, params });
        encode_message(msg)
    }

    /// Pairs an arrived reply with the caller waiting under its id: that
    /// slot and no other leaves the table. A reply under an id nobody waits
    /// on yields nothing, which the caller must report.
    pub fn resolve_reply(&mut self, id: u64) -> (r: Option<S>)
        requires
            old(self).wf(),
        ensures
            final(self).wf(),
            final(self).id == old(self).id,
            final(self).language_id == old(self).language_id,
            r == old(self).pending.spec_lookup(id),
            final(self).pending.spec_lookup(id) is None,
            (r is None) ==> *final(self) == *old(self),
            forall|other: u64| other != id ==> final(self).pending.spec_lookup(other) == old(
                self,
            ).pending.spec_lookup(other),
    {
        let ghost olde = self.pending.entries@;
        let r = self.pending.resolve(id);
        proof {
            if r is Some {
                let i = choose|i: int|
                    0 <= i < olde.len() && (#[trigger] olde[i]).0 == id
                        && self.pending.entries@ == olde.take(i) + olde.skip(i + 1);
                assert forall|k: int|
                    0 <= k < self.pending.entries@.len() implies 1 <= (
                #[trigger] self.pending.entries@[k]).0 <= self.id by {
                    if k < i {
                        assert(self.pending.entries@[k] == olde[k]);
                    } else {
                        assert(self.pending.entries@[k] == olde[k + 1]);
                    }
                }
            }
        }
        r
    }

    /// Tears the connection down: every outstanding slot comes out exactly
    /// once, to be failed with a disconnection error; none is left waiting.
    pub fn disconnect(&mut self) -> (r: Vec<(u64, S)>)
        requires
            old(self).wf(),
        ensures
            final(self).wf(),
            r@ == old(self).pending.entries@,
            crate::pending::distinct_ids(r@),
            final(self).pending.entries@.len() == 0,
            forall|id: u64| final(self).pending.spec_lookup(id) is None,
    {
        let r = self.pending.drain();
        proof {
            assert forall|id: u64| #[trigger] self.pending.spec_lookup(id) is None by {
                lemma_pend_lookup_absent(self.pending.entries@, id);
            }
        }
        r
    }
}

/// What a resolved reply means to the caller that waited on it: the
/// success payload, or the server-reported failure message.
pub fn output_to_result(o: Output) -> (r: Result<Json, Vec<u8>>)
    ensures
        match o {
            Output::Success { result, .. } => r == Result::<Json, Vec<u8>>::Ok(result),
            Output::Failure { error, .. } => r == Result::<Json, Vec<u8>>::Err(error.message),
        },
{
    match o {
        Output::Success { result, .. } => Result::Ok(result),
        Output::Failure { error, .. } => Result::Err(error.message),
    }
}

} // verus!
