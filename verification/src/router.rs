//! The controller: one entry point for every inbound frame.
//!
//! A frame is classified by its type tag and dispatched: the credential
//! handshake to the auth service, sync requests and the upload terminator to
//! the sync service, pings to a pong, entity mutations to the store and then
//! to the tenant broadcast. Before a connection authenticates, every frame
//! but the handshake is ignored outright, and no frame a connection provokes
//! ever reaches another tenant's connections.

use vstd::prelude::*;

use crate::auth::{auth_outcome, auth_success, authenticate};
use crate::clients::{chas, client_of, clients_wf, lemma_client_of_member, ClientHandler, ClientV};
use crate::ext::now_millis;
use crate::messages::{broadcast_update, fanout, spec_ack_of, MessageError};
use crate::protocol::{
    classify, empty_frame, outgoing_view, spec_classify, Frame, MessageType, Outgoing, OutgoingV,
};
use crate::record::FieldV;
use crate::registry::{
    empty_user_name, tenant_of, thas, update_applied, update_valid, DatabaseHandler, TenantV,
};
use crate::store::{photo_payload_oversized, EntityKind, RowStore};
use crate::sync::{
    handle_sync_complete, handle_sync_request, spec_watermark, sync_request_ok, SyncError,
};

verus! {

/// What the router hands back to the transport: the frames to enqueue, and
/// whether the connection should be closed afterwards.
pub struct RouterOutcome {
    pub outgoing: Vec<Outgoing>,
    pub close: bool,
}

/// Every output of one dispatch stays inside the sender's tenant: a frame is
/// addressed to the sender itself, or to an authenticated client of the very
/// tenant the sender is authenticated for.
pub open spec fn isolated_outputs(
    cs: Seq<ClientV>,
    sender: Seq<char>,
    outs: Seq<OutgoingV>,
) -> bool {
    forall|k: int|
        0 <= k < outs.len() ==> (#[trigger] outs[k]).client_id == sender || {
            &&& chas(cs, outs[k].client_id)
            &&& chas(cs, sender)
            &&& client_of(cs, outs[k].client_id).authenticated
            &&& client_of(cs, sender).authenticated
            &&& client_of(cs, outs[k].client_id).db_name == client_of(cs, sender).db_name
        }
}

/// What one dispatch does, by the frame's classification.
///
/// An unregistered sender is dropped; an unauthenticated sender gets only
/// the credential handshake through. A handshake runs the authentication
/// procedure and closes the connection exactly on failure. A sync request
/// earns the full replay of the sender's tenant, or nothing when a stored
/// photo payload cannot be re-encoded. The upload terminator and a ping earn
/// their one reply frame. A mutation of a valid record is ingested into the
/// sender's tenant store and fanned out exactly when it changed state.
/// Anything else is ignored.
pub open spec fn dispatched(
    db0: Seq<TenantV>,
    cs0: Seq<ClientV>,
    db1: Seq<TenantV>,
    cs1: Seq<ClientV>,
    cid: Seq<char>,
    f: crate::protocol::FrameV,
    outs: Seq<OutgoingV>,
    close: bool,
    now: int,
) -> bool {
    if !chas(cs0, cid) {
        &&& outs.len() == 0
        &&& db1 == db0
        &&& cs1 == cs0
        &&& close
    } else {
        let sender = client_of(cs0, cid);
        let tenant = sender.db_name;
        if !sender.authenticated && spec_classify(f.typ) != MessageType::AuthenticationRequest {
            &&& outs.len() == 0
            &&& db1 == db0
            &&& cs1 == cs0
            &&& !close
        } else {
            match spec_classify(f.typ) {
                MessageType::AuthenticationRequest => {
                    &&& db1 == db0
                    &&& if sender.authenticated {
                        &&& outs.len() == 0
                        &&& cs1 == cs0
                        &&& !close
                    } else {
                        &&& auth_outcome(db0, cs0, cs1, cid, f.data, outs)
                        &&& close == !auth_success(db0, f.data)
                    }
                },
                MessageType::SyncRequest => {
                    &&& db1 == db0
                    &&& !close
                    &&& if !thas(db0, tenant) {
                        &&& outs.len() == 0
                        &&& cs1 == cs0
                    } else {
                        let store = tenant_of(db0, tenant).db;
                        ||| sync_request_ok(store, cs0, cs1, cid, f.data, outs, now)
                        ||| {
                            &&& outs.len() == 0
                            &&& cs1 == cs0
                            &&& exists|j: int|
                                0 <= j < store.photos.len() && (#[trigger] store.photos[j]).arrival
                                    > spec_watermark(f.data, EntityKind::Photo)
                                    && photo_payload_oversized(
                                    EntityKind::Photo,
                                    store.photos[j],
                                )
                        }
                    }
                },
                MessageType::SyncComplete => {
                    &&& db1 == db0
                    &&& cs1 == cs0
                    &&& !close
                    &&& outs.len() == 1
                    &&& outs[0].client_id == cid
                    &&& outs[0].frame.typ == "sync_to_server_complete"@
                    &&& outs[0].frame.data == Seq::<FieldV>::empty()
                    &&& outs[0].frame.timestamp == now
                },
                MessageType::Ping => {
                    &&& db1 == db0
                    &&& cs1 == cs0
                    &&& !close
                    &&& outs.len() == 1
                    &&& outs[0].client_id == cid
                    &&& outs[0].frame.typ == "pong"@
                    &&& outs[0].frame.data == Seq::<FieldV>::empty()
                    &&& outs[0].frame.timestamp == now
                },
                MessageType::EntityUpdate(kind) => {
                    &&& cs1 == cs0
                    &&& !close
                    &&& if !thas(db0, tenant) {
                        &&& outs.len() == 0
                        &&& db1 == db0
                    } else if empty_user_name(kind, f.data) || !update_valid(kind, f.data) {
                        &&& outs.len() == 0
                        &&& db1 == db0
                    } else {
                        &&& thas(db1, tenant)
                        &&& tenant_of(db1, tenant).name == tenant
                        &&& forall|t: Seq<char>| thas(db1, t) <==> thas(db0, t)
                        &&& forall|t: Seq<char>|
                            t != tenant && thas(db0, t) ==> tenant_of(db1, t) == tenant_of(db0, t)
                        &&& exists|changed: bool|
                            {
                                &&& #[trigger] update_applied(
                                    kind,
                                    tenant_of(db0, tenant).db,
                                    f.data,
                                    now,
                                    tenant_of(db1, tenant).db,
                                    changed,
                                )
                                &&& (changed ==> outs == fanout(
                                    cs0,
                                    cid,
                                    tenant,
                                    f,
                                    spec_ack_of(f, now),
                                ))
                                &&& (!changed ==> outs.len() == 0)
                            }
                    }
                },
                MessageType::Unknown => {
                    &&& outs.len() == 0
                    &&& db1 == db0
                    &&& cs1 == cs0
                    &&& !close
                },
            }
        }
    }
}

/// The server's shared state: the tenant registry and the client registry,
/// handed by shared ownership to every connection task.
pub struct Controller {
    pub database_handler: DatabaseHandler,
    pub client_handler: ClientHandler,
}

impl Controller {
    /// Whether both registries are well formed. All library operations
    /// preserve this.
    pub open spec fn wf(&self) -> bool {
        &&& self.database_handler.wf()
        &&& self.client_handler.wf()
    }

    /// A fresh controller with no tenants and no clients.
    pub fn new() -> (r: Controller)
        ensures
            r.wf(),
            r.database_handler@ == Seq::<crate::registry::TenantV>::empty(),
            r.client_handler@ == Seq::<ClientV>::empty(),
    {
        Controller { database_handler: DatabaseHandler::new(), client_handler: ClientHandler::new() }
    }

    /// Routes one inbound frame, stamping server time from the wall clock.
    pub fn handle_message(&mut self, client_id: &str, frame: &Frame) -> (r: RouterOutcome)
        requires
            old(self).wf(),
            frame.data.wf(),
        ensures
            final(self).wf(),
            isolated_outputs(
                final(self).client_handler@,
                client_id@,
                outgoing_view(r.outgoing@),
            ),
            forall|t: Seq<char>|
                thas(final(self).database_handler@, t) <==> thas(old(self).database_handler@, t),
            !(spec_classify(frame@.typ) is EntityUpdate) ==> final(self).database_handler@ == old(
                self,
            ).database_handler@,
            forall|t: Seq<char>|
                t != client_of(old(self).client_handler@, client_id@).db_name && thas(
                    old(self).database_handler@,
                    t,
                ) ==> tenant_of(final(self).database_handler@, t) == tenant_of(
                    old(self).database_handler@,
                    t,
                ),
            (!chas(old(self).client_handler@, client_id@) || (!client_of(
                old(self).client_handler@,
                client_id@,
            ).authenticated && spec_classify(frame@.typ) != MessageType::AuthenticationRequest))
                ==> {
                &&& r.outgoing@.len() == 0
                &&& final(self).client_handler@ == old(self).client_handler@
                &&& final(self).database_handler@ == old(self).database_handler@
            },
            exists|wall: int|
                dispatched(
                    old(self).database_handler@,
                    old(self).client_handler@,
                    final(self).database_handler@,
                    final(self).client_handler@,
                    client_id@,
                    frame@,
                    outgoing_view(r.outgoing@),
                    r.close,
                    wall,
                ),
    {
        let now = now_millis();
        let r = self.process_message(client_id, frame, now);
        proof {
            assert(dispatched(
                old(self).database_handler@,
                old(self).client_handler@,
                final(self).database_handler@,
                final(self).client_handler@,
                client_id@,
                frame@,
                outgoing_view(r.outgoing@),
                r.close,
                now as int,
            ));
        }
        r
    }

    /// Routes one inbound frame at a given server time.
    ///
    /// An unregistered sender, and any frame but the credential handshake
    /// from an unauthenticated sender, is ignored: no frame is produced and
    /// nothing changes. Outputs never leave the sender's tenant, and what
    /// each frame earns is pinned by `dispatched`.
    #[verifier::rlimit(60)]
    pub fn process_message(&mut self, client_id: &str, frame: &Frame, now: i64) -> (r:
        RouterOutcome)
        requires
            old(self).wf(),
            frame.data.wf(),
        ensures
            final(self).wf(),
            isolated_outputs(
                final(self).client_handler@,
                client_id@,
                outgoing_view(r.outgoing@),
            ),
            forall|t: Seq<char>|
                thas(final(self).database_handler@, t) <==> thas(old(self).database_handler@, t),
            !(spec_classify(frame@.typ) is EntityUpdate) ==> final(self).database_handler@ == old(
                self,
            ).database_handler@,
            forall|t: Seq<char>|
                t != client_of(old(self).client_handler@, client_id@).db_name && thas(
                    old(self).database_handler@,
                    t,
                ) ==> tenant_of(final(self).database_handler@, t) == tenant_of(
                    old(self).database_handler@,
                    t,
                ),
            (!chas(old(self).client_handler@, client_id@) || (!client_of(
                old(self).client_handler@,
                client_id@,
            ).authenticated && spec_classify(frame@.typ) != MessageType::AuthenticationRequest))
                ==> {
                &&& r.outgoing@.len() == 0
                &&& final(self).client_handler@ == old(self).client_handler@
                &&& final(self).database_handler@ == old(self).database_handler@
            },
            dispatched(
                old(self).database_handler@,
                old(self).client_handler@,
                final(self).database_handler@,
                final(self).client_handler@,
                client_id@,
                frame@,
                outgoing_view(r.outgoing@),
                r.close,
                now as int,
            ),
    {
        let mt = classify(frame.typ.as_str());
        let (authed, tenant) = match self.client_handler.get_client(client_id) {
            Some(c) => (c.authenticated, c.db_name.clone()),
            None => {
                proof {
                    assert(outgoing_view(Seq::<Outgoing>::empty()) =~= Seq::<OutgoingV>::empty());
                }
                return RouterOutcome { outgoing: Vec::new(), close: true };
            },
        };
        if !authed && !matches!(mt, MessageType::AuthenticationRequest) {
            proof {
                assert(outgoing_view(Seq::<Outgoing>::empty()) =~= Seq::<OutgoingV>::empty());
            }
            return RouterOutcome { outgoing: Vec::new(), close: false };
        }

        match mt {
            MessageType::AuthenticationRequest => {
                if authed {
                    // a repeated handshake after authentication is ignored
                    self.empty_outcome(false)
                } else {
                    let (outgoing, ok) = authenticate(
                        &self.database_handler,
                        &mut self.client_handler,
                        client_id,
                        &frame.data,
                        now,
                    );
                    proof {
                        lemma_sender_only(
                            outgoing_view(outgoing@),
                            self.client_handler@,
                            client_id@,
                        );
                    }
                    RouterOutcome { outgoing, close: !ok }
                }
            },
            MessageType::SyncRequest => {
                let store = match self.database_handler.store_of(tenant.as_str()) {
                    Some(s) => s,
                    None => {
                        return self.empty_outcome(false);
                    },
                };
                proof {
                    crate::registry::lemma_tidx_of(self.database_handler@, tenant@);
                    assert(crate::store::store_wf(store@));
                }
                match handle_sync_request(store, &mut self.client_handler, client_id, &frame.data, now) {
                    Ok(outgoing) => {
                        proof {
                            lemma_sender_only(
                                outgoing_view(outgoing@),
                                self.client_handler@,
                                client_id@,
                            );
                        }
                        RouterOutcome { outgoing, close: false }
                    },
                    Err(_) => self.empty_outcome(false),
                }
            },
            MessageType::SyncComplete => {
                let mut outgoing: Vec<Outgoing> = Vec::new();
                outgoing.push(handle_sync_complete(client_id, now));
                proof {
                    assert(outgoing_view(outgoing@) =~= seq![outgoing@[0]@]);
                    assert(outgoing_view(outgoing@)[0] == outgoing@[0]@);
                    lemma_sender_only(outgoing_view(outgoing@), self.client_handler@, client_id@);
                }
                RouterOutcome { outgoing, close: false }
            },
            MessageType::Ping => {
                let mut outgoing: Vec<Outgoing> = Vec::new();
                outgoing.push(
                    Outgoing { client_id: client_id.to_owned(), frame: empty_frame("pong", now) },
                );
                proof {
                    assert(outgoing_view(outgoing@) =~= seq![outgoing@[0]@]);
                    assert(outgoing_view(outgoing@)[0] == outgoing@[0]@);
                    lemma_sender_only(outgoing_view(outgoing@), self.client_handler@, client_id@);
                }
                RouterOutcome { outgoing, close: false }
            },
            MessageType::EntityUpdate(kind) => {
                let changed = match self.database_handler.process_update(
                    tenant.as_str(),
                    kind,
                    &frame.data,
                    now,
                ) {
                    Ok(changed) => changed,
                    Err(_) => {
                        return self.empty_outcome(false);
                    },
                };
                if !changed {
                    return self.empty_outcome(false);
                }
                match broadcast_update(&self.client_handler, client_id, frame, now) {
                    Ok(outgoing) => {
                        proof {
                            assert(update_applied(
                                kind,
                                tenant_of(old(self).database_handler@, tenant@).db,
                                frame@.data,
                                now as int,
                                tenant_of(self.database_handler@, tenant@).db,
                                true,
                            ));
                            let cs = self.client_handler@;
                            let sender = client_of(cs, client_id@);
                            crate::messages::lemma_fanout_isolated(
                                cs,
                                client_id@,
                                sender.db_name,
                                frame@,
                                crate::messages::spec_ack_of(frame@, now as int),
                            );
                            assert forall|k: int|
                                0 <= k < outgoing_view(outgoing@).len() implies (#[trigger] outgoing_view(
                                outgoing@,
                            )[k]).client_id == client_id@ || {
                                &&& chas(cs, outgoing_view(outgoing@)[k].client_id)
                                &&& chas(cs, client_id@)
                                &&& client_of(cs, outgoing_view(outgoing@)[k].client_id).authenticated
                                &&& client_of(cs, client_id@).authenticated
                                &&& client_of(cs, outgoing_view(outgoing@)[k].client_id).db_name
                                    == client_of(cs, client_id@).db_name
                            } by {
                                let outs = outgoing_view(outgoing@);
                                if outs[k].client_id != client_id@ {
                                    let j = choose|j: int|
                                        0 <= j < cs.len() && (#[trigger] cs[j]).id
                                            == outs[k].client_id && cs[j].authenticated
                                            && cs[j].db_name == sender.db_name;
                                    lemma_client_of_member(cs, j);
                                }
                            }
                        }
                        RouterOutcome { outgoing, close: false }
                    },
                    Err(_) => self.empty_outcome(false),
                }
            },
            MessageType::Unknown => self.empty_outcome(false),
        }
    }

    /// An outcome with no frames.
    fn empty_outcome(&self, close: bool) -> (r: RouterOutcome)
        ensures
            r.outgoing@.len() == 0,
            r.close == close,
    {
        RouterOutcome { outgoing: Vec::new(), close }
    }
}

/// Outputs addressed to the sender alone are isolated.
proof fn lemma_sender_only(outs: Seq<OutgoingV>, cs: Seq<ClientV>, sender: Seq<char>)
    requires
        forall|k: int| 0 <= k < outs.len() ==> (#[trigger] outs[k]).client_id == sender,
    ensures
        isolated_outputs(cs, sender, outs),
{
}

} // verus!
