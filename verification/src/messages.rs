//! The message service: per-client send and tenant-scoped broadcast.
//!
//! An ingested mutation that changed state fans out at most once to every
//! other authenticated, replay-complete peer of the originator's tenant,
//! verbatim; the originator alone receives an acknowledgement. Peers of
//! other tenants never appear among the outputs.

use vstd::prelude::*;

use crate::clients::{chas, client_of, ClientHandler, ClientV};
use crate::protocol::{ack_data, is_delete_frame, outgoing_view, Frame, FrameV, Outgoing, OutgoingV};
use crate::record::{rec_get, Value, ValueV};

verus! {

/// A send failure.
#[derive(Debug)]
pub enum MessageError {
    /// No entry is bound to the client id.
    ClientNotFound(String),
    /// The sender has not authenticated.
    ClientNotAuthenticated,
    /// The transport rejected the frame.
    SendFailed(String),
}

/// The fan-out of one ingested mutation, in registry order: every
/// authenticated, replay-complete peer of the tenant receives the frame
/// verbatim, and the originator receives the acknowledgement.
pub open spec fn fanout(
    cs: Seq<ClientV>,
    sender_id: Seq<char>,
    tenant: Seq<char>,
    frame: FrameV,
    ack: FrameV,
) -> Seq<OutgoingV>
    decreases cs.len(),
{
    if cs.len() == 0 {
        Seq::empty()
    } else {
        let rest = fanout(cs.drop_last(), sender_id, tenant, frame, ack);
        let c = cs.last();
        if c.id == sender_id {
            rest.push(OutgoingV { client_id: c.id, frame: ack })
        } else if c.authenticated && c.db_name == tenant && c.sync_completed {
            rest.push(OutgoingV { client_id: c.id, frame: frame })
        } else {
            rest
        }
    }
}

/// Every target of the fan-out is the originator itself or an authenticated
/// client of the originator's tenant: frames never cross tenants.
pub proof fn lemma_fanout_isolated(
    cs: Seq<ClientV>,
    sender_id: Seq<char>,
    tenant: Seq<char>,
    frame: FrameV,
    ack: FrameV,
)
    ensures
        forall|k: int|
            0 <= k < fanout(cs, sender_id, tenant, frame, ack).len()
                ==> (#[trigger] fanout(cs, sender_id, tenant, frame, ack)[k]).client_id == sender_id
                || exists|j: int|
                0 <= j < cs.len() && (#[trigger] cs[j]).id == fanout(
                    cs,
                    sender_id,
                    tenant,
                    frame,
                    ack,
                )[k].client_id && cs[j].authenticated && cs[j].db_name == tenant,
    decreases cs.len(),
{
    if cs.len() > 0 {
        lemma_fanout_isolated(cs.drop_last(), sender_id, tenant, frame, ack);
        let outs = fanout(cs, sender_id, tenant, frame, ack);
        let rest = fanout(cs.drop_last(), sender_id, tenant, frame, ack);
        assert forall|k: int|
            0 <= k < outs.len() implies (#[trigger] outs[k]).client_id == sender_id || exists|
            j: int,
        |
            0 <= j < cs.len() && (#[trigger] cs[j]).id == outs[k].client_id && cs[j].authenticated
                && cs[j].db_name == tenant by {
            if k < rest.len() {
                assert(outs[k] == rest[k]);
                if rest[k].client_id != sender_id {
                    let j = choose|j: int|
                        0 <= j < cs.drop_last().len() && (#[trigger] cs.drop_last()[j]).id
                            == rest[k].client_id && cs.drop_last()[j].authenticated
                            && cs.drop_last()[j].db_name == tenant;
                    assert(cs[j] == cs.drop_last()[j]);
                }
            } else {
                let c = cs.last();
                if c.id != sender_id {
                    assert(cs[cs.len() - 1] == c);
                }
            }
        }
    }
}

/// Computes the outbound frames of one ingested mutation.
///
/// The originator must be registered and authenticated. Every authenticated,
/// replay-complete peer of its tenant receives `frame` verbatim; the
/// originator receives the acknowledgement: the original frame again for a
/// tombstone, otherwise an `ack_data` frame of the mutated entity's id,
/// stamped `now`.
pub fn broadcast_update(clients: &ClientHandler, sender_id: &str, frame: &Frame, now: i64) -> (r:
    Result<Vec<Outgoing>, MessageError>)
    ensures
        match r {
            Ok(outs) => {
                &&& chas(clients@, sender_id@)
                &&& client_of(clients@, sender_id@).authenticated
                &&& outgoing_view(outs@) == fanout(
                    clients@,
                    sender_id@,
                    client_of(clients@, sender_id@).db_name,
                    frame@,
                    spec_ack_of(frame@, now as int),
                )
            },
            Err(MessageError::ClientNotFound(_)) => !chas(clients@, sender_id@),
            Err(MessageError::ClientNotAuthenticated) => {
                &&& chas(clients@, sender_id@)
                &&& !client_of(clients@, sender_id@).authenticated
            },
            Err(MessageError::SendFailed(_)) => false,
        },
{
    let sender = match clients.get_client(sender_id) {
        Some(c) => c.dup(),
        None => {
            return Err(MessageError::ClientNotFound(sender_id.to_owned()));
        },
    };
    if !sender.authenticated {
        return Err(MessageError::ClientNotAuthenticated);
    }

    let ack: Frame = if frame_is_tombstone(frame) {
        frame.dup()
    } else {
        let id_value: Value = match frame.data.get("id") {
            Some(v) => v.dup(),
            None => Value::Text(String::from_str("unknown")),
        };
        crate::protocol::ack_frame(frame.typ.as_str(), &id_value, now)
    };
    proof {
        assert(ack@ == spec_ack_of(frame@, now as int));
    }

    let peers = clients.all_entries();
    let n = peers.len();
    let mut outs: Vec<Outgoing> = Vec::new();
    let mut i: usize = 0;
    proof {
        assert(clients@.take(0) =~= Seq::<ClientV>::empty());
        assert(outgoing_view(outs@) =~= fanout(
            clients@.take(0),
            sender_id@,
            sender@.db_name,
            frame@,
            ack@,
        ));
    }
    while i < n
        invariant
            i <= n,
            n == peers@.len(),
            crate::clients::clients_view(peers@) == clients@,
            outgoing_view(outs@) == fanout(
                clients@.take(i as int),
                sender_id@,
                sender@.db_name,
                frame@,
                ack@,
            ),
        decreases n - i,
    {
        proof {
            assert(clients@.take(i as int + 1).drop_last() =~= clients@.take(i as int));
            assert(clients@.take(i as int + 1).last() == clients@[i as int]);
            assert(peers@[i as int]@ == clients@[i as int]);
        }
        if crate::strutil::str_eq(peers[i].id.as_str(), sender_id) {
            outs.push(Outgoing { client_id: peers[i].id.clone(), frame: ack.dup() });
        } else if peers[i].authenticated
            && crate::strutil::str_eq(peers[i].db_name.as_str(), sender.db_name.as_str())
            && peers[i].sync_completed {
            outs.push(Outgoing { client_id: peers[i].id.clone(), frame: frame.dup() });
        }
        i = i + 1;
        proof {
            assert(outgoing_view(outs@) =~= fanout(
                clients@.take(i as int),
                sender_id@,
                sender@.db_name,
                frame@,
                ack@,
            ));
        }
    }
    proof {
        assert(clients@.take(n as int) =~= clients@);
    }
    Ok(outs)
}

/// The acknowledgement a mutation frame earns: a tombstone echoes verbatim,
/// anything else earns an `ack_data` frame under the same type tag.
pub open spec fn spec_ack_of(frame: FrameV, now: int) -> FrameV {
    if is_delete_frame(frame.data) {
        frame
    } else {
        FrameV {
            typ: frame.typ,
            data: ack_data(
                match rec_get(frame.data, "id"@) {
                    Some(v) => v,
                    None => ValueV::Text("unknown"@),
                },
            ),
            timestamp: now,
        }
    }
}

/// Whether a mutation frame is a tombstone.
fn frame_is_tombstone(frame: &Frame) -> (r: bool)
    ensures
        r == is_delete_frame(frame@.data),
{
    crate::protocol::frame_is_delete(&frame.data)
}

} // verus!
