//! The auth service: credential parsing and the authentication procedure.
//!
//! A credential is `<tenant>-<userId>`, split on the first dash, both parts
//! non-empty. Authentication verifies that the tenant is provisioned and
//! that the user id resolves to a live user in that tenant's store, then
//! marks the connection authenticated and answers with an acceptance frame;
//! an unknown tenant or user is answered with a rejection frame. Connection
//! errors produce no response at all, so that they cannot leak whether a
//! tenant exists.

use vstd::prelude::*;

use crate::clients::{chas, client_of, ClientHandler, ClientV};
use crate::protocol::{Frame, Outgoing};
use crate::record::{lemma_rec_get_index, rec_get, FieldV, Record, Value, ValueV};
use crate::registry::{tenant_of, thas, DatabaseHandler};
use crate::store::EntityKind;
use crate::table::{has_id, row_of, RowV};
use vstd::string::StrSliceExecFns;

verus! {

/// An authentication failure.
#[derive(Debug)]
pub enum AuthError {
    /// The frame carried no data record.
    MissingData,
    /// The data record carried no apiKey column.
    MissingApiKey,
    /// The credential is not `<tenant>-<userId>` with both parts non-empty.
    InvalidApiKeyFormat,
    /// The tenant store failed.
    DatabaseError(String),
    /// The row store failed.
    StorageError(String),
    /// The client registry failed.
    ClientError(String),
    /// The response could not be sent.
    MessageError(String),
}

/// The index of the first dash, or the length if there is none.
pub open spec fn first_dash(s: Seq<char>) -> int
    decreases s.len(),
{
    if s.len() == 0 {
        0
    } else if s[0] == '-' {
        0
    } else {
        1 + first_dash(s.drop_first())
    }
}

/// Whether a credential splits into two non-empty parts on its first dash.
pub open spec fn api_key_valid(s: Seq<char>) -> bool {
    0 < first_dash(s) && first_dash(s) + 1 < s.len()
}

/// The tenant part of a credential: everything before the first dash.
pub open spec fn tenant_part(s: Seq<char>) -> Seq<char> {
    s.take(first_dash(s))
}

/// The user part of a credential: everything after the first dash.
pub open spec fn user_part(s: Seq<char>) -> Seq<char> {
    s.skip(first_dash(s) + 1)
}

/// `first_dash` finds an index known to be the first dash.
proof fn lemma_first_dash_exact(s: Seq<char>, i: int)
    requires
        0 <= i < s.len(),
        s[i] == '-',
        forall|j: int| 0 <= j < i ==> s[j] != '-',
    ensures
        first_dash(s) == i,
    decreases s.len(),
{
    if i > 0 {
        assert(s.drop_first()[i - 1] == '-');
        assert forall|j: int| 0 <= j < i - 1 implies s.drop_first()[j] != '-' by {
            assert(s.drop_first()[j] == s[j + 1]);
        }
        lemma_first_dash_exact(s.drop_first(), i - 1);
    }
}

/// `first_dash` is the length when there is no dash.
proof fn lemma_first_dash_absent(s: Seq<char>)
    requires
        forall|j: int| 0 <= j < s.len() ==> s[j] != '-',
    ensures
        first_dash(s) == s.len(),
    decreases s.len(),
{
    if s.len() > 0 {
        assert forall|j: int| 0 <= j < s.drop_first().len() implies s.drop_first()[j] != '-' by {
            assert(s.drop_first()[j] == s[j + 1]);
        }
        lemma_first_dash_absent(s.drop_first());
    }
}

/// Splits a credential on its first dash into tenant and user id. Rejects a
/// credential without a dash, and one with an empty part.
pub fn parse_api_key(key: &str) -> (r: Option<(String, String)>)
    ensures
        match r {
            Some(parts) => {
                &&& api_key_valid(key@)
                &&& parts.0@ == tenant_part(key@)
                &&& parts.1@ == user_part(key@)
            },
            None => !api_key_valid(key@),
        },
{
    let n = key.unicode_len();
    let mut i: usize = 0;
    while i < n
        invariant
            i <= n,
            n == key@.len(),
            forall|j: int| 0 <= j < i ==> key@[j] != '-',
        decreases n - i,
    {
        if key.get_char(i) == '-' {
            proof {
                lemma_first_dash_exact(key@, i as int);
            }
            if i == 0 || i + 1 >= n {
                return None;
            }
            let tenant = key.substring_char(0, i).to_owned();
            let user = key.substring_char(i + 1, n).to_owned();
            proof {
                assert(tenant@ =~= tenant_part(key@));
                assert(user@ =~= user_part(key@));
            }
            return Some((tenant, user));
        }
        i = i + 1;
    }
    proof {
        lemma_first_dash_absent(key@);
    }
    None
}

/// The data record of a rejection frame.
pub open spec fn auth_reject_data(error: Seq<char>) -> Seq<FieldV> {
    seq![
        FieldV { name: "authenticated"@, value: ValueV::Int(0) },
        FieldV { name: "error"@, value: ValueV::Text(error) },
    ]
}

/// The role column of a stored user row; missing defaults to zero.
pub open spec fn role_of(row: RowV) -> ValueV {
    match rec_get(row.data, "role"@) {
        Some(v) => v,
        None => ValueV::Int(0),
    }
}

/// The name column of a stored user row; missing defaults to a placeholder.
pub open spec fn name_of(row: RowV) -> ValueV {
    match rec_get(row.data, "name"@) {
        Some(v) => v,
        None => ValueV::Text("Unknown User"@),
    }
}

/// The data record of an acceptance frame: the resolved user's identity.
pub open spec fn auth_ok_data(row: RowV) -> Seq<FieldV> {
    seq![
        FieldV { name: "authenticated"@, value: ValueV::Int(1) },
        FieldV { name: "id"@, value: ValueV::Text(row.id) },
        FieldV { name: "role"@, value: role_of(row) },
        FieldV { name: "lastEdit"@, value: ValueV::Int(row.last_edit) },
        FieldV { name: "name"@, value: name_of(row) },
    ]
}

/// The column names of the authentication frames are pairwise distinct.
proof fn lemma_auth_names_distinct()
    ensures
        "authenticated"@.len() == 13,
        "error"@.len() == 5,
        "id"@.len() == 2,
        "role"@.len() == 4,
        "lastEdit"@.len() == 8,
        "name"@.len() == 4,
        "role"@ != "name"@,
{
    reveal_strlit("authenticated");
    reveal_strlit("error");
    reveal_strlit("id");
    reveal_strlit("role");
    reveal_strlit("lastEdit");
    reveal_strlit("name");
    assert("role"@[0] == 'r');
    assert("name"@[0] == 'n');
}

/// Builds a rejection frame.
fn reject_frame(error: &str, now: i64) -> (r: Frame)
    ensures
        r@.typ == "authentication_response"@,
        r@.data == auth_reject_data(error@),
        r@.timestamp == now as int,
{
    proof {
        lemma_auth_names_distinct();
    }
    let mut data = Record::new();
    data.push_field(String::from_str("authenticated"), Value::Int(0));
    proof {
        lemma_rec_get_index(data@, "error"@);
        assert(data@.len() == 1 && data@[0].name == "authenticated"@);
    }
    data.push_field(String::from_str("error"), Value::Text(error.to_owned()));
    proof {
        assert(data@ =~= auth_reject_data(error@));
    }
    Frame { typ: String::from_str("authentication_response"), data, timestamp: now }
}

/// Builds an acceptance frame from the resolved user's stored row.
fn accept_frame(row: &crate::table::Row, now: i64) -> (r: Frame)
    requires
        crate::record::rec_wf(row@.data),
    ensures
        r@.typ == "authentication_response"@,
        r@.data == auth_ok_data(row@),
        r@.timestamp == now as int,
{
    proof {
        lemma_auth_names_distinct();
    }
    let mut data = Record::new();
    data.push_field(String::from_str("authenticated"), Value::Int(1));
    proof {
        lemma_rec_get_index(data@, "id"@);
        assert(data@.len() == 1 && data@[0].name == "authenticated"@);
    }
    data.push_field(String::from_str("id"), Value::Text(row.id.clone()));
    let role = match row.data.get("role") {
        Some(v) => v.dup(),
        None => Value::Int(0),
    };
    proof {
        assert(role@ == role_of(row@));
        lemma_rec_get_index(data@, "role"@);
        assert(data@.len() == 2 && data@[0].name == "authenticated"@ && data@[1].name == "id"@);
    }
    data.push_field(String::from_str("role"), role);
    proof {
        lemma_rec_get_index(data@, "lastEdit"@);
        assert(data@.len() == 3 && data@[0].name == "authenticated"@ && data@[1].name == "id"@
            && data@[2].name == "role"@);
    }
    data.push_field(String::from_str("lastEdit"), Value::Int(row.last_edit));
    let name = match row.data.get("name") {
        Some(v) => v.dup(),
        None => Value::Text(String::from_str("Unknown User")),
    };
    proof {
        assert(name@ == name_of(row@));
        lemma_rec_get_index(data@, "name"@);
        assert(data@.len() == 4 && data@[0].name == "authenticated"@ && data@[1].name == "id"@
            && data@[2].name == "role"@ && data@[3].name == "lastEdit"@);
    }
    data.push_field(String::from_str("name"), name);
    proof {
        assert(data@ =~= auth_ok_data(row@));
    }
    Frame { typ: String::from_str("authentication_response"), data, timestamp: now }
}

/// The credential a frame's data record carries, if any.
pub open spec fn api_key_of(data: Seq<FieldV>) -> Option<Seq<char>> {
    match rec_get(data, "apiKey"@) {
        Some(ValueV::Text(s)) => Some(s),
        _ => None,
    }
}

/// Whether the credential resolves to a live user of a provisioned tenant.
pub open spec fn auth_resolves(db: Seq<crate::registry::TenantV>, key: Seq<char>) -> bool {
    &&& api_key_valid(key)
    &&& thas(db, tenant_part(key))
    &&& has_id(tenant_of(db, tenant_part(key)).db.users, user_part(key))
    &&& !row_of(tenant_of(db, tenant_part(key)).db.users, user_part(key)).deleted
}

/// Whether a credential frame succeeds: it carries a text apiKey that
/// resolves to a live user of a provisioned tenant.
pub open spec fn auth_success(db: Seq<crate::registry::TenantV>, data: Seq<FieldV>) -> bool {
    match api_key_of(data) {
        Some(key) => auth_resolves(db, key),
        None => false,
    }
}

/// What one authentication attempt does, from the credential frame alone.
///
/// A frame without a text apiKey, or with a malformed credential, produces
/// no response; an unknown tenant or user produces one rejection frame; a
/// resolved user is marked authenticated for the tenant, every other
/// registration untouched, and answered with one acceptance frame carrying
/// the stored user row's identity.
pub open spec fn auth_outcome(
    db: Seq<crate::registry::TenantV>,
    pre: Seq<ClientV>,
    post: Seq<ClientV>,
    cid: Seq<char>,
    data: Seq<FieldV>,
    outs: Seq<crate::protocol::OutgoingV>,
) -> bool {
    match api_key_of(data) {
        None => {
            &&& outs.len() == 0
            &&& post == pre
        },
        Some(key) => {
            if !api_key_valid(key) {
                &&& outs.len() == 0
                &&& post == pre
            } else if !thas(db, tenant_part(key)) {
                &&& outs.len() == 1
                &&& outs[0].client_id == cid
                &&& outs[0].frame.typ == "authentication_response"@
                &&& outs[0].frame.data == auth_reject_data("Invalid tenant"@)
                &&& post == pre
            } else if !auth_resolves(db, key) {
                &&& outs.len() == 1
                &&& outs[0].client_id == cid
                &&& outs[0].frame.typ == "authentication_response"@
                &&& outs[0].frame.data == auth_reject_data("User not found"@)
                &&& post == pre
            } else {
                &&& outs.len() == 1
                &&& outs[0].client_id == cid
                &&& outs[0].frame.typ == "authentication_response"@
                &&& outs[0].frame.data == auth_ok_data(
                    row_of(tenant_of(db, tenant_part(key)).db.users, user_part(key)),
                )
                &&& chas(post, cid)
                &&& client_of(post, cid) == (ClientV {
                    id: cid,
                    db_name: tenant_part(key),
                    user_id: user_part(key),
                    sync_completed: client_of(pre, cid).sync_completed,
                    authenticated: true,
                })
                &&& forall|id: Seq<char>| id != cid ==> (chas(post, id) <==> chas(pre, id))
                &&& forall|id: Seq<char>|
                    id != cid && chas(pre, id) ==> client_of(post, id) == client_of(pre, id)
            }
        },
    }
}

/// Authenticates one connection from its credential frame.
///
/// A malformed credential produces no response; an unknown tenant or user
/// produces a rejection frame; a resolved user marks the connection
/// authenticated for the tenant and produces an acceptance frame carrying
/// the user's identity. The client registry changes exactly on success.
pub fn authenticate(
    db: &DatabaseHandler,
    clients: &mut ClientHandler,
    client_id: &str,
    data: &Record,
    now: i64,
) -> (r: (Vec<Outgoing>, bool))
    requires
        db.wf(),
        old(clients).wf(),
        chas(old(clients)@, client_id@),
    ensures
        final(clients).wf(),
        auth_outcome(
            db@,
            old(clients)@,
            final(clients)@,
            client_id@,
            data@,
            crate::protocol::outgoing_view(r.0@),
        ),
        r.1 == auth_success(db@, data@),
{
    let key = match data.get("apiKey") {
        Some(Value::Text(s)) => s.clone(),
        _ => {
            return (Vec::new(), false);
        },
    };
    let (tenant, user_id) = match parse_api_key(key.as_str()) {
        Some(parts) => parts,
        None => {
            return (Vec::new(), false);
        },
    };
    if !db.database_exists(tenant.as_str()) {
        let mut outs: Vec<Outgoing> = Vec::new();
        outs.push(
            Outgoing { client_id: client_id.to_owned(), frame: reject_frame("Invalid tenant", now) },
        );
        proof {
            assert(crate::protocol::outgoing_view(outs@) =~= seq![outs@[0]@]);
        }
        return (outs, false);
    }
    let store = match db.store_of(tenant.as_str()) {
        Some(s) => s,
        None => {
            return (Vec::new(), false);
        },
    };
    let user_row = match store.get_live_by_id(EntityKind::User, user_id.as_str()) {
        Some(row) => row,
        None => {
            let mut outs: Vec<Outgoing> = Vec::new();
            outs.push(
                Outgoing {
                    client_id: client_id.to_owned(),
                    frame: reject_frame("User not found", now),
                },
            );
            proof {
                assert(crate::protocol::outgoing_view(outs@) =~= seq![outs@[0]@]);
            }
            return (outs, false);
        },
    };
    proof {
        let users = tenant_of(db@, tenant@).db.users;
        assert(tenant_of(db@, tenant@).db.table(EntityKind::User) == users);
        crate::registry::lemma_tidx_of(db@, tenant@);
        assert(crate::store::store_wf(db@[crate::registry::tidx_of(db@, tenant@)].db));
        crate::table::lemma_idx_of(users, user_id@);
        assert(crate::record::rec_wf(user_row@.data)) by {
            assert(crate::table::table_wf(users));
            assert(user_row@ == users[crate::table::idx_of(users, user_id@)]);
        }
    }
    let frame = accept_frame(user_row, now);
    match clients.update_client_auth(client_id, tenant, user_id) {
        Ok(()) => {},
        Err(_) => {
            // the caller's registration is a precondition, so this cannot fail
            proof {
                assert(false);
            }
            return (Vec::new(), false);
        },
    }
    let mut outs: Vec<Outgoing> = Vec::new();
    outs.push(Outgoing { client_id: client_id.to_owned(), frame });
    proof {
        assert(crate::protocol::outgoing_view(outs@) =~= seq![outs@[0]@]);
    }
    (outs, true)
}

} // verus!
