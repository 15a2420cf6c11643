//! The in-memory registry of connected clients.
//!
//! Each entry records a connection's tenant, user, and protocol phase: the
//! `authenticated` flag is set when the credential resolves, and the
//! `sync_completed` flag when server-to-client replay has finished. The
//! outbound frame channel itself lives with the transport; the registry is
//! what the services consult to decide who receives a frame.

use vstd::prelude::*;

use crate::strutil::str_eq;

verus! {

/// One connected client.
pub struct Client {
    pub id: String,
    pub db_name: String,
    pub user_id: String,
    pub sync_completed: bool,
    pub authenticated: bool,
}

/// The mathematical value of a `Client`.
pub struct ClientV {
    pub id: Seq<char>,
    pub db_name: Seq<char>,
    pub user_id: Seq<char>,
    pub sync_completed: bool,
    pub authenticated: bool,
}

impl View for Client {
    type V = ClientV;

    open spec fn view(&self) -> ClientV {
        ClientV {
            id: self.id@,
            db_name: self.db_name@,
            user_id: self.user_id@,
            sync_completed: self.sync_completed,
            authenticated: self.authenticated,
        }
    }
}

impl Client {
    /// An exact copy of the entry.
    pub fn dup(&self) -> (r: Client)
        ensures
            r@ == self@,
    {
        Client {
            id: self.id.clone(),
            db_name: self.db_name.clone(),
            user_id: self.user_id.clone(),
            sync_completed: self.sync_completed,
            authenticated: self.authenticated,
        }
    }
}

/// The views of the entries of a vector.
pub open spec fn clients_view(cs: Seq<Client>) -> Seq<ClientV> {
    cs.map(|i: int, c: Client| c@)
}

/// The index of the entry bound to `id`, or the length if there is none.
pub open spec fn cidx_of(cs: Seq<ClientV>, id: Seq<char>) -> int
    decreases cs.len(),
{
    if cs.len() == 0 {
        0
    } else if cs[0].id == id {
        0
    } else {
        1 + cidx_of(cs.drop_first(), id)
    }
}

/// Whether some entry is bound to `id`.
pub open spec fn chas(cs: Seq<ClientV>, id: Seq<char>) -> bool {
    cidx_of(cs, id) < cs.len()
}

/// The entry bound to `id`.
pub open spec fn client_of(cs: Seq<ClientV>, id: Seq<char>) -> ClientV {
    cs[cidx_of(cs, id)]
}

/// Well-formedness of the registry: client ids are unique.
pub open spec fn clients_wf(cs: Seq<ClientV>) -> bool {
    forall|i: int, j: int| 0 <= i < j < cs.len() ==> cs[i].id != cs[j].id
}

/// What `cidx_of` points at.
pub proof fn lemma_cidx_of(cs: Seq<ClientV>, id: Seq<char>)
    ensures
        0 <= cidx_of(cs, id) <= cs.len(),
        chas(cs, id) ==> cs[cidx_of(cs, id)].id == id,
        forall|j: int| 0 <= j < cidx_of(cs, id) ==> cs[j].id != id,
        !chas(cs, id) ==> forall|j: int| 0 <= j < cs.len() ==> cs[j].id != id,
    decreases cs.len(),
{
    if cs.len() > 0 && cs[0].id != id {
        lemma_cidx_of(cs.drop_first(), id);
        assert forall|j: int| 0 <= j < cidx_of(cs, id) implies cs[j].id != id by {
            if j > 0 {
                assert(cs.drop_first()[j - 1].id != id);
            }
        }
        if chas(cs, id) {
            assert(cs[cidx_of(cs, id)] == cs.drop_first()[cidx_of(cs, id) - 1]);
        } else {
            assert forall|j: int| 0 <= j < cs.len() implies cs[j].id != id by {
                if j > 0 {
                    assert(cs.drop_first()[j - 1].id != id);
                }
            }
        }
    }
}

/// `cidx_of` finds an index known to be the first match.
pub proof fn lemma_cidx_of_exact(cs: Seq<ClientV>, id: Seq<char>, i: int)
    requires
        0 <= i < cs.len(),
        cs[i].id == id,
        forall|j: int| 0 <= j < i ==> cs[j].id != id,
    ensures
        cidx_of(cs, id) == i,
        chas(cs, id),
    decreases cs.len(),
{
    if i > 0 {
        assert(cs.drop_first()[i - 1].id == id);
        assert forall|j: int| 0 <= j < i - 1 implies cs.drop_first()[j].id != id by {
            assert(cs.drop_first()[j] == cs[j + 1]);
        }
        lemma_cidx_of_exact(cs.drop_first(), id, i - 1);
    }
}

/// `cidx_of` is the length when no index matches.
pub proof fn lemma_cidx_of_absent(cs: Seq<ClientV>, id: Seq<char>)
    requires
        forall|j: int| 0 <= j < cs.len() ==> cs[j].id != id,
    ensures
        cidx_of(cs, id) == cs.len(),
        !chas(cs, id),
    decreases cs.len(),
{
    if cs.len() > 0 {
        assert forall|j: int| 0 <= j < cs.drop_first().len() implies cs.drop_first()[j].id != id by {
            assert(cs.drop_first()[j] == cs[j + 1]);
        }
        lemma_cidx_of_absent(cs.drop_first(), id);
    }
}

/// The authenticated clients of one tenant, in registry order.
pub open spec fn tenant_clients(cs: Seq<ClientV>, tenant: Seq<char>) -> Seq<ClientV>
    decreases cs.len(),
{
    if cs.len() == 0 {
        Seq::empty()
    } else {
        let rest = tenant_clients(cs.drop_last(), tenant);
        if cs.last().authenticated && cs.last().db_name == tenant {
            rest.push(cs.last())
        } else {
            rest
        }
    }
}

/// The authenticated clients, in registry order.
pub open spec fn authed_clients(cs: Seq<ClientV>) -> Seq<ClientV>
    decreases cs.len(),
{
    if cs.len() == 0 {
        Seq::empty()
    } else {
        let rest = authed_clients(cs.drop_last());
        if cs.last().authenticated {
            rest.push(cs.last())
        } else {
            rest
        }
    }
}

/// The number of authenticated clients.
pub open spec fn auth_count(cs: Seq<ClientV>) -> int
    decreases cs.len(),
{
    if cs.len() == 0 {
        0
    } else {
        auth_count(cs.drop_last()) + if cs.last().authenticated {
            1int
        } else {
            0int
        }
    }
}

/// A registration failure.
#[derive(Debug)]
pub enum ClientError {
    /// No entry is bound to the client id.
    NotFound,
    /// The client has not authenticated.
    NotAuthenticated,
}

/// The client registry, keyed by connection id.
pub struct ClientHandler {
    clients: Vec<Client>,
}

impl View for ClientHandler {
    type V = Seq<ClientV>;

    closed spec fn view(&self) -> Seq<ClientV> {
        clients_view(self.clients@)
    }
}

/// A fresh, unauthenticated entry.
pub open spec fn fresh_client(id: Seq<char>) -> ClientV {
    ClientV {
        id: id,
        db_name: Seq::empty(),
        user_id: Seq::empty(),
        sync_completed: false,
        authenticated: false,
    }
}

impl ClientHandler {
    /// Whether the registry's ids are unique. All library operations
    /// preserve this.
    pub open spec fn wf(&self) -> bool {
        clients_wf(self@)
    }

    /// The empty registry.
    pub fn new() -> (r: ClientHandler)
        ensures
            r@ == Seq::<ClientV>::empty(),
            r.wf(),
    {
        let r = ClientHandler { clients: Vec::new() };
        proof {
            assert(r@ =~= Seq::<ClientV>::empty());
        }
        r
    }

    /// The index of the entry bound to `id`, if any.
    fn find(&self, client_id: &str) -> (r: Option<usize>)
        ensures
            match r {
                Some(i) => chas(self@, client_id@) && i == cidx_of(self@, client_id@),
                None => !chas(self@, client_id@),
            },
    {
        let n = self.clients.len();
        let mut i: usize = 0;
        while i < n
            invariant
                i <= n,
                forall|j: int| 0 <= j < i ==> self@[j].id != client_id@,
            decreases n - i,
        {
            if str_eq(self.clients[i].id.as_str(), client_id) {
                proof {
                    lemma_cidx_of_exact(self@, client_id@, i as int);
                }
                return Some(i);
            }
            i = i + 1;
        }
        proof {
            lemma_cidx_of_absent(self@, client_id@);
        }
        None
    }

    /// Registers a fresh connection: unauthenticated, replay not complete.
    /// A reused id replaces the stale entry, as a rebound connection would.
    pub fn add_client(&mut self, client_id: String) -> (r: Result<(), ClientError>)
        requires
            old(self).wf(),
        ensures
            final(self).wf(),
            r is Ok,
            chas(final(self)@, client_id@),
            client_of(final(self)@, client_id@) == fresh_client(client_id@),
            forall|id: Seq<char>|
                id != client_id@ ==> (chas(final(self)@, id) <==> chas(old(self)@, id)),
            forall|id: Seq<char>|
                id != client_id@ && chas(old(self)@, id) ==> client_of(final(self)@, id)
                    == client_of(old(self)@, id),
    {
        let ghost pre = self@;
        let fresh = Client {
            id: client_id,
            db_name: String::new(),
            user_id: String::new(),
            sync_completed: false,
            authenticated: false,
        };
        let ghost fid = fresh.id@;
        match self.find(fresh.id.as_str()) {
            Some(i) => {
                self.clients.set(i, fresh);
                proof {
                    assert(self@ =~= pre.update(cidx_of(pre, fid), fresh_client(fid)));
                    lemma_update_entry(pre, self@, fid, fresh_client(fid));
                }
            },
            None => {
                self.clients.push(fresh);
                proof {
                    assert(self@ =~= pre.push(fresh_client(fid)));
                    lemma_push_entry(pre, self@, fid, fresh_client(fid));
                }
            },
        }
        Ok(())
    }

    /// Unregisters a connection. Fails if the id is unknown.
    pub fn remove_client(&mut self, client_id: &str) -> (r: Result<(), ClientError>)
        requires
            old(self).wf(),
        ensures
            final(self).wf(),
            r is Ok <==> chas(old(self)@, client_id@),
            !chas(final(self)@, client_id@),
            forall|id: Seq<char>|
                id != client_id@ ==> (chas(final(self)@, id) <==> chas(old(self)@, id)),
            forall|id: Seq<char>|
                id != client_id@ && chas(old(self)@, id) ==> client_of(final(self)@, id)
                    == client_of(old(self)@, id),
    {
        let ghost pre = self@;
        match self.find(client_id) {
            Some(i) => {
                self.clients.remove(i);
                proof {
                    assert(self@ =~= pre.remove(cidx_of(pre, client_id@)));
                    lemma_remove_entry(pre, self@, client_id@);
                }
                Ok(())
            },
            None => Err(ClientError::NotFound),
        }
    }

    /// The entry bound to a connection id.
    pub fn get_client(&self, client_id: &str) -> (r: Option<&Client>)
        ensures
            match r {
                Some(c) => chas(self@, client_id@) && c@ == client_of(self@, client_id@),
                None => !chas(self@, client_id@),
            },
    {
        match self.find(client_id) {
            Some(i) => {
                proof {
                    lemma_cidx_of(self@, client_id@);
                }
                Some(&self.clients[i])
            },
            None => None,
        }
    }

    /// Marks a connection authenticated for a tenant and user. Fails if the
    /// id is unknown.
    pub fn update_client_auth(&mut self, client_id: &str, db_name: String, user_id: String) -> (r:
        Result<(), ClientError>)
        requires
            old(self).wf(),
        ensures
            final(self).wf(),
            r is Ok <==> chas(old(self)@, client_id@),
            r is Ok ==> {
                &&& chas(final(self)@, client_id@)
                &&& client_of(final(self)@, client_id@) == (ClientV {
                    id: client_id@,
                    db_name: db_name@,
                    user_id: user_id@,
                    sync_completed: client_of(old(self)@, client_id@).sync_completed,
                    authenticated: true,
                })
            },
            r is Err ==> final(self)@ == old(self)@,
            forall|id: Seq<char>|
                id != client_id@ ==> (chas(final(self)@, id) <==> chas(old(self)@, id)),
            forall|id: Seq<char>|
                id != client_id@ && chas(old(self)@, id) ==> client_of(final(self)@, id)
                    == client_of(old(self)@, id),
    {
        let ghost pre = self@;
        match self.find(client_id) {
            Some(i) => {
                proof {
                    lemma_cidx_of(pre, client_id@);
                }
                let mut entry = self.clients[i].dup();
                entry.db_name = db_name;
                entry.user_id = user_id;
                entry.authenticated = true;
                let ghost ev = entry@;
                self.clients.set(i, entry);
                proof {
                    assert(self@ =~= pre.update(cidx_of(pre, client_id@), ev));
                    lemma_update_entry(pre, self@, client_id@, ev);
                }
                Ok(())
            },
            None => Err(ClientError::NotFound),
        }
    }

    /// Marks server-to-client replay complete for a connection. Fails if the
    /// id is unknown.
    pub fn mark_sync_completed(&mut self, client_id: &str) -> (r: Result<(), ClientError>)
        requires
            old(self).wf(),
        ensures
            final(self).wf(),
            r is Ok <==> chas(old(self)@, client_id@),
            r is Ok ==> {
                &&& chas(final(self)@, client_id@)
                &&& client_of(final(self)@, client_id@) == (ClientV {
                    sync_completed: true,
                    ..client_of(old(self)@, client_id@)
                })
            },
            r is Err ==> final(self)@ == old(self)@,
            forall|id: Seq<char>|
                id != client_id@ ==> (chas(final(self)@, id) <==> chas(old(self)@, id)),
            forall|id: Seq<char>|
                id != client_id@ && chas(old(self)@, id) ==> client_of(final(self)@, id)
                    == client_of(old(self)@, id),
    {
        let ghost pre = self@;
        match self.find(client_id) {
            Some(i) => {
                proof {
                    lemma_cidx_of(pre, client_id@);
                }
                let mut entry = self.clients[i].dup();
                entry.sync_completed = true;
                let ghost ev = entry@;
                self.clients.set(i, entry);
                proof {
                    assert(self@ =~= pre.update(cidx_of(pre, client_id@), ev));
                    lemma_update_entry(pre, self@, client_id@, ev);
                }
                Ok(())
            },
            None => Err(ClientError::NotFound),
        }
    }

    /// The authenticated clients of one tenant, in registry order.
    pub fn get_clients_by_tenant(&self, tenant: &str) -> (r: Vec<Client>)
        ensures
            clients_view(r@) == tenant_clients(self@, tenant@),
    {
        let n = self.clients.len();
        let mut out: Vec<Client> = Vec::new();
        let mut i: usize = 0;
        proof {
            assert(self@.take(0) =~= Seq::<ClientV>::empty());
            assert(clients_view(out@) =~= tenant_clients(self@.take(0), tenant@));
        }
        while i < n
            invariant
                i <= n,
                clients_view(out@) == tenant_clients(self@.take(i as int), tenant@),
            decreases n - i,
        {
            proof {
                assert(self@.take(i as int + 1).drop_last() =~= self@.take(i as int));
                assert(self@.take(i as int + 1).last() == self@[i as int]);
            }
            if self.clients[i].authenticated && str_eq(self.clients[i].db_name.as_str(), tenant) {
                out.push(self.clients[i].dup());
            }
            i = i + 1;
            proof {
                assert(clients_view(out@) =~= tenant_clients(self@.take(i as int), tenant@));
            }
        }
        proof {
            assert(self@.take(n as int) =~= self@);
        }
        out
    }

    /// Every authenticated client, in registry order.
    pub fn get_authenticated_clients(&self) -> (r: Vec<Client>)
        ensures
            clients_view(r@) == authed_clients(self@),
            r@.len() == auth_count(self@),
    {
        let n = self.clients.len();
        let mut out: Vec<Client> = Vec::new();
        let mut i: usize = 0;
        proof {
            assert(self@.take(0) =~= Seq::<ClientV>::empty());
            assert(clients_view(out@) =~= authed_clients(self@.take(0)));
        }
        while i < n
            invariant
                i <= n,
                clients_view(out@) == authed_clients(self@.take(i as int)),
                out@.len() == auth_count(self@.take(i as int)),
            decreases n - i,
        {
            proof {
                assert(self@.take(i as int + 1).drop_last() =~= self@.take(i as int));
                assert(self@.take(i as int + 1).last() == self@[i as int]);
            }
            if self.clients[i].authenticated {
                out.push(self.clients[i].dup());
            }
            i = i + 1;
            proof {
                assert(clients_view(out@) =~= authed_clients(self@.take(i as int)));
            }
        }
        proof {
            assert(self@.take(n as int) =~= self@);
        }
        out
    }

    /// A borrowed view of every entry, in registry order.
    pub fn all_entries(&self) -> (r: &Vec<Client>)
        ensures
            clients_view(r@) == self@,
    {
        &self.clients
    }

    /// The number of registered connections.
    pub fn client_count(&self) -> (n: usize)
        ensures
            n == self@.len(),
    {
        self.clients.len()
    }

    /// The number of authenticated connections.
    pub fn authenticated_count(&self) -> (n: usize)
        ensures
            n == auth_count(self@),
    {
        let total = self.clients.len();
        let mut count: usize = 0;
        let mut i: usize = 0;
        proof {
            assert(self@.take(0) =~= Seq::<ClientV>::empty());
        }
        while i < total
            invariant
                i <= total,
                count <= i,
                count == auth_count(self@.take(i as int)),
            decreases total - i,
        {
            proof {
                assert(self@.take(i as int + 1).drop_last() =~= self@.take(i as int));
                assert(self@.take(i as int + 1).last() == self@[i as int]);
            }
            if self.clients[i].authenticated {
                count = count + 1;
            }
            i = i + 1;
        }
        proof {
            assert(self@.take(total as int) =~= self@);
        }
        count
    }
}

/// Every entry of a well-formed registry is the one its id binds.
pub proof fn lemma_client_of_member(cs: Seq<ClientV>, j: int)
    requires
        clients_wf(cs),
        0 <= j < cs.len(),
    ensures
        chas(cs, cs[j].id),
        client_of(cs, cs[j].id) == cs[j],
{
    assert forall|m: int| 0 <= m < j implies cs[m].id != cs[j].id by {
        assert(cs[m].id != cs[j].id);
    }
    lemma_cidx_of_exact(cs, cs[j].id, j);
}

/// Updating the entry at its own index rebinds that id and no other.
proof fn lemma_update_entry(pre: Seq<ClientV>, post: Seq<ClientV>, id: Seq<char>, entry: ClientV)
    requires
        clients_wf(pre),
        chas(pre, id),
        entry.id == id,
        post == pre.update(cidx_of(pre, id), entry),
    ensures
        clients_wf(post),
        chas(post, id),
        client_of(post, id) == entry,
        forall|x: Seq<char>| x != id ==> (chas(post, x) <==> chas(pre, x)),
        forall|x: Seq<char>| x != id && chas(pre, x) ==> client_of(post, x) == client_of(pre, x),
{
    let i = cidx_of(pre, id);
    lemma_cidx_of(pre, id);
    assert forall|p: int, q: int| 0 <= p < q < post.len() implies post[p].id != post[q].id by {
        assert(pre[p].id != pre[q].id);
    }
    assert forall|j: int| 0 <= j < i implies post[j].id != id by {
        assert(post[j] == pre[j]);
    }
    lemma_cidx_of_exact(post, id, i);
    assert forall|x: Seq<char>| x != id implies (chas(post, x) <==> chas(pre, x)) && (chas(pre, x)
        ==> client_of(post, x) == client_of(pre, x)) by {
        lemma_cidx_of(post, x);
        lemma_cidx_of(pre, x);
        if chas(pre, x) {
            let j = cidx_of(pre, x);
            assert(pre[j].id == x);
            assert(j != i);
            assert(post[j] == pre[j]);
            assert forall|m: int| 0 <= m < j implies post[m].id != x by {
                if m == i {
                    assert(post[m].id == id);
                } else {
                    assert(post[m] == pre[m]);
                }
            }
            lemma_cidx_of_exact(post, x, j);
        }
        if chas(post, x) {
            let j = cidx_of(post, x);
            assert(post[j].id == x);
            assert(j != i);
            assert(pre[j].id == x);
        }
    }
}

/// Appending a fresh entry binds its id and no other.
proof fn lemma_push_entry(pre: Seq<ClientV>, post: Seq<ClientV>, id: Seq<char>, entry: ClientV)
    requires
        clients_wf(pre),
        !chas(pre, id),
        entry.id == id,
        post == pre.push(entry),
    ensures
        clients_wf(post),
        chas(post, id),
        client_of(post, id) == entry,
        forall|x: Seq<char>| x != id ==> (chas(post, x) <==> chas(pre, x)),
        forall|x: Seq<char>| x != id && chas(pre, x) ==> client_of(post, x) == client_of(pre, x),
{
    lemma_cidx_of(pre, id);
    assert forall|p: int, q: int| 0 <= p < q < post.len() implies post[p].id != post[q].id by {
        if q < pre.len() {
            assert(pre[p].id != pre[q].id);
        } else {
            assert(pre[p].id != id);
        }
    }
    assert forall|j: int| 0 <= j < pre.len() implies post[j].id != id by {
        assert(post[j] == pre[j]);
    }
    lemma_cidx_of_exact(post, id, pre.len() as int);
    assert forall|x: Seq<char>| x != id implies (chas(post, x) <==> chas(pre, x)) && (chas(pre, x)
        ==> client_of(post, x) == client_of(pre, x)) by {
        lemma_cidx_of(post, x);
        lemma_cidx_of(pre, x);
        if chas(pre, x) {
            let j = cidx_of(pre, x);
            assert(post[j] == pre[j]);
            assert forall|m: int| 0 <= m < j implies post[m].id != x by {
                assert(post[m] == pre[m]);
            }
            lemma_cidx_of_exact(post, x, j);
        }
        if chas(post, x) {
            let j = cidx_of(post, x);
            assert(post[j].id == x);
            assert(j < pre.len());
            assert(pre[j].id == x);
        }
    }
}

/// Removing the entry at its own index unbinds that id and no other.
proof fn lemma_remove_entry(pre: Seq<ClientV>, post: Seq<ClientV>, id: Seq<char>)
    requires
        clients_wf(pre),
        chas(pre, id),
        post == pre.remove(cidx_of(pre, id)),
    ensures
        clients_wf(post),
        !chas(post, id),
        forall|x: Seq<char>| x != id ==> (chas(post, x) <==> chas(pre, x)),
        forall|x: Seq<char>| x != id && chas(pre, x) ==> client_of(post, x) == client_of(pre, x),
{
    let i = cidx_of(pre, id);
    lemma_cidx_of(pre, id);
    assert forall|p: int, q: int| 0 <= p < q < post.len() implies post[p].id != post[q].id by {
        let p0: int = if p < i { p } else { p + 1 };
        let q0: int = if q < i { q } else { q + 1 };
        assert(post[p] == pre[p0]);
        assert(post[q] == pre[q0]);
    }
    assert forall|j: int| 0 <= j < post.len() implies post[j].id != id by {
        let j0: int = if j < i { j } else { j + 1 };
        assert(post[j] == pre[j0]);
        assert(pre[j0].id != pre[i].id || j0 == i);
    }
    lemma_cidx_of_absent(post, id);
    assert forall|x: Seq<char>| x != id implies (chas(post, x) <==> chas(pre, x)) && (chas(pre, x)
        ==> client_of(post, x) == client_of(pre, x)) by {
        lemma_cidx_of(post, x);
        lemma_cidx_of(pre, x);
        if chas(pre, x) {
            let j = cidx_of(pre, x);
            assert(pre[j].id == x);
            assert(j != i);
            let j2: int = if j < i { j } else { j - 1 };
            assert(post[j2] == pre[j]);
            assert forall|m: int| 0 <= m < j2 implies post[m].id != x by {
                let m0: int = if m < i { m } else { m + 1 };
                assert(post[m] == pre[m0]);
            }
            lemma_cidx_of_exact(post, x, j2);
        }
        if chas(post, x) {
            let j = cidx_of(post, x);
            assert(post[j].id == x);
            let j0: int = if j < i { j } else { j + 1 };
            assert(pre[j0].id == x);
        }
    }
}

} // verus!
