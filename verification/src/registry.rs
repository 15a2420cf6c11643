//! The tenant registry: one isolated store per tenant.
//!
//! A tenant is provisioned out of band; a request for an unknown tenant is
//! rejected, never provisioned. Every write addresses exactly one tenant's
//! store, and leaves every other tenant untouched.

use vstd::prelude::*;

use crate::protocol::is_delete_frame;
use crate::record::{rec_get, Record, Value, ValueV};
use crate::store::{
    photo_blob_ok, save_applies, tables_unchanged_except, wire_id, wire_ids, wire_last_edit,
    DatabaseError, EntityKind, RowStore, StoreV,
};
use crate::strutil::str_eq;
use crate::table::{delete_step, WriteOutcome};

verus! {

/// One tenant: its name and its store.
pub struct Tenant {
    pub name: String,
    pub db: RowStore,
}

/// The mathematical value of a `Tenant`.
pub struct TenantV {
    pub name: Seq<char>,
    pub db: StoreV,
}

impl View for Tenant {
    type V = TenantV;

    open spec fn view(&self) -> TenantV {
        TenantV { name: self.name@, db: self.db@ }
    }
}

/// The views of the tenants of a vector.
pub open spec fn tenants_view(ts: Seq<Tenant>) -> Seq<TenantV> {
    ts.map(|i: int, t: Tenant| t@)
}

/// The index of the tenant bound to `name`, or the length if there is none.
pub open spec fn tidx_of(ts: Seq<TenantV>, name: Seq<char>) -> int
    decreases ts.len(),
{
    if ts.len() == 0 {
        0
    } else if ts[0].name == name {
        0
    } else {
        1 + tidx_of(ts.drop_first(), name)
    }
}

/// Whether some tenant is bound to `name`.
pub open spec fn thas(ts: Seq<TenantV>, name: Seq<char>) -> bool {
    tidx_of(ts, name) < ts.len()
}

/// The tenant bound to `name`.
pub open spec fn tenant_of(ts: Seq<TenantV>, name: Seq<char>) -> TenantV {
    ts[tidx_of(ts, name)]
}

/// Well-formedness of the registry: tenant names are unique.
pub open spec fn tenants_wf(ts: Seq<TenantV>) -> bool {
    forall|i: int, j: int| 0 <= i < j < ts.len() ==> ts[i].name != ts[j].name
}

/// What `tidx_of` points at.
pub proof fn lemma_tidx_of(ts: Seq<TenantV>, name: Seq<char>)
    ensures
        0 <= tidx_of(ts, name) <= ts.len(),
        thas(ts, name) ==> ts[tidx_of(ts, name)].name == name,
        forall|j: int| 0 <= j < tidx_of(ts, name) ==> ts[j].name != name,
        !thas(ts, name) ==> forall|j: int| 0 <= j < ts.len() ==> ts[j].name != name,
    decreases ts.len(),
{
    if ts.len() > 0 && ts[0].name != name {
        lemma_tidx_of(ts.drop_first(), name);
        assert forall|j: int| 0 <= j < tidx_of(ts, name) implies ts[j].name != name by {
            if j > 0 {
                assert(ts.drop_first()[j - 1].name != name);
            }
        }
        if thas(ts, name) {
            assert(ts[tidx_of(ts, name)] == ts.drop_first()[tidx_of(ts, name) - 1]);
        } else {
            assert forall|j: int| 0 <= j < ts.len() implies ts[j].name != name by {
                if j > 0 {
                    assert(ts.drop_first()[j - 1].name != name);
                }
            }
        }
    }
}

/// `tidx_of` finds an index known to be the first match.
pub proof fn lemma_tidx_of_exact(ts: Seq<TenantV>, name: Seq<char>, i: int)
    requires
        0 <= i < ts.len(),
        ts[i].name == name,
        forall|j: int| 0 <= j < i ==> ts[j].name != name,
    ensures
        tidx_of(ts, name) == i,
        thas(ts, name),
    decreases ts.len(),
{
    if i > 0 {
        assert(ts.drop_first()[i - 1].name == name);
        assert forall|j: int| 0 <= j < i - 1 implies ts.drop_first()[j].name != name by {
            assert(ts.drop_first()[j] == ts[j + 1]);
        }
        lemma_tidx_of_exact(ts.drop_first(), name, i - 1);
    }
}

/// `tidx_of` is the length when no index matches.
pub proof fn lemma_tidx_of_absent(ts: Seq<TenantV>, name: Seq<char>)
    requires
        forall|j: int| 0 <= j < ts.len() ==> ts[j].name != name,
    ensures
        tidx_of(ts, name) == ts.len(),
        !thas(ts, name),
    decreases ts.len(),
{
    if ts.len() > 0 {
        assert forall|j: int| 0 <= j < ts.drop_first().len() implies ts.drop_first()[j].name
            != name by {
            assert(ts.drop_first()[j] == ts[j + 1]);
        }
        lemma_tidx_of_absent(ts.drop_first(), name);
    }
}

/// What one accepted mutation frame does to a tenant's store: a tombstone
/// marks the row deleted, anything else saves under the timestamp-guarded
/// merge; either way, the other tables and other tenants are untouched.
pub open spec fn update_applied(
    kind: EntityKind,
    pre: StoreV,
    data: Seq<crate::record::FieldV>,
    now: int,
    post: StoreV,
    changed: bool,
) -> bool {
    if rec_get(data, "deleted"@) == Some(ValueV::Int(1)) {
        &&& wire_id(data) is Some
        &&& delete_step(pre.table(kind), wire_id(data).unwrap(), now, post.table(kind), changed)
        &&& tables_unchanged_except(pre, post, kind)
        &&& post.junction == pre.junction
    } else {
        exists|outcome: WriteOutcome|
            {
                &&& #[trigger] save_applies(kind, pre.table(kind), data, now, post.table(kind), outcome)
                &&& changed == (outcome != WriteOutcome::Skipped)
                &&& tables_unchanged_except(pre, post, kind)
                &&& if kind == EntityKind::Location {
                    crate::junction::junction_rewrite(
                        pre.junction,
                        wire_id(data).unwrap(),
                        wire_ids(data, "sawmillIds"@),
                        wire_ids(data, "oversizeSawmillIds"@),
                        post.junction,
                    )
                } else {
                    post.junction == pre.junction
                }
            }
    }
}

/// Whether a mutation frame carries what its write path demands: a text id
/// always, and for a plain save also an integer edit time and, for a photo,
/// a decodable payload.
pub open spec fn update_valid(kind: EntityKind, data: Seq<crate::record::FieldV>) -> bool {
    &&& wire_id(data) is Some
    &&& (is_delete_frame(data) || (wire_last_edit(data) is Some && photo_blob_ok(kind, data)))
}

/// Whether a user mutation is rejected for carrying an empty name.
pub open spec fn empty_user_name(kind: EntityKind, data: Seq<crate::record::FieldV>) -> bool {
    kind == EntityKind::User && rec_get(data, "name"@) == Some(ValueV::Text(Seq::<char>::empty()))
        && !(rec_get(data, "deleted"@) == Some(ValueV::Int(1)))
}

/// The registry of tenant stores, keyed by tenant name.
pub struct DatabaseHandler {
    tenants: Vec<Tenant>,
}

impl View for DatabaseHandler {
    type V = Seq<TenantV>;

    closed spec fn view(&self) -> Seq<TenantV> {
        tenants_view(self.tenants@)
    }
}

impl DatabaseHandler {
    /// Whether tenant names are unique and every store is well formed. All
    /// library operations preserve this.
    pub open spec fn wf(&self) -> bool {
        &&& tenants_wf(self@)
        &&& forall|i: int|
            0 <= i < self@.len() ==> crate::store::store_wf(#[trigger] self@[i].db)
    }

    /// An empty registry.
    pub fn new() -> (r: DatabaseHandler)
        ensures
            r@ == Seq::<TenantV>::empty(),
            r.wf(),
    {
        let r = DatabaseHandler { tenants: Vec::new() };
        proof {
            assert(r@ =~= Seq::<TenantV>::empty());
        }
        r
    }

    /// The index of the tenant bound to `name`, if any.
    fn find(&self, name: &str) -> (r: Option<usize>)
        ensures
            match r {
                Some(i) => thas(self@, name@) && i == tidx_of(self@, name@),
                None => !thas(self@, name@),
            },
    {
        let n = self.tenants.len();
        let mut i: usize = 0;
        while i < n
            invariant
                i <= n,
                forall|j: int| 0 <= j < i ==> self@[j].name != name@,
            decreases n - i,
        {
            if str_eq(self.tenants[i].name.as_str(), name) {
                proof {
                    lemma_tidx_of_exact(self@, name@, i as int);
                }
                return Some(i);
            }
            i = i + 1;
        }
        proof {
            lemma_tidx_of_absent(self@, name@);
        }
        None
    }

    /// Whether a tenant is provisioned.
    pub fn database_exists(&self, tenant: &str) -> (r: bool)
        ensures
            r == thas(self@, tenant@),
    {
        self.find(tenant).is_some()
    }

    /// The store of one tenant.
    pub fn store_of(&self, tenant: &str) -> (r: Option<&RowStore>)
        ensures
            match r {
                Some(s) => thas(self@, tenant@) && s@ == tenant_of(self@, tenant@).db,
                None => !thas(self@, tenant@),
            },
    {
        match self.find(tenant) {
            Some(i) => Some(&self.tenants[i].db),
            None => None,
        }
    }

    /// Provisions a tenant with an empty store. Rejected if the name is
    /// taken.
    pub fn add_tenant(&mut self, name: String) -> (r: Result<(), DatabaseError>)
        requires
            old(self).wf(),
        ensures
            final(self).wf(),
            r is Ok <==> !thas(old(self)@, name@),
            r is Err ==> final(self)@ == old(self)@,
            r is Ok ==> {
                &&& thas(final(self)@, name@)
                &&& tenant_of(final(self)@, name@).name == name@
                &&& forall|k: EntityKind|
                    (#[trigger] tenant_of(final(self)@, name@).db.table(k)).len() == 0
                &&& tenant_of(final(self)@, name@).db.junction.len() == 0
                &&& forall|t: Seq<char>|
                    t != name@ ==> (thas(final(self)@, t) <==> thas(old(self)@, t))
                &&& forall|t: Seq<char>|
                    t != name@ && thas(old(self)@, t) ==> tenant_of(final(self)@, t) == tenant_of(
                        old(self)@,
                        t,
                    )
            },
    {
        let ghost pre = self@;
        match self.find(name.as_str()) {
            Some(_) => Err(DatabaseError::Initialization(String::from_str("tenant name is taken"))),
            None => {
                let ghost nv = name@;
                let db = RowStore::new();
                let ghost dbv = db@;
                self.tenants.push(Tenant { name, db });
                proof {
                    assert(self@ =~= pre.push(self@.last()));
                    assert(self@.last().name == nv);
                    assert(self@.last().db == dbv);
                    lemma_tidx_of(pre, nv);
                    lemma_tidx_of_exact(self@, nv, pre.len() as int);
                    assert forall|p: int, q: int|
                        0 <= p < q < self@.len() implies self@[p].name != self@[q].name by {
                        if q < pre.len() {
                            assert(pre[p].name != pre[q].name);
                        } else {
                            assert(pre[p].name != nv);
                        }
                    }
                    assert forall|i: int| 0 <= i < self@.len() implies crate::store::store_wf(
                        #[trigger] self@[i].db,
                    ) by {
                        if i < pre.len() {
                            assert(crate::store::store_wf(pre[i].db));
                        }
                    }
                    assert forall|t: Seq<char>|
                        t != nv implies (thas(self@, t) <==> thas(pre, t)) && (thas(pre, t)
                        ==> tenant_of(self@, t) == tenant_of(pre, t)) by {
                        lemma_tidx_of(self@, t);
                        lemma_tidx_of(pre, t);
                        if thas(pre, t) {
                            let j = tidx_of(pre, t);
                            assert(self@[j] == pre[j]);
                            assert forall|m: int| 0 <= m < j implies self@[m].name != t by {
                                assert(self@[m] == pre[m]);
                            }
                            lemma_tidx_of_exact(self@, t, j);
                        }
                        if thas(self@, t) {
                            let j = tidx_of(self@, t);
                            assert(self@[j].name == t);
                            assert(j < pre.len());
                            assert(pre[j].name == t);
                        }
                    }
                }
                Ok(())
            },
        }
    }

    /// Ingests one mutation frame for one tenant: a tombstone marks the row
    /// deleted, anything else is saved under the timestamp-guarded merge.
    /// Returns whether the write changed state; only then does the router
    /// fan the frame out. A user record with an empty name is dropped. Every
    /// other tenant's store is untouched.
    pub fn process_update(&mut self, tenant: &str, kind: EntityKind, data: &Record, now: i64) -> (r:
        Result<bool, DatabaseError>)
        requires
            old(self).wf(),
            data.wf(),
        ensures
            final(self).wf(),
            forall|t: Seq<char>| thas(final(self)@, t) <==> thas(old(self)@, t),
            forall|t: Seq<char>|
                t != tenant@ && thas(old(self)@, t) ==> tenant_of(final(self)@, t) == tenant_of(
                    old(self)@,
                    t,
                ),
            match r {
                Ok(changed) => {
                    &&& thas(old(self)@, tenant@)
                    &&& tenant_of(final(self)@, tenant@).name == tenant@
                    &&& if empty_user_name(kind, data@) {
                        &&& changed == false
                        &&& final(self)@ == old(self)@
                    } else {
                        &&& update_valid(kind, data@)
                        &&& update_applied(
                            kind,
                            tenant_of(old(self)@, tenant@).db,
                            data@,
                            now as int,
                            tenant_of(final(self)@, tenant@).db,
                            changed,
                        )
                    }
                },
                Err(DatabaseError::NotFound) => {
                    &&& !thas(old(self)@, tenant@)
                    &&& final(self)@ == old(self)@
                },
                Err(DatabaseError::MissingId) => {
                    &&& thas(old(self)@, tenant@)
                    &&& !empty_user_name(kind, data@)
                    &&& wire_id(data@) is None
                    &&& final(self)@ == old(self)@
                },
                Err(DatabaseError::Storage(_)) => {
                    &&& thas(old(self)@, tenant@)
                    &&& !empty_user_name(kind, data@)
                    &&& !is_delete_frame(data@)
                    &&& wire_id(data@) is Some
                    &&& (wire_last_edit(data@) is None || !photo_blob_ok(kind, data@))
                    &&& final(self)@ == old(self)@
                },
                Err(_) => false,
            },
    {
        let ghost pre = self@;
        let i = match self.find(tenant) {
            Some(i) => i,
            None => {
                return Err(DatabaseError::NotFound);
            },
        };
        proof {
            lemma_tidx_of(pre, tenant@);
            assert(pre[i as int] == tenant_of(pre, tenant@));
            assert(crate::store::store_wf(pre[i as int].db));
            reveal_strlit("deleted");
            reveal_strlit("name");
            reveal_strlit("id");
        }

        let is_deleted = match data.get("deleted") {
            Some(Value::Int(n)) => *n == 1,
            _ => false,
        };

        if !is_deleted && matches!(kind, EntityKind::User) {
            match data.get("name") {
                Some(Value::Text(s)) => {
                    if s.as_str().is_empty() {
                        proof {
                            assert(s@.len() == 0);
                            assert(s@ =~= Seq::<char>::empty());
                        }
                        return Ok(false);
                    }
                },
                _ => {},
            }
        }

        let mut entry = self.tenants.remove(i);
        let result: Result<bool, DatabaseError> = if is_deleted {
            let id = match data.get("id") {
                Some(Value::Text(s)) => s.clone(),
                _ => {
                    self.tenants.insert(i, entry);
                    proof {
                        assert(self@ =~= pre);
                    }
                    return Err(DatabaseError::MissingId);
                },
            };
            Ok(entry.db.mark_deleted(kind, id.as_str(), now))
        } else {
            match entry.db.save(kind, data, now) {
                Ok(outcome) => Ok(!matches!(outcome, WriteOutcome::Skipped)),
                Err(e) => Err(e),
            }
        };
        let ghost dbv = entry.db@;
        self.tenants.insert(i, entry);
        proof {
            let gi = i as int;
            assert(self@ =~= pre.update(gi, TenantV { name: tenant_of(pre, tenant@).name, db: dbv }));
            assert forall|p: int, q: int|
                0 <= p < q < self@.len() implies self@[p].name != self@[q].name by {
                assert(pre[p].name != pre[q].name);
                assert(self@[p].name == pre[p].name);
                assert(self@[q].name == pre[q].name);
            }
            assert forall|j: int| 0 <= j < self@.len() implies crate::store::store_wf(
                #[trigger] self@[j].db,
            ) by {
                if j != gi {
                    assert(crate::store::store_wf(pre[j].db));
                }
            }
            lemma_tidx_of_exact(self@, tenant@, gi);
            assert forall|t: Seq<char>| thas(self@, t) <==> thas(pre, t) by {
                lemma_same_names(pre, self@, t);
            }
            assert forall|t: Seq<char>|
                t != tenant@ && thas(pre, t) implies tenant_of(self@, t) == tenant_of(pre, t) by {
                lemma_same_names(pre, self@, t);
                lemma_tidx_of(pre, t);
                assert(pre[tidx_of(pre, t)].name == t);
                assert(tidx_of(pre, t) != gi);
                assert(self@[tidx_of(pre, t)] == pre[tidx_of(pre, t)]);
            }
        }
        match result {
            Ok(changed) => Ok(changed),
            Err(e) => {
                proof {
                    assert(self@ =~= pre);
                }
                Err(e)
            },
        }
    }
}

/// Two registries with pointwise equal names bind the same tenants, and
/// agree on every tenant whose entry is untouched.
proof fn lemma_same_names(pre: Seq<TenantV>, post: Seq<TenantV>, t: Seq<char>)
    requires
        post.len() == pre.len(),
        forall|j: int| 0 <= j < pre.len() ==> post[j].name == pre[j].name,
    ensures
        thas(post, t) <==> thas(pre, t),
        tidx_of(post, t) == tidx_of(pre, t),
        thas(pre, t) && post[tidx_of(pre, t)] == pre[tidx_of(pre, t)] ==> tenant_of(post, t)
            == tenant_of(pre, t),
    decreases pre.len(),
{
    if pre.len() > 0 {
        if pre[0].name != t {
            assert forall|j: int|
                0 <= j < pre.drop_first().len() implies post.drop_first()[j].name
                == pre.drop_first()[j].name by {
                assert(pre.drop_first()[j] == pre[j + 1]);
                assert(post.drop_first()[j] == post[j + 1]);
            }
            lemma_same_names(pre.drop_first(), post.drop_first(), t);
        }
    }
}

} // verus!
