//! The per-tenant store: seven entity tables and the sawmill junction.
//!
//! Each entity kind has one table. A save validates the record's envelope,
//! splits off what is not a plain column (the location's sawmill sets, the
//! photo's base64 payload), and applies the timestamp-guarded merge. Reads
//! reattach those parts, so that what goes back on the wire has the shape it
//! arrived in.

use vstd::prelude::*;

use crate::ext::{b64_decode, b64_encode, b64_of, b64_parse};
use crate::junction::{junction_rewrite, junction_wf, links_of, Junction, JunctionRowV};
use crate::record::{rec_get, rec_has, rec_wf, FieldV, Record, Value, ValueV};
use crate::strutil::{dup_strings, strs_view};
use crate::table::{
    delete_step, has_id, idx_of, page_of, row_of, rows_view, Mutation, Row, RowV, Table,
    WriteOutcome,
};

verus! {

/// The seven synchronised entity kinds.
#[derive(PartialEq, Eq, Structural, Clone, Copy, Debug)]
pub enum EntityKind {
    User,
    Sawmill,
    Contract,
    Location,
    Shipment,
    Note,
    Photo,
}

/// A storage failure, surfaced to the caller; the store never retries.
#[derive(Debug)]
pub enum DatabaseError {
    /// The connection pool could not be built.
    PoolCreation(String),
    /// The tenant database could not be initialised.
    Initialization(String),
    /// A record violated the store's expectations.
    Storage(String),
    /// The record carries no `id` column.
    MissingId,
    /// The tenant database does not exist.
    NotFound,
    /// The client is not registered.
    ClientNotFound,
    /// The client has not authenticated.
    ClientNotAuthenticated,
}

/// The mathematical value of a tenant store: one row sequence per entity
/// kind, plus the junction's edges.
pub struct StoreV {
    pub users: Seq<RowV>,
    pub sawmills: Seq<RowV>,
    pub contracts: Seq<RowV>,
    pub locations: Seq<RowV>,
    pub shipments: Seq<RowV>,
    pub notes: Seq<RowV>,
    pub photos: Seq<RowV>,
    pub junction: Seq<JunctionRowV>,
}

impl StoreV {
    /// The table of one entity kind.
    pub open spec fn table(self, kind: EntityKind) -> Seq<RowV> {
        match kind {
            EntityKind::User => self.users,
            EntityKind::Sawmill => self.sawmills,
            EntityKind::Contract => self.contracts,
            EntityKind::Location => self.locations,
            EntityKind::Shipment => self.shipments,
            EntityKind::Note => self.notes,
            EntityKind::Photo => self.photos,
        }
    }
}

/// Whether two store values agree on every table but one kind's.
pub open spec fn tables_unchanged_except(pre: StoreV, post: StoreV, kind: EntityKind) -> bool {
    forall|k: EntityKind| k != kind ==> post.table(k) == pre.table(k)
}

/// The id column of a wire record, which must be text.
pub open spec fn wire_id(rec: Seq<FieldV>) -> Option<Seq<char>> {
    match rec_get(rec, "id"@) {
        Some(ValueV::Text(s)) => Some(s),
        _ => None,
    }
}

/// The lastEdit column of a wire record, which must be an integer.
pub open spec fn wire_last_edit(rec: Seq<FieldV>) -> Option<int> {
    match rec_get(rec, "lastEdit"@) {
        Some(ValueV::Int(n)) => Some(n),
        _ => None,
    }
}

/// A list-of-ids column of a wire record; absent or ill-typed means empty.
pub open spec fn wire_ids(rec: Seq<FieldV>, name: Seq<char>) -> Seq<Seq<char>> {
    match rec_get(rec, name) {
        Some(ValueV::TextArray(a)) => a,
        _ => Seq::empty(),
    }
}

/// The envelope columns: stored beside the domain columns, never among them.
pub open spec fn is_envelope_name(n: Seq<char>) -> bool {
    ||| n == "id"@
    ||| n == "lastEdit"@
    ||| n == "arrivalAtServer"@
    ||| n == "deleted"@
}

/// The domain column a wire record stores under a name: envelope names and
/// the location's sawmill sets are split off, and a photo's base64 payload
/// is decoded to its bytes.
pub open spec fn payload_get(kind: EntityKind, rec: Seq<FieldV>, n: Seq<char>) -> Option<ValueV> {
    if is_envelope_name(n) {
        None
    } else if kind == EntityKind::Location && (n == "sawmillIds"@ || n == "oversizeSawmillIds"@) {
        None
    } else if kind == EntityKind::Photo && n == "photoFile"@ {
        match rec_get(rec, n) {
            Some(ValueV::Text(s)) => match b64_parse(s) {
                Some(b) => Some(ValueV::Blob(b)),
                None => None,
            },
            v => v,
        }
    } else {
        rec_get(rec, n)
    }
}

/// Whether a photo record's payload column, if present, is valid base64
/// text. Other kinds carry no such column.
pub open spec fn photo_blob_ok(kind: EntityKind, rec: Seq<FieldV>) -> bool {
    kind == EntityKind::Photo && rec_get(rec, "photoFile"@) is Some ==> match rec_get(
        rec,
        "photoFile"@,
    ) {
        Some(ValueV::Text(s)) => b64_parse(s) is Some,
        _ => false,
    }
}

/// How a validated save changes one entity table: the timestamp-guarded
/// merge of `write_step`, applied to the record's envelope and its split-off
/// domain columns.
pub open spec fn save_applies(
    kind: EntityKind,
    pre: Seq<RowV>,
    rec: Seq<FieldV>,
    now: int,
    post: Seq<RowV>,
    outcome: WriteOutcome,
) -> bool {
    let id = wire_id(rec).unwrap();
    let le = wire_last_edit(rec).unwrap();
    let i = idx_of(pre, id);
    match outcome {
        WriteOutcome::Inserted => {
            &&& !has_id(pre, id)
            &&& post.len() == pre.len() + 1
            &&& forall|j: int| 0 <= j < pre.len() ==> post[j] == pre[j]
            &&& post.last().id == id
            &&& post.last().last_edit == le
            &&& post.last().arrival == now
            &&& !post.last().deleted
            &&& rec_wf(post.last().data)
            &&& forall|n: Seq<char>|
                rec_get(#[trigger] post.last().data, n) == payload_get(kind, rec, n)
        },
        WriteOutcome::Updated => {
            &&& has_id(pre, id)
            &&& !pre[i].deleted
            &&& le > pre[i].last_edit
            &&& post.len() == pre.len()
            &&& forall|j: int| 0 <= j < pre.len() && j != i ==> post[j] == pre[j]
            &&& post[i].id == id
            &&& post[i].last_edit == le
            &&& post[i].arrival == now
            &&& !post[i].deleted
            &&& rec_wf(post[i].data)
            &&& forall|n: Seq<char>|
                rec_get(#[trigger] post[i].data, n) == if payload_get(kind, rec, n) is Some {
                    payload_get(kind, rec, n)
                } else {
                    rec_get(pre[i].data, n)
                }
        },
        WriteOutcome::Skipped => {
            &&& has_id(pre, id)
            &&& (pre[i].deleted || le <= pre[i].last_edit)
            &&& post == pre
        },
    }
}

/// Whether a stored photo row carries a payload too large to re-encode:
/// the one condition under which a read of it fails.
pub open spec fn photo_payload_oversized(kind: EntityKind, row: RowV) -> bool {
    kind == EntityKind::Photo && match rec_get(row.data, "photoFile"@) {
        Some(ValueV::Blob(b)) => b.len() > 0x1000_0000_0000,
        _ => false,
    }
}

/// What a read hands back on the wire for one column of a stored row: the
/// envelope reattached, the location's sawmill sets queried from the
/// junction, a photo's bytes re-encoded as base64 text.
pub open spec fn wire_record_get(
    kind: EntityKind,
    row: RowV,
    junction: Seq<JunctionRowV>,
    n: Seq<char>,
) -> Option<ValueV> {
    if n == "id"@ {
        Some(ValueV::Text(row.id))
    } else if n == "lastEdit"@ {
        Some(ValueV::Int(row.last_edit))
    } else if n == "arrivalAtServer"@ {
        Some(ValueV::Int(row.arrival))
    } else if n == "deleted"@ {
        Some(ValueV::Int(if row.deleted { 1int } else { 0int }))
    } else if kind == EntityKind::Location && n == "sawmillIds"@ {
        Some(ValueV::TextArray(links_of(junction, row.id, false)))
    } else if kind == EntityKind::Location && n == "oversizeSawmillIds"@ {
        Some(ValueV::TextArray(links_of(junction, row.id, true)))
    } else if kind == EntityKind::Photo && n == "photoFile"@ {
        match rec_get(row.data, n) {
            Some(ValueV::Blob(b)) => Some(ValueV::Text(b64_of(b))),
            v => v,
        }
    } else {
        rec_get(row.data, n)
    }
}

/// The wire column names the store treats specially are pairwise distinct;
/// conveniently, no two share a length.
pub(crate) proof fn lemma_wire_names_distinct()
    ensures
        "id"@.len() == 2,
        "deleted"@.len() == 7,
        "lastEdit"@.len() == 8,
        "photoFile"@.len() == 9,
        "sawmillIds"@.len() == 10,
        "arrivalAtServer"@.len() == 15,
        "oversizeSawmillIds"@.len() == 18,
{
    reveal_strlit("id");
    reveal_strlit("lastEdit");
    reveal_strlit("arrivalAtServer");
    reveal_strlit("deleted");
    reveal_strlit("sawmillIds");
    reveal_strlit("oversizeSawmillIds");
    reveal_strlit("photoFile");
}

/// Well-formedness of a store value: every table is well formed, and no
/// junction edge occurs twice.
pub open spec fn store_wf(s: StoreV) -> bool {
    &&& forall|k: EntityKind| crate::table::table_wf(#[trigger] s.table(k))
    &&& crate::junction::junction_wf(s.junction)
}

/// The per-tenant store: one table per entity kind, plus the junction.
pub struct RowStore {
    users: Table,
    sawmills: Table,
    contracts: Table,
    locations: Table,
    shipments: Table,
    notes: Table,
    photos: Table,
    junction: Junction,
}

impl View for RowStore {
    type V = StoreV;

    closed spec fn view(&self) -> StoreV {
        StoreV {
            users: self.users@,
            sawmills: self.sawmills@,
            contracts: self.contracts@,
            locations: self.locations@,
            shipments: self.shipments@,
            notes: self.notes@,
            photos: self.photos@,
            junction: self.junction@,
        }
    }
}

impl RowStore {
    /// Whether every table is well formed. All library operations preserve
    /// this.
    pub open spec fn wf(&self) -> bool {
        store_wf(self@)
    }

    /// An empty tenant store.
    pub fn new() -> (s: RowStore)
        ensures
            s.wf(),
            forall|k: EntityKind| (#[trigger] s@.table(k)).len() == 0,
            s@.junction.len() == 0,
    {
        RowStore {
            users: Table::new(),
            sawmills: Table::new(),
            contracts: Table::new(),
            locations: Table::new(),
            shipments: Table::new(),
            notes: Table::new(),
            photos: Table::new(),
            junction: Junction::new(),
        }
    }

    /// The table of one entity kind.
    fn table_ref(&self, kind: EntityKind) -> (t: &Table)
        ensures
            t@ == self@.table(kind),
    {
        match kind {
            EntityKind::User => &self.users,
            EntityKind::Sawmill => &self.sawmills,
            EntityKind::Contract => &self.contracts,
            EntityKind::Location => &self.locations,
            EntityKind::Shipment => &self.shipments,
            EntityKind::Note => &self.notes,
            EntityKind::Photo => &self.photos,
        }
    }

    /// The row bound to `id` in one kind's table, tombstone or not.
    pub fn get_by_id(&self, kind: EntityKind, id: &str) -> (r: Option<&Row>)
        ensures
            match r {
                Some(row) => has_id(self@.table(kind), id@) && row@ == row_of(
                    self@.table(kind),
                    id@,
                ),
                None => !has_id(self@.table(kind), id@),
            },
    {
        self.table_ref(kind).get_by_id(id)
    }

    /// The row bound to `id` in one kind's table, excluding tombstones.
    pub fn get_live_by_id(&self, kind: EntityKind, id: &str) -> (r: Option<&Row>)
        ensures
            match r {
                Some(row) => {
                    &&& has_id(self@.table(kind), id@)
                    &&& row@ == row_of(self@.table(kind), id@)
                    &&& !row@.deleted
                },
                None => !has_id(self@.table(kind), id@) || row_of(self@.table(kind), id@).deleted,
            },
    {
        self.table_ref(kind).get_live_by_id(id)
    }

    /// One page of one kind's delta since watermark `w`.
    pub fn delta_page(&self, kind: EntityKind, w: i64) -> (page: Vec<Row>)
        ensures
            rows_view(page@) == page_of(self@.table(kind), w as int),
    {
        self.table_ref(kind).delta_page(w)
    }

    /// The sawmill ids linked to a location in one of the two junction sets.
    pub fn sawmill_links(&self, location_id: &str, oversize: bool) -> (r: Vec<String>)
        ensures
            strs_view(r@) == links_of(self@.junction, location_id@, oversize),
    {
        self.junction.links_for(location_id, oversize)
    }

    /// Marks the row bound to `id` in one kind's table as deleted,
    /// restamping both timestamps with `now`. Every other table and the
    /// junction are untouched.
    pub fn mark_deleted(&mut self, kind: EntityKind, id: &str, now: i64) -> (found: bool)
        requires
            old(self).wf(),
        ensures
            final(self).wf(),
            delete_step(old(self)@.table(kind), id@, now as int, final(self)@.table(kind), found),
            tables_unchanged_except(old(self)@, final(self)@, kind),
            final(self)@.junction == old(self)@.junction,
    {
        proof {
            assert(crate::table::table_wf(self@.table(EntityKind::User)));
            assert(crate::table::table_wf(self@.table(EntityKind::Sawmill)));
            assert(crate::table::table_wf(self@.table(EntityKind::Contract)));
            assert(crate::table::table_wf(self@.table(EntityKind::Location)));
            assert(crate::table::table_wf(self@.table(EntityKind::Shipment)));
            assert(crate::table::table_wf(self@.table(EntityKind::Note)));
            assert(crate::table::table_wf(self@.table(EntityKind::Photo)));
        }
        let found = match kind {
            EntityKind::User => self.users.mark_deleted(id, now),
            EntityKind::Sawmill => self.sawmills.mark_deleted(id, now),
            EntityKind::Contract => self.contracts.mark_deleted(id, now),
            EntityKind::Location => self.locations.mark_deleted(id, now),
            EntityKind::Shipment => self.shipments.mark_deleted(id, now),
            EntityKind::Note => self.notes.mark_deleted(id, now),
            EntityKind::Photo => self.photos.mark_deleted(id, now),
        };
        proof {
            assert forall|k: EntityKind| crate::table::table_wf(#[trigger] self@.table(k)) by {
                assert(crate::table::table_wf(old(self)@.table(k)));
            }
        }
        found
    }

    /// Applies one client write to one kind's table under the
    /// timestamp-guarded merge.
    ///
    /// The record must carry a text `id` and an integer `lastEdit`. A
    /// location's sawmill sets are split off and rewritten into the junction
    /// (whatever the merge outcome); a photo's base64 payload is decoded to
    /// its stored bytes. On any error, nothing changes.
    pub fn save(&mut self, kind: EntityKind, rec: &Record, now: i64) -> (r: Result<
        WriteOutcome,
        DatabaseError,
    >)
        requires
            old(self).wf(),
            rec.wf(),
        ensures
            final(self).wf(),
            match r {
                Ok(outcome) => {
                    &&& wire_id(rec@) is Some
                    &&& wire_last_edit(rec@) is Some
                    &&& photo_blob_ok(kind, rec@)
                    &&& save_applies(
                        kind,
                        old(self)@.table(kind),
                        rec@,
                        now as int,
                        final(self)@.table(kind),
                        outcome,
                    )
                    &&& tables_unchanged_except(old(self)@, final(self)@, kind)
                    &&& if kind == EntityKind::Location {
                        junction_rewrite(
                            old(self)@.junction,
                            wire_id(rec@).unwrap(),
                            wire_ids(rec@, "sawmillIds"@),
                            wire_ids(rec@, "oversizeSawmillIds"@),
                            final(self)@.junction,
                        )
                    } else {
                        final(self)@.junction == old(self)@.junction
                    }
                },
                Err(e) => {
                    &&& final(self)@ == old(self)@
                    &&& match e {
                        DatabaseError::MissingId => wire_id(rec@) is None,
                        DatabaseError::Storage(_) => {
                            &&& wire_id(rec@) is Some
                            &&& (wire_last_edit(rec@) is None || !photo_blob_ok(kind, rec@))
                        },
                        _ => false,
                    }
                },
            },
    {
        proof {
            lemma_wire_names_distinct();
        }
        proof {
            assert(crate::table::table_wf(self@.table(EntityKind::User)));
            assert(crate::table::table_wf(self@.table(EntityKind::Sawmill)));
            assert(crate::table::table_wf(self@.table(EntityKind::Contract)));
            assert(crate::table::table_wf(self@.table(EntityKind::Location)));
            assert(crate::table::table_wf(self@.table(EntityKind::Shipment)));
            assert(crate::table::table_wf(self@.table(EntityKind::Note)));
            assert(crate::table::table_wf(self@.table(EntityKind::Photo)));
        }
        let id = match rec.get("id") {
            Some(Value::Text(s)) => s.clone(),
            _ => {
                return Err(DatabaseError::MissingId);
            },
        };
        let last_edit = match rec.get("lastEdit") {
            Some(Value::Int(n)) => *n,
            _ => {
                return Err(
                    DatabaseError::Storage(String::from_str("lastEdit missing or not an integer")),
                );
            },
        };

        let mut data = rec.dup();
        data.remove("id");
        data.remove("lastEdit");
        data.remove("arrivalAtServer");
        data.remove("deleted");
        let ghost d_env = data@;

        if matches!(kind, EntityKind::Photo) {
            match rec.get("photoFile") {
                None => {},
                Some(Value::Text(s)) => {
                    match b64_decode(s.as_str()) {
                        Some(bytes) => {
                            data.set(String::from_str("photoFile"), Value::Blob(bytes));
                        },
                        None => {
                            return Err(
                                DatabaseError::Storage(
                                    String::from_str("photoFile is not valid base64"),
                                ),
                            );
                        },
                    }
                },
                Some(_) => {
                    return Err(
                        DatabaseError::Storage(String::from_str("photoFile is not base64 text")),
                    );
                },
            }
        }

        let ghost d_photo = data@;
        if matches!(kind, EntityKind::Location) {
            let mills = match rec.get("sawmillIds") {
                Some(Value::TextArray(a)) => dup_strings(a),
                _ => Vec::new(),
            };
            let over = match rec.get("oversizeSawmillIds") {
                Some(Value::TextArray(a)) => dup_strings(a),
                _ => Vec::new(),
            };
            proof {
                assert(strs_view(mills@) =~= wire_ids(rec@, "sawmillIds"@));
                assert(strs_view(over@) =~= wire_ids(rec@, "oversizeSawmillIds"@));
            }
            data.remove("sawmillIds");
            data.remove("oversizeSawmillIds");
            self.junction.set_links(id.as_str(), &mills, &over);
        }
        let ghost payload = data@;
        assert forall|n: Seq<char>| rec_get(payload, n) == payload_get(kind, rec@, n) by {
            lemma_wire_names_distinct();
            let probe = rec_get(rec@, n);
            let p_env = rec_get(d_env, n);
            let p_out = rec_get(payload, n);
            let p_photo = rec_get(d_photo, n);
            if is_envelope_name(n) {
                assert(p_env is None);
                assert(p_photo is None);
                assert(p_out is None);
            } else if kind == EntityKind::Location && (n == "sawmillIds"@ || n
                == "oversizeSawmillIds"@) {
                assert(p_env == probe);
                assert(p_out is None);
            } else if kind == EntityKind::Photo && n == "photoFile"@ {
                assert(p_env == probe);
                assert(p_out == payload_get(kind, rec@, n));
            } else {
                assert(p_env == probe);
                assert(p_out == probe);
            }
        }

        let m = Mutation { id, last_edit, data };
        let outcome = match kind {
            EntityKind::User => self.users.insert_or_update(m, now),
            EntityKind::Sawmill => self.sawmills.insert_or_update(m, now),
            EntityKind::Contract => self.contracts.insert_or_update(m, now),
            EntityKind::Location => self.locations.insert_or_update(m, now),
            EntityKind::Shipment => self.shipments.insert_or_update(m, now),
            EntityKind::Note => self.notes.insert_or_update(m, now),
            EntityKind::Photo => self.photos.insert_or_update(m, now),
        };
        proof {
            assert forall|k: EntityKind| crate::table::table_wf(#[trigger] self@.table(k)) by {
                assert(crate::table::table_wf(old(self)@.table(k)));
            }
        }
        Ok(outcome)
    }

    /// Rebuilds the wire record of a stored row: the envelope reattached, a
    /// location's sawmill sets fetched from the junction, a photo's bytes
    /// re-encoded as base64 text. Fails only on a payload too large to
    /// encode.
    pub fn to_wire_record(&self, kind: EntityKind, row: &Row) -> (r: Result<Record, DatabaseError>)
        requires
            rec_wf(row@.data),
        ensures
            (r is Err) == photo_payload_oversized(kind, row@),
            match r {
                Ok(out) => {
                    &&& out.wf()
                    &&& forall|n: Seq<char>|
                        rec_get(out@, n) == wire_record_get(kind, row@, self@.junction, n)
                },
                Err(_) => kind == EntityKind::Photo,
            },
    {
        proof {
            lemma_wire_names_distinct();
        }
        let mut out = row.data.dup();
        if matches!(kind, EntityKind::Photo) {
            match row.data.get("photoFile") {
                Some(Value::Blob(b)) => {
                    match b64_encode(b) {
                        Some(text) => {
                            out.set(String::from_str("photoFile"), Value::Text(text));
                        },
                        None => {
                            return Err(
                                DatabaseError::Storage(
                                    String::from_str("photoFile is too large to encode"),
                                ),
                            );
                        },
                    }
                },
                _ => {},
            }
        }
        if matches!(kind, EntityKind::Location) {
            let mills = self.junction.links_for(row.id.as_str(), false);
            let over = self.junction.links_for(row.id.as_str(), true);
            out.set(String::from_str("sawmillIds"), Value::TextArray(mills));
            out.set(String::from_str("oversizeSawmillIds"), Value::TextArray(over));
        }
        out.set(String::from_str("id"), Value::Text(row.id.clone()));
        out.set(String::from_str("lastEdit"), Value::Int(row.last_edit));
        out.set(String::from_str("arrivalAtServer"), Value::Int(row.arrival));
        out.set(
            String::from_str("deleted"),
            Value::Int(if row.deleted { 1i64 } else { 0i64 }),
        );
        assert forall|n: Seq<char>|
            rec_get(out@, n) == wire_record_get(kind, row@, self@.junction, n) by {
            lemma_wire_names_distinct();
            let probe = rec_get(row@.data, n);
            if is_envelope_name(n) {
            } else if kind == EntityKind::Location && (n == "sawmillIds"@ || n
                == "oversizeSawmillIds"@) {
            } else if kind == EntityKind::Photo && n == "photoFile"@ {
            } else {
            }
        }
        Ok(out)
    }
}

} // verus!
