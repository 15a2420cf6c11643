//! The row store: one table of rows with a common envelope.
//!
//! Every row carries a string primary key `id`, the client-asserted edit time
//! `last_edit`, the server-assigned `arrival` watermark, a soft-delete flag,
//! and its remaining columns as a record. Writes follow the last-writer-wins
//! discipline: an incoming record whose `last_edit` does not exceed the
//! stored one is discarded, and a soft-deleted row is terminal for its id.

use vstd::prelude::*;

use crate::record::{rec_get, rec_has, rec_wf, FieldV, Record};
use crate::strutil::str_eq;
use vstd::pervasive::VecAdditionalExecFns;
use crate::PAGE_SIZE;

verus! {

/// One stored row: the envelope plus the domain columns.
pub struct Row {
    pub id: String,
    pub last_edit: i64,
    pub arrival: i64,
    pub deleted: bool,
    pub data: Record,
}

/// The mathematical value of a `Row`.
pub struct RowV {
    pub id: Seq<char>,
    pub last_edit: int,
    pub arrival: int,
    pub deleted: bool,
    pub data: Seq<FieldV>,
}

impl View for Row {
    type V = RowV;

    open spec fn view(&self) -> RowV {
        RowV {
            id: self.id@,
            last_edit: self.last_edit as int,
            arrival: self.arrival as int,
            deleted: self.deleted,
            data: self.data@,
        }
    }
}

impl Row {
    /// An exact copy of the row.
    pub fn dup(&self) -> (r: Row)
        ensures
            r@ == self@,
    {
        Row {
            id: self.id.clone(),
            last_edit: self.last_edit,
            arrival: self.arrival,
            deleted: self.deleted,
            data: self.data.dup(),
        }
    }
}

/// The views of the rows of a vector.
pub open spec fn rows_view(rows: Seq<Row>) -> Seq<RowV> {
    rows.map(|i: int, r: Row| r@)
}

/// A client write: the envelope fields a mutation frame must carry and the
/// domain columns to store.
pub struct Mutation {
    pub id: String,
    pub last_edit: i64,
    pub data: Record,
}

/// The mathematical value of a `Mutation`.
pub struct MutationV {
    pub id: Seq<char>,
    pub last_edit: int,
    pub data: Seq<FieldV>,
}

impl View for Mutation {
    type V = MutationV;

    open spec fn view(&self) -> MutationV {
        MutationV { id: self.id@, last_edit: self.last_edit as int, data: self.data@ }
    }
}

impl Mutation {
    /// Whether the mutation's columns are well formed.
    pub open spec fn wf(&self) -> bool {
        rec_wf(self@.data)
    }
}

/// The index of the first row bound to `id`, or the length if there is none.
pub open spec fn idx_of(rows: Seq<RowV>, id: Seq<char>) -> int
    decreases rows.len(),
{
    if rows.len() == 0 {
        0
    } else if rows[0].id == id {
        0
    } else {
        1 + idx_of(rows.drop_first(), id)
    }
}

/// Whether some row is bound to `id`.
pub open spec fn has_id(rows: Seq<RowV>, id: Seq<char>) -> bool {
    idx_of(rows, id) < rows.len()
}

/// The row bound to `id`.
pub open spec fn row_of(rows: Seq<RowV>, id: Seq<char>) -> RowV {
    rows[idx_of(rows, id)]
}

/// Well-formedness of a table: ids are unique and every row's columns are.
pub open spec fn table_wf(rows: Seq<RowV>) -> bool {
    &&& forall|i: int, j: int| 0 <= i < j < rows.len() ==> rows[i].id != rows[j].id
    &&& forall|i: int| 0 <= i < rows.len() ==> rec_wf(#[trigger] rows[i].data)
}

/// What `idx_of` points at: the first index bound to `id`, every earlier
/// index bound to another id; the length exactly when `id` is absent.
pub proof fn lemma_idx_of(rows: Seq<RowV>, id: Seq<char>)
    ensures
        0 <= idx_of(rows, id) <= rows.len(),
        has_id(rows, id) ==> rows[idx_of(rows, id)].id == id,
        forall|j: int| 0 <= j < idx_of(rows, id) ==> rows[j].id != id,
        !has_id(rows, id) ==> forall|j: int| 0 <= j < rows.len() ==> rows[j].id != id,
    decreases rows.len(),
{
    if rows.len() > 0 && rows[0].id != id {
        lemma_idx_of(rows.drop_first(), id);
        assert forall|j: int| 0 <= j < idx_of(rows, id) implies rows[j].id != id by {
            if j > 0 {
                assert(rows.drop_first()[j - 1].id != id);
            }
        }
        if has_id(rows, id) {
            assert(rows[idx_of(rows, id)] == rows.drop_first()[idx_of(rows, id) - 1]);
        } else {
            assert forall|j: int| 0 <= j < rows.len() implies rows[j].id != id by {
                if j > 0 {
                    assert(rows.drop_first()[j - 1].id != id);
                }
            }
        }
    }
}

/// `idx_of` finds an index that is known to be the first match.
pub proof fn lemma_idx_of_exact(rows: Seq<RowV>, id: Seq<char>, i: int)
    requires
        0 <= i < rows.len(),
        rows[i].id == id,
        forall|j: int| 0 <= j < i ==> rows[j].id != id,
    ensures
        idx_of(rows, id) == i,
        has_id(rows, id),
    decreases rows.len(),
{
    if i > 0 {
        assert(rows.drop_first()[i - 1].id == id);
        assert forall|j: int| 0 <= j < i - 1 implies rows.drop_first()[j].id != id by {
            assert(rows.drop_first()[j] == rows[j + 1]);
        }
        lemma_idx_of_exact(rows.drop_first(), id, i - 1);
    }
}

/// `idx_of` is the length when no index matches.
pub proof fn lemma_idx_of_absent(rows: Seq<RowV>, id: Seq<char>)
    requires
        forall|j: int| 0 <= j < rows.len() ==> rows[j].id != id,
    ensures
        idx_of(rows, id) == rows.len(),
        !has_id(rows, id),
    decreases rows.len(),
{
    if rows.len() > 0 {
        assert forall|j: int| 0 <= j < rows.drop_first().len() implies rows.drop_first()[j].id
            != id by {
            assert(rows.drop_first()[j] == rows[j + 1]);
        }
        lemma_idx_of_absent(rows.drop_first(), id);
    }
}

/// The outcome of `insert_or_update`.
#[derive(PartialEq, Eq, Structural, Clone, Copy, Debug)]
pub enum WriteOutcome {
    /// No row was bound to the id; a fresh row was appended.
    Inserted,
    /// A live row with an older `last_edit` was merged and restamped.
    Updated,
    /// The write was discarded: the row is a tombstone, or not newer.
    Skipped,
}

/// The row appended when a mutation inserts.
pub open spec fn inserted_row(m: MutationV, now: int) -> RowV {
    RowV { id: m.id, last_edit: m.last_edit, arrival: now, deleted: false, data: m.data }
}

/// The timestamp-guarded merge: how one write changes a table.
///
/// With no row bound to the id, the write appends a fresh row stamped with
/// the arrival time `now`. A live row with a strictly older `last_edit` is
/// updated column by column and restamped. A tombstone, or a write that is
/// not strictly newer, changes nothing.
pub open spec fn write_step(
    pre: Seq<RowV>,
    m: MutationV,
    now: int,
    post: Seq<RowV>,
    r: WriteOutcome,
) -> bool {
    let i = idx_of(pre, m.id);
    match r {
        WriteOutcome::Inserted => {
            &&& !has_id(pre, m.id)
            &&& post == pre.push(inserted_row(m, now))
        },
        WriteOutcome::Updated => {
            &&& has_id(pre, m.id)
            &&& !pre[i].deleted
            &&& m.last_edit > pre[i].last_edit
            &&& post.len() == pre.len()
            &&& forall|j: int| 0 <= j < pre.len() && j != i ==> post[j] == pre[j]
            &&& post[i].id == m.id
            &&& post[i].last_edit == m.last_edit
            &&& post[i].arrival == now
            &&& !post[i].deleted
            &&& rec_wf(post[i].data)
            &&& forall|n: Seq<char>|
                rec_get(#[trigger] post[i].data, n) == if rec_has(m.data, n) {
                    rec_get(m.data, n)
                } else {
                    rec_get(pre[i].data, n)
                }
        },
        WriteOutcome::Skipped => {
            &&& has_id(pre, m.id)
            &&& (pre[i].deleted || m.last_edit <= pre[i].last_edit)
            &&& post == pre
        },
    }
}

/// How a soft delete changes a table: the matched row keeps its id and
/// columns, turns into a tombstone, and is restamped so that it participates
/// in deltas; an unknown id changes nothing.
pub open spec fn delete_step(
    pre: Seq<RowV>,
    id: Seq<char>,
    now: int,
    post: Seq<RowV>,
    found: bool,
) -> bool {
    if has_id(pre, id) {
        let i = idx_of(pre, id);
        &&& found
        &&& post == pre.update(
            i,
            RowV { id: id, last_edit: now, arrival: now, deleted: true, data: pre[i].data },
        )
    } else {
        &&& !found
        &&& post == pre
    }
}

/// The rows a delta query considers: those that arrived after the watermark,
/// tombstones included, in table order.
pub open spec fn filter_delta(rows: Seq<RowV>, w: int) -> Seq<RowV>
    decreases rows.len(),
{
    if rows.len() == 0 {
        Seq::empty()
    } else {
        let rest = filter_delta(rows.drop_last(), w);
        if rows.last().arrival > w {
            rest.push(rows.last())
        } else {
            rest
        }
    }
}

/// Whether a row sequence is ordered by `last_edit`, ascending.
pub open spec fn sorted_rows(s: Seq<RowV>) -> bool {
    forall|i: int, j: int| 0 <= i < j < s.len() ==> s[i].last_edit <= s[j].last_edit
}

/// Stable insertion of a row into a sorted sequence: the row lands after
/// every row whose `last_edit` does not exceed its own.
pub open spec fn insert_sorted(r: RowV, s: Seq<RowV>) -> Seq<RowV>
    decreases s.len(),
{
    if s.len() == 0 {
        seq![r]
    } else if r.last_edit < s[0].last_edit {
        seq![r] + s
    } else {
        seq![s[0]] + insert_sorted(r, s.drop_first())
    }
}

/// Stable sort of a row sequence by `last_edit`, ascending.
pub open spec fn sort_rows(s: Seq<RowV>) -> Seq<RowV>
    decreases s.len(),
{
    if s.len() == 0 {
        Seq::empty()
    } else {
        insert_sorted(s.last(), sort_rows(s.drop_last()))
    }
}

/// One page of a delta query: the qualifying rows, ordered by `last_edit`,
/// capped at `PAGE_SIZE`.
pub open spec fn page_of(rows: Seq<RowV>, w: int) -> Seq<RowV> {
    let all = sort_rows(filter_delta(rows, w));
    if all.len() <= PAGE_SIZE {
        all
    } else {
        all.take(PAGE_SIZE as int)
    }
}

/// A table of rows with unique ids.
pub struct Table {
    rows: Vec<Row>,
}

impl View for Table {
    type V = Seq<RowV>;

    closed spec fn view(&self) -> Seq<RowV> {
        rows_view(self.rows@)
    }
}

impl Table {
    /// Whether the table's ids are unique and its records well formed. All
    /// library operations preserve this.
    pub open spec fn wf(&self) -> bool {
        table_wf(self@)
    }

    /// The empty table.
    pub fn new() -> (t: Table)
        ensures
            t@ == Seq::<RowV>::empty(),
            t.wf(),
    {
        let t = Table { rows: Vec::new() };
        proof {
            assert(t@ =~= Seq::<RowV>::empty());
        }
        t
    }

    /// The number of rows, tombstones included.
    pub fn len(&self) -> (n: usize)
        ensures
            n == self@.len(),
    {
        self.rows.len()
    }

    /// The index of the row bound to `id`, if any.
    fn find(&self, id: &str) -> (r: Option<usize>)
        ensures
            match r {
                Some(i) => has_id(self@, id@) && i == idx_of(self@, id@),
                None => !has_id(self@, id@),
            },
    {
        let n = self.rows.len();
        let mut i: usize = 0;
        while i < n
            invariant
                i <= n,
                forall|j: int| 0 <= j < i ==> self@[j].id != id@,
            decreases n - i,
        {
            if str_eq(self.rows[i].id.as_str(), id) {
                proof {
                    lemma_idx_of_exact(self@, id@, i as int);
                }
                return Some(i);
            }
            i = i + 1;
        }
        proof {
            lemma_idx_of_absent(self@, id@);
        }
        None
    }

    /// The row bound to `id`, tombstone or not.
    pub fn get_by_id(&self, id: &str) -> (r: Option<&Row>)
        ensures
            match r {
                Some(row) => has_id(self@, id@) && row@ == row_of(self@, id@),
                None => !has_id(self@, id@),
            },
    {
        match self.find(id) {
            Some(i) => Some(&self.rows[i]),
            None => None,
        }
    }

    /// The row bound to `id`, excluding tombstones.
    pub fn get_live_by_id(&self, id: &str) -> (r: Option<&Row>)
        ensures
            match r {
                Some(row) => {
                    &&& has_id(self@, id@)
                    &&& row@ == row_of(self@, id@)
                    &&& !row@.deleted
                },
                None => !has_id(self@, id@) || row_of(self@, id@).deleted,
            },
    {
        match self.find(id) {
            Some(i) => {
                if self.rows[i].deleted {
                    None
                } else {
                    Some(&self.rows[i])
                }
            },
            None => None,
        }
    }

    /// Applies one client write under the timestamp-guarded merge and stamps
    /// accepted writes with the arrival time `now`.
    pub fn insert_or_update(&mut self, m: Mutation, now: i64) -> (r: WriteOutcome)
        requires
            old(self).wf(),
            m.wf(),
        ensures
            final(self).wf(),
            write_step(old(self)@, m@, now as int, final(self)@, r),
    {
        let ghost pre = self@;
        match self.find(m.id.as_str()) {
            None => {
                self.rows.push(
                    Row {
                        id: m.id,
                        last_edit: m.last_edit,
                        arrival: now,
                        deleted: false,
                        data: m.data,
                    },
                );
                proof {
                    assert(self@ =~= pre.push(inserted_row(m@, now as int)));
                    lemma_idx_of(pre, m@.id);
                    assert forall|i: int, j: int|
                        0 <= i < j < self@.len() implies self@[i].id != self@[j].id by {
                        if j < pre.len() {
                            assert(pre[i].id != pre[j].id);
                        } else {
                            assert(pre[i].id != m@.id);
                        }
                    }
                    assert forall|i: int| 0 <= i < self@.len() implies rec_wf(
                        #[trigger] self@[i].data,
                    ) by {
                        if i < pre.len() {
                            assert(rec_wf(pre[i].data));
                        }
                    }
                }
                WriteOutcome::Inserted
            },
            Some(i) => {
                proof {
                    assert(pre[i as int] == self.rows@[i as int]@);
                    lemma_idx_of(pre, m@.id);
                }
                if self.rows[i].deleted {
                    return WriteOutcome::Skipped;
                }
                if m.last_edit <= self.rows[i].last_edit {
                    return WriteOutcome::Skipped;
                }
                let mut row = self.rows[i].dup();
                proof {
                    assert(row@ == pre[i as int]);
                    assert(rec_wf(row@.data));
                }
                row.last_edit = m.last_edit;
                row.arrival = now;
                row.data.merge_from(m.data);
                self.rows.set(i, row);
                proof {
                    let gi = i as int;
                    assert(self@ =~= pre.update(gi, row@));
                    assert forall|p: int, q: int|
                        0 <= p < q < self@.len() implies self@[p].id != self@[q].id by {
                        assert(pre[p].id != pre[q].id);
                        lemma_idx_of(pre, m@.id);
                        assert(self@[p].id == pre[p].id);
                        assert(self@[q].id == pre[q].id);
                    }
                    assert forall|j: int| 0 <= j < self@.len() implies rec_wf(
                        #[trigger] self@[j].data,
                    ) by {
                        if j != gi {
                            assert(rec_wf(pre[j].data));
                        }
                    }
                }
                WriteOutcome::Updated
            },
        }
    }

    /// Marks the row bound to `id` as deleted, restamping both timestamps
    /// with `now`. Returns whether a row was matched.
    pub fn mark_deleted(&mut self, id: &str, now: i64) -> (found: bool)
        requires
            old(self).wf(),
        ensures
            final(self).wf(),
            delete_step(old(self)@, id@, now as int, final(self)@, found),
    {
        let ghost pre = self@;
        match self.find(id) {
            None => false,
            Some(i) => {
                let mut row = self.rows[i].dup();
                proof {
                    assert(row@ == pre[i as int]);
                }
                row.last_edit = now;
                row.arrival = now;
                row.deleted = true;
                self.rows.set(i, row);
                proof {
                    let gi = i as int;
                    assert(pre[gi].id == id@) by {
                        lemma_idx_of(pre, id@);
                    }
                    assert(self@ =~= pre.update(
                        gi,
                        RowV {
                            id: id@,
                            last_edit: now as int,
                            arrival: now as int,
                            deleted: true,
                            data: pre[gi].data,
                        },
                    ));
                    assert forall|p: int, q: int|
                        0 <= p < q < self@.len() implies self@[p].id != self@[q].id by {
                        assert(pre[p].id != pre[q].id);
                        assert(self@[p].id == pre[p].id);
                        assert(self@[q].id == pre[q].id);
                    }
                    assert forall|j: int| 0 <= j < self@.len() implies rec_wf(
                        #[trigger] self@[j].data,
                    ) by {
                        if j != gi {
                            assert(rec_wf(pre[j].data));
                        }
                    }
                }
                true
            },
        }
    }

    /// One page of the delta since watermark `w`: every row that arrived
    /// after `w` (tombstones included), ordered by `last_edit` ascending,
    /// capped at `PAGE_SIZE` rows.
    pub fn delta_page(&self, w: i64) -> (page: Vec<Row>)
        ensures
            rows_view(page@) == page_of(self@, w as int),
    {
        let n = self.rows.len();
        let mut qual: Vec<Row> = Vec::new();
        let mut i: usize = 0;
        proof {
            assert(self@.take(0) =~= Seq::<RowV>::empty());
        }
        while i < n
            invariant
                i <= n,
                rows_view(qual@) == filter_delta(self@.take(i as int), w as int),
            decreases n - i,
        {
            proof {
                assert(self@.take(i as int + 1).drop_last() =~= self@.take(i as int));
                assert(self@.take(i as int + 1).last() == self@[i as int]);
            }
            if self.rows[i].arrival > w {
                qual.push(self.rows[i].dup());
                proof {
                    assert(rows_view(qual@) =~= filter_delta(self@.take(i as int + 1), w as int));
                }
            }
            i = i + 1;
        }
        proof {
            assert(self@.take(n as int) =~= self@);
        }

        let mut sorted: Vec<Row> = Vec::new();
        let mut k: usize = 0;
        let m = qual.len();
        proof {
            assert(rows_view(qual@).take(0) =~= Seq::<RowV>::empty());
            assert(rows_view(sorted@) =~= sort_rows(rows_view(qual@).take(0)));
        }
        while k < m
            invariant
                k <= m,
                m == qual.len(),
                rows_view(qual@) == filter_delta(self@, w as int),
                rows_view(sorted@) == sort_rows(rows_view(qual@).take(k as int)),
            decreases m - k,
        {
            let r = qual[k].dup();
            let len = sorted.len();
            let mut pos: usize = 0;
            while pos < len
                invariant
                    pos <= len,
                    len == sorted.len(),
                    forall|j: int| 0 <= j < pos ==> rows_view(sorted@)[j].last_edit <= r@.last_edit,
                decreases len - pos,
            {
                if sorted[pos].last_edit > r.last_edit {
                    break;
                }
                pos = pos + 1;
            }
            proof {
                lemma_sort_rows_sorted(rows_view(qual@).take(k as int));
                lemma_insert_at_pos(r@, rows_view(sorted@), pos as int);
            }
            sorted.insert(pos, r);
            k = k + 1;
            proof {
                assert(rows_view(qual@).take(k as int).drop_last() =~= rows_view(qual@).take(
                    k as int - 1,
                ));
                assert(rows_view(qual@).take(k as int).last() == rows_view(qual@)[k as int - 1]);
                assert(rows_view(sorted@) =~= sort_rows(rows_view(qual@).take(k as int)));
            }
        }
        proof {
            assert(rows_view(qual@).take(m as int) =~= rows_view(qual@));
        }

        let mut page = sorted;
        if page.len() > PAGE_SIZE {
            page.truncate(PAGE_SIZE);
            proof {
                let full = sort_rows(filter_delta(self@, w as int));
                assert(rows_view(page@) =~= full.take(PAGE_SIZE as int));
            }
        }
        page
    }
}

/// Inserting at the first position whose `last_edit` is strictly greater
/// matches the stable insertion spec.
proof fn lemma_insert_at_pos(r: RowV, s: Seq<RowV>, pos: int)
    requires
        sorted_rows(s),
        0 <= pos <= s.len(),
        forall|j: int| 0 <= j < pos ==> s[j].last_edit <= r.last_edit,
        pos < s.len() ==> s[pos].last_edit > r.last_edit,
    ensures
        insert_sorted(r, s) == s.take(pos).push(r) + s.skip(pos),
    decreases s.len(),
{
    if s.len() == 0 {
        assert(insert_sorted(r, s) =~= s.take(0).push(r) + s.skip(0));
    } else if pos == 0 {
        assert(insert_sorted(r, s) =~= s.take(0).push(r) + s.skip(0));
    } else {
        assert(sorted_rows(s.drop_first())) by {
            assert(forall|i: int, j: int|
                0 <= i < j < s.drop_first().len() ==> #[trigger] s.drop_first()[i].last_edit
                    <= #[trigger] s.drop_first()[j].last_edit) by {
                assert forall|i: int, j: int|
                    0 <= i < j < s.drop_first().len() implies #[trigger] s.drop_first()[i].last_edit
                    <= #[trigger] s.drop_first()[j].last_edit by {
                    assert(s.drop_first()[i] == s[i + 1]);
                    assert(s.drop_first()[j] == s[j + 1]);
                }
            }
        }
        assert forall|j: int| 0 <= j < pos - 1 implies s.drop_first()[j].last_edit
            <= r.last_edit by {
            assert(s.drop_first()[j] == s[j + 1]);
        }
        if pos < s.len() {
            assert(s.drop_first()[pos - 1] == s[pos]);
        }
        lemma_insert_at_pos(r, s.drop_first(), pos - 1);
        assert(insert_sorted(r, s) =~= s.take(pos).push(r) + s.skip(pos));
    }
}

/// The stable insertion keeps a sequence sorted.
pub proof fn lemma_insert_sorted_sorted(r: RowV, s: Seq<RowV>)
    requires
        sorted_rows(s),
    ensures
        sorted_rows(insert_sorted(r, s)),
    decreases s.len(),
{
    if s.len() > 0 && !(r.last_edit < s[0].last_edit) {
        assert(sorted_rows(s.drop_first())) by {
            assert forall|i: int, j: int|
                0 <= i < j < s.drop_first().len() implies #[trigger] s.drop_first()[i].last_edit
                <= #[trigger] s.drop_first()[j].last_edit by {
                assert(s.drop_first()[i] == s[i + 1]);
                assert(s.drop_first()[j] == s[j + 1]);
            }
        }
        lemma_insert_sorted_sorted(r, s.drop_first());
        let tail = insert_sorted(r, s.drop_first());
        lemma_insert_sorted_multiset(r, s.drop_first());
        assert forall|i: int, j: int|
            0 <= i < j < insert_sorted(r, s).len() implies #[trigger] insert_sorted(r, s)[i].last_edit
            <= #[trigger] insert_sorted(r, s)[j].last_edit by {
            if i == 0 {
                assert(insert_sorted(r, s)[j] == tail[j - 1]);
                lemma_multiset_member_bound(tail, s.drop_first(), r, j - 1);
            } else {
                assert(insert_sorted(r, s)[i] == tail[i - 1]);
                assert(insert_sorted(r, s)[j] == tail[j - 1]);
            }
        }
    }
}

/// Every member of the inserted sequence is the new row or an old member;
/// used to bound elements below by the head.
proof fn lemma_multiset_member_bound(tail: Seq<RowV>, orig: Seq<RowV>, r: RowV, j: int)
    requires
        0 <= j < tail.len(),
        tail.to_multiset() == orig.to_multiset().insert(r),
    ensures
        tail[j] == r || orig.contains(tail[j]),
{
    broadcast use vstd::seq_lib::group_to_multiset_ensures;

    assert(tail.to_multiset().contains(tail[j])) by {
        tail.to_multiset_ensures();
    }
    if tail[j] != r {
        assert(orig.to_multiset().contains(tail[j]));
        orig.to_multiset_ensures();
    }
}

/// The stable insertion adds exactly the new row to the multiset.
pub proof fn lemma_insert_sorted_multiset(r: RowV, s: Seq<RowV>)
    ensures
        insert_sorted(r, s).to_multiset() == s.to_multiset().insert(r),
        insert_sorted(r, s).len() == s.len() + 1,
    decreases s.len(),
{
    broadcast use vstd::seq_lib::group_to_multiset_ensures;

    if s.len() == 0 {
        assert(insert_sorted(r, s) =~= Seq::<RowV>::empty().push(r));
        s.to_multiset_ensures();
        insert_sorted(r, s).to_multiset_ensures();
        assert(insert_sorted(r, s).to_multiset() =~= s.to_multiset().insert(r));
    } else if r.last_edit < s[0].last_edit {
        assert(insert_sorted(r, s) =~= seq![r] + s);
        lemma_multiset_of_cons(r, s);
    } else {
        lemma_insert_sorted_multiset(r, s.drop_first());
        let tail = insert_sorted(r, s.drop_first());
        assert(insert_sorted(r, s) =~= seq![s[0]] + tail);
        lemma_multiset_of_cons(s[0], tail);
        lemma_multiset_of_cons(s[0], s.drop_first());
        assert(seq![s[0]] + s.drop_first() =~= s);
        assert(insert_sorted(r, s).to_multiset() =~= s.to_multiset().insert(r));
    }
}

/// Prepending one element inserts it into the multiset.
proof fn lemma_multiset_of_cons(r: RowV, s: Seq<RowV>)
    ensures
        (seq![r] + s).to_multiset() == s.to_multiset().insert(r),
    decreases s.len(),
{
    broadcast use vstd::seq_lib::group_to_multiset_ensures;

    if s.len() == 0 {
        assert(seq![r] + s =~= Seq::<RowV>::empty().push(r));
        assert(s =~= Seq::<RowV>::empty());
    } else {
        let s0 = s.drop_last();
        let x = s.last();
        lemma_multiset_of_cons(r, s0);
        assert(seq![r] + s =~= (seq![r] + s0).push(x));
        assert(s =~= s0.push(x));
        assert((seq![r] + s).to_multiset() =~= s.to_multiset().insert(r));
    }
}

/// The sort is a permutation: same rows, same multiplicities, same length.
pub proof fn lemma_sort_rows_multiset(s: Seq<RowV>)
    ensures
        sort_rows(s).to_multiset() == s.to_multiset(),
        sort_rows(s).len() == s.len(),
    decreases s.len(),
{
    broadcast use vstd::seq_lib::group_to_multiset_ensures;

    if s.len() == 0 {
    } else {
        lemma_sort_rows_multiset(s.drop_last());
        lemma_insert_sorted_multiset(s.last(), sort_rows(s.drop_last()));
        assert(s.drop_last().push(s.last()) =~= s);
        s.drop_last().to_multiset_ensures();
    }
}

/// The sort orders rows by `last_edit`, ascending.
pub proof fn lemma_sort_rows_sorted(s: Seq<RowV>)
    ensures
        sorted_rows(sort_rows(s)),
    decreases s.len(),
{
    if s.len() > 0 {
        lemma_sort_rows_sorted(s.drop_last());
        lemma_insert_sorted_sorted(s.last(), sort_rows(s.drop_last()));
    }
}


/// A row is among the qualifying rows exactly when it is a row of the table
/// that arrived after the watermark.
pub proof fn lemma_filter_contains(rows: Seq<RowV>, w: int, x: RowV)
    ensures
        filter_delta(rows, w).contains(x) <==> ((exists|j: int| 0 <= j < rows.len() && rows[j] == x)
            && x.arrival > w),
    decreases rows.len(),
{
    if rows.len() > 0 {
        let rest = rows.drop_last();
        lemma_filter_contains(rest, w, x);
        let f = filter_delta(rows, w);
        let f0 = filter_delta(rest, w);
        if f.contains(x) {
            let i = choose|i: int| 0 <= i < f.len() && f[i] == x;
            if rows.last().arrival > w {
                if i < f.len() - 1 {
                    assert(f0[i] == x);
                    assert(f0.contains(x));
                } else {
                    assert(x == rows.last());
                    assert(rows[rows.len() - 1] == x);
                }
            } else {
                assert(f0[i] == x);
                assert(f0.contains(x));
            }
            if f0.contains(x) {
                let j = choose|j: int| 0 <= j < rest.len() && rest[j] == x;
                assert(rows[j] == x);
            }
        }
        if (exists|j: int| 0 <= j < rows.len() && rows[j] == x) && x.arrival > w {
            let j = choose|j: int| 0 <= j < rows.len() && rows[j] == x;
            if j < rows.len() - 1 {
                assert(rest[j] == x);
                assert(f0.contains(x));
                let i = choose|i: int| 0 <= i < f0.len() && f0[i] == x;
                if rows.last().arrival > w {
                    assert(f[i] == x);
                } else {
                    assert(f == f0);
                }
                assert(f.contains(x));
            } else {
                assert(x == rows.last());
                assert(f.last() == x);
                assert(f.contains(x));
            }
        }
    }
}

/// The sort holds exactly the rows of its input.
pub proof fn lemma_sort_contains(s: Seq<RowV>, x: RowV)
    ensures
        sort_rows(s).contains(x) <==> s.contains(x),
{
    broadcast use vstd::seq_lib::group_to_multiset_ensures;

    lemma_sort_rows_multiset(s);
    if sort_rows(s).contains(x) {
        assert(sort_rows(s).to_multiset().count(x) > 0);
        assert(s.to_multiset().count(x) > 0);
    }
    if s.contains(x) {
        assert(s.to_multiset().count(x) > 0);
        assert(sort_rows(s).to_multiset().count(x) > 0);
    }
}

/// Every page row is a qualifying row of the table.
pub proof fn lemma_page_member(rows: Seq<RowV>, w: int, k: int)
    requires
        0 <= k < page_of(rows, w).len(),
    ensures
        filter_delta(rows, w).contains(page_of(rows, w)[k]),
    decreases 0int,
{
    let all = sort_rows(filter_delta(rows, w));
    lemma_sort_rows_multiset(filter_delta(rows, w));
    if all.len() <= PAGE_SIZE {
        assert(all.contains(all[k]));
    } else {
        assert(page_of(rows, w)[k] == all[k]);
        assert(all.contains(all[k]));
    }
    lemma_sort_contains(filter_delta(rows, w), page_of(rows, w)[k]);
}

/// An empty page means no row of the table arrived after the watermark.
pub proof fn lemma_page_empty(rows: Seq<RowV>, w: int)
    requires
        page_of(rows, w).len() == 0,
    ensures
        forall|j: int| 0 <= j < rows.len() ==> (#[trigger] rows[j]).arrival <= w,
{
    lemma_sort_rows_multiset(filter_delta(rows, w));
    assert forall|j: int| 0 <= j < rows.len() implies (#[trigger] rows[j]).arrival <= w by {
        if rows[j].arrival > w {
            lemma_filter_contains(rows, w, rows[j]);
            assert(filter_delta(rows, w).contains(rows[j]));
            assert(filter_delta(rows, w).len() > 0);
        }
    }
}


/// In a well-formed table, two rows with one id are one row.
pub proof fn lemma_member_ids(rows: Seq<RowV>, jx: int, jy: int)
    requires
        table_wf(rows),
        0 <= jx < rows.len(),
        0 <= jy < rows.len(),
        rows[jx].id == rows[jy].id,
    ensures
        rows[jx] == rows[jy],
{
    if jx != jy {
        assert(rows[jx].id != rows[jy].id);
    }
}

/// The qualifying rows carry each row value at most as often as the table.
proof fn lemma_filter_count_le(rows: Seq<RowV>, w: int, x: RowV)
    ensures
        filter_delta(rows, w).to_multiset().count(x) <= rows.to_multiset().count(x),
    decreases rows.len(),
{
    broadcast use vstd::seq_lib::group_to_multiset_ensures;

    if rows.len() > 0 {
        let rest = rows.drop_last();
        lemma_filter_count_le(rest, w, x);
        assert(rest.push(rows.last()) =~= rows);
    }
}

/// A page holds pairwise distinct rows, with pairwise distinct ids.
pub proof fn lemma_page_no_dup(rows: Seq<RowV>, w: int)
    requires
        table_wf(rows),
    ensures
        forall|m1: int, m2: int|
            0 <= m1 < m2 < page_of(rows, w).len() ==> (#[trigger] page_of(rows, w)[m1]).id != (
            #[trigger] page_of(rows, w)[m2]).id,
{
    broadcast use vstd::seq_lib::group_to_multiset_ensures;

    let f = filter_delta(rows, w);
    let s = sort_rows(f);
    lemma_sort_rows_multiset(f);
    assert(rows.no_duplicates()) by {
        assert forall|i: int, j: int|
            0 <= i < rows.len() && 0 <= j < rows.len() && i != j implies rows[i] != rows[j] by {
            assert(rows[i].id != rows[j].id || rows[j].id != rows[i].id);
        }
    }
    rows.lemma_multiset_has_no_duplicates();
    assert forall|x: RowV| s.to_multiset().contains(x) implies s.to_multiset().count(x) == 1 by {
        lemma_filter_count_le(rows, w, x);
        assert(f.to_multiset().count(x) <= rows.to_multiset().count(x));
        if rows.to_multiset().count(x) > 0 {
            assert(rows.to_multiset().contains(x));
        }
    }
    s.lemma_multiset_has_no_duplicates_conv();
    let pv = page_of(rows, w);
    assert forall|m1: int, m2: int|
        0 <= m1 < m2 < pv.len() implies (#[trigger] pv[m1]).id != (#[trigger] pv[m2]).id by {
        assert(pv[m1] == s[m1]);
        assert(pv[m2] == s[m2]);
        assert(s[m1] != s[m2]);
        assert(s.contains(s[m1]));
        assert(s.contains(s[m2]));
        lemma_sort_contains(f, s[m1]);
        lemma_sort_contains(f, s[m2]);
        lemma_filter_contains(rows, w, s[m1]);
        lemma_filter_contains(rows, w, s[m2]);
        if pv[m1].id == pv[m2].id {
            let j1 = choose|j: int| 0 <= j < rows.len() && rows[j] == s[m1];
            let j2 = choose|j: int| 0 <= j < rows.len() && rows[j] == s[m2];
            lemma_member_ids(rows, j1, j2);
        }
    }
}

/// A page is ordered by `last_edit`, ascending.
pub proof fn lemma_page_sorted(rows: Seq<RowV>, w: int)
    ensures
        sorted_rows(page_of(rows, w)),
{
    lemma_sort_rows_sorted(filter_delta(rows, w));
    let s = sort_rows(filter_delta(rows, w));
    let pv = page_of(rows, w);
    assert forall|i: int, j: int|
        0 <= i < j < pv.len() implies pv[i].last_edit <= pv[j].last_edit by {
        assert(pv[i] == s[i]);
        assert(pv[j] == s[j]);
    }
}

} // verus!
