//! The sync service: watermark-based delta replay.
//!
//! On a client's sync request, the server replays each entity kind's delta
//! since that kind's watermark, page by page, advancing the watermark past
//! the highest arrival stamp of each page, and closes each kind with a
//! marker frame carrying the client's next watermark. The kinds are replayed
//! in a fixed dependency-respecting order, and the whole replay ends with a
//! single completion frame, after which the client is admitted to broadcast.

use vstd::prelude::*;

use crate::clients::{chas, client_of, ClientHandler, ClientV};
use crate::protocol::{
    empty_frame, kind_type, kind_type_name, lemma_frame_type_names, marker_data, outgoing_view,
    Frame, FrameV, Outgoing, OutgoingV,
};
use crate::record::{rec_get, FieldV, Record, Value, ValueV};
use crate::store::{
    lemma_wire_names_distinct, photo_payload_oversized, wire_record_get, DatabaseError, EntityKind,
    RowStore, StoreV,
};
use crate::table::{
    filter_delta, lemma_filter_contains, lemma_member_ids, lemma_page_empty, lemma_page_member,
    lemma_page_no_dup, lemma_page_sorted, lemma_sort_contains, lemma_sort_rows_multiset,
    lemma_sort_rows_sorted, page_of, rows_view, sort_rows, sorted_rows, table_wf, RowV,
};
use crate::junction::JunctionRowV;

verus! {

/// A replay failure.
#[derive(Debug)]
pub enum SyncError {
    /// The sync request carried no watermark record.
    MissingData,
    /// No entry is bound to the client id.
    ClientNotFound,
    /// The client has not authenticated.
    NotAuthenticated,
    /// The store failed.
    StorageError(String),
    /// A frame could not be delivered.
    MessageError(String),
}

/// The views of the frames of a vector.
pub open spec fn frames_view(fs: Seq<Frame>) -> Seq<FrameV> {
    fs.map(|i: int, f: Frame| f@)
}

/// Whether a frame carries one stored row of one kind on the wire.
pub open spec fn frame_matches(
    f: FrameV,
    kind: EntityKind,
    row: RowV,
    junction: Seq<JunctionRowV>,
) -> bool {
    &&& f.typ == kind_type(kind)
    &&& forall|n: Seq<char>| rec_get(f.data, n) == wire_record_get(kind, row, junction, n)
}

/// Whether a row value is one of a table's rows.
pub open spec fn row_in(t: Seq<RowV>, r: RowV) -> bool {
    exists|j: int| 0 <= j < t.len() && t[j] == r
}

/// The id column a frame carries, if any.
pub open spec fn frame_id(f: FrameV) -> Option<ValueV> {
    rec_get(f.data, "id"@)
}

/// The edit time a record frame carries; a frame without one reads as zero.
pub open spec fn frame_edit(f: FrameV) -> int {
    match rec_get(f.data, "lastEdit"@) {
        Some(ValueV::Int(n)) => n,
        _ => 0,
    }
}

/// The arrival stamp a record frame carries; a frame without one reads as
/// zero.
pub open spec fn frame_arrival(f: FrameV) -> int {
    match rec_get(f.data, "arrivalAtServer"@) {
        Some(ValueV::Int(n)) => n,
        _ => 0,
    }
}

/// The watermark advance one replayed row earns: one past its arrival stamp,
/// capped at the numeric limit.
pub open spec fn cap_advance(arrival: int) -> int {
    if arrival < i64::MAX {
        arrival + 1
    } else {
        i64::MAX as int
    }
}

/// The watermark a marker frame carries; a frame without one reads as zero.
pub open spec fn marker_value(f: FrameV) -> int {
    match rec_get(f.data, "newSyncDate"@) {
        Some(ValueV::Int(n)) => n,
        _ => 0,
    }
}

/// Every frame of a sequence carries some stored row that arrived after the
/// watermark.
pub open spec fn frames_sound(
    fs: Seq<FrameV>,
    t: Seq<RowV>,
    kind: EntityKind,
    junction: Seq<JunctionRowV>,
    last_sync: int,
) -> bool {
    forall|i: int|
        0 <= i < fs.len() ==> exists|j: int|
            0 <= j < t.len() && (#[trigger] t[j]).arrival > last_sync && frame_matches(
                #[trigger] fs[i],
                kind,
                t[j],
                junction,
            )
}

/// Whether some frame of a sequence carries the row.
pub open spec fn emitted(
    fs: Seq<FrameV>,
    kind: EntityKind,
    row: RowV,
    junction: Seq<JunctionRowV>,
) -> bool {
    exists|i: int| 0 <= i < fs.len() && frame_matches(#[trigger] fs[i], kind, row, junction)
}

/// When paged replay recovers every qualifying row: rows carry pairwise
/// distinct edit times, the arrival order respects the edit order with a
/// full millisecond to spare at each step, and no arrival stamp sits at the
/// numeric limit. A page boundary can otherwise fall between two rows whose
/// arrival stamps are adjacent, and the watermark advance skips the later
/// one.
pub open spec fn replay_friendly(rows: Seq<RowV>) -> bool {
    &&& forall|i: int, j: int|
        0 <= i < rows.len() && 0 <= j < rows.len() && i != j ==> (#[trigger] rows[i]).last_edit
            != (#[trigger] rows[j]).last_edit
    &&& forall|i: int, j: int|
        0 <= i < rows.len() && 0 <= j < rows.len() && (#[trigger] rows[i]).last_edit < (
        #[trigger] rows[j]).last_edit ==> rows[i].arrival + 1 < rows[j].arrival
    &&& forall|i: int| 0 <= i < rows.len() ==> (#[trigger] rows[i]).arrival < i64::MAX
}

/// The indices of the rows a delta query at watermark `w` still owes.
pub open spec fn qual_set(rows: Seq<RowV>, w: int) -> Set<int> {
    Set::new(|i: int| 0 <= i < rows.len() && rows[i].arrival > w)
}

/// A row beyond the current page: it qualifies, and its arrival stamp clears
/// every page row's by more than one, so no watermark advance of this page
/// can skip it.
pub open spec fn beyond_page(r: RowV, pv: Seq<RowV>, w0: int) -> bool {
    &&& r.arrival > w0
    &&& forall|m: int| 0 <= m < pv.len() ==> r.arrival > (#[trigger] pv[m]).arrival + 1
}

/// The qualifying-index set only shrinks as the watermark advances, and a
/// row below the new watermark leaves it.
proof fn lemma_qual_shrinks(rows: Seq<RowV>, w1: int, w2: int)
    requires
        w1 <= w2,
    ensures
        qual_set(rows, w2).subset_of(qual_set(rows, w1)),
        qual_set(rows, w1).finite(),
        qual_set(rows, w1).len() <= rows.len(),
{
    vstd::set_lib::lemma_int_range(0, rows.len() as int);
    vstd::set_lib::lemma_len_subset(
        qual_set(rows, w1),
        vstd::set_lib::set_int_range(0, rows.len() as int),
    );
}

/// A row left out of a full page clears every page row's arrival stamp by
/// more than one, provided the table is replay friendly.
proof fn lemma_page_excluded(rows: Seq<RowV>, w: int, r: RowV)
    requires
        replay_friendly(rows),
        filter_delta(rows, w).contains(r),
        forall|m: int| 0 <= m < page_of(rows, w).len() ==> #[trigger] page_of(rows, w)[m] != r,
    ensures
        forall|m: int|
            0 <= m < page_of(rows, w).len() ==> r.arrival > (#[trigger] page_of(rows, w)[m]).arrival
                + 1,
{
    let f = filter_delta(rows, w);
    let all = sort_rows(f);
    let pv = page_of(rows, w);
    lemma_sort_rows_multiset(f);
    lemma_sort_rows_sorted(f);
    lemma_sort_contains(f, r);
    let idx = choose|i: int| 0 <= i < all.len() && all[i] == r;
    assert(idx >= pv.len()) by {
        if idx < pv.len() {
            assert(pv[idx] == all[idx]);
        }
    }
    assert forall|m: int| 0 <= m < pv.len() implies r.arrival > (#[trigger] pv[m]).arrival + 1 by {
        assert(pv[m] == all[m]);
        assert(all[m].last_edit <= all[idx].last_edit);
        assert(all.contains(all[m]));
        lemma_sort_contains(f, all[m]);
        lemma_filter_contains(rows, w, all[m]);
        lemma_filter_contains(rows, w, r);
        let jm = choose|j: int| 0 <= j < rows.len() && rows[j] == all[m];
        let jr = choose|j: int| 0 <= j < rows.len() && rows[j] == r;
        assert(jm != jr) by {
            if jm == jr {
                assert(pv[m] == r);
            }
        }
        assert(rows[jm].last_edit != rows[jr].last_edit);
        assert(rows[jm].last_edit < rows[jr].last_edit);
    }
}

/// Entering a page: every qualifying row is already carried, scheduled in
/// this page, or beyond it.
proof fn lemma_before_page(
    t: Seq<RowV>,
    junction: Seq<JunctionRowV>,
    kind: EntityKind,
    fs: Seq<FrameV>,
    pv: Seq<RowV>,
    w0: int,
    last_sync: int,
)
    requires
        replay_friendly(t),
        pv == page_of(t, w0),
        forall|j: int|
            0 <= j < t.len() && (#[trigger] t[j]).arrival > last_sync ==> (emitted(
                fs,
                kind,
                t[j],
                junction,
            ) || t[j].arrival > w0),
    ensures
        forall|j: int|
            0 <= j < t.len() && (#[trigger] t[j]).arrival > last_sync ==> (emitted(
                fs,
                kind,
                t[j],
                junction,
            ) || (exists|m: int| 0 <= m < pv.len() && #[trigger] pv[m] == t[j]) || beyond_page(
                t[j],
                pv,
                w0,
            )),
{
    assert forall|j: int|
        0 <= j < t.len() && (#[trigger] t[j]).arrival > last_sync implies (emitted(
        fs,
        kind,
        t[j],
        junction,
    ) || (exists|m: int| 0 <= m < pv.len() && #[trigger] pv[m] == t[j]) || beyond_page(
        t[j],
        pv,
        w0,
    )) by {
        if !emitted(fs, kind, t[j], junction) && t[j].arrival > w0 {
            lemma_filter_contains(t, w0, t[j]);
            if forall|m: int| 0 <= m < pv.len() ==> #[trigger] pv[m] != t[j] {
                lemma_page_excluded(t, w0, t[j]);
            }
        }
    }
}

/// Leaving a page: the qualifying-index set shrank, and every qualifying row
/// is carried or still ahead of the advanced watermark.
proof fn lemma_after_page(
    t: Seq<RowV>,
    junction: Seq<JunctionRowV>,
    kind: EntityKind,
    fs: Seq<FrameV>,
    pv: Seq<RowV>,
    w0: int,
    w: int,
    last_sync: int,
)
    requires
        pv == page_of(t, w0),
        pv.len() > 0,
        last_sync <= w0 <= w,
        w == w0 || exists|m: int| 0 <= m < pv.len() && w <= (#[trigger] pv[m]).arrival + 1,
        forall|m: int| 0 <= m < pv.len() ==> (#[trigger] pv[m]).arrival <= w,
        replay_friendly(t) ==> forall|j: int|
            0 <= j < t.len() && (#[trigger] t[j]).arrival > last_sync ==> (emitted(
                fs,
                kind,
                t[j],
                junction,
            ) || (exists|m: int| pv.len() <= m < pv.len() && #[trigger] pv[m] == t[j])
                || beyond_page(t[j], pv, w0)),
    ensures
        qual_set(t, w).len() < qual_set(t, w0).len(),
        qual_set(t, w).finite(),
        replay_friendly(t) ==> forall|j: int|
            0 <= j < t.len() && (#[trigger] t[j]).arrival > last_sync ==> (emitted(
                fs,
                kind,
                t[j],
                junction,
            ) || t[j].arrival > w),
{
    lemma_qual_shrinks(t, w0, w);
    lemma_qual_shrinks(t, w, w);
    lemma_page_member(t, w0, 0);
    lemma_filter_contains(t, w0, pv[0]);
    let j0 = choose|j: int| 0 <= j < t.len() && t[j] == pv[0];
    assert(qual_set(t, w0).contains(j0));
    assert(!qual_set(t, w).contains(j0));
    assert(qual_set(t, w).subset_of(qual_set(t, w0).remove(j0)));
    vstd::set_lib::lemma_len_subset(qual_set(t, w), qual_set(t, w0).remove(j0));
    assert(qual_set(t, w0).remove(j0).len() == qual_set(t, w0).len() - 1);
    if replay_friendly(t) {
        assert forall|j: int|
            0 <= j < t.len() && (#[trigger] t[j]).arrival > last_sync implies (emitted(
            fs,
            kind,
            t[j],
            junction,
        ) || t[j].arrival > w) by {
            if !emitted(fs, kind, t[j], junction) {
                assert(beyond_page(t[j], pv, w0));
                if w != w0 {
                    let m = choose|m: int|
                        0 <= m < pv.len() && w <= (#[trigger] pv[m]).arrival + 1;
                    assert(t[j].arrival > pv[m].arrival + 1);
                }
            }
        }
    }
}

/// One kind's complete replay output since watermark `w0`: record frames of
/// stored rows, closed by exactly one marker frame carrying the client's
/// next watermark.
///
/// Every frame carries the kind's type tag. Each record frame carries a
/// stored row that arrived after `w0`, no row twice. The marker's watermark
/// covers the whole table; with nothing replayed it equals `w0` and the
/// marker stands alone, and otherwise it is exactly one past the greatest
/// replayed arrival stamp, capped at the numeric limit. On a replay-friendly
/// table the record frames are complete and ascend by edit time.
pub open spec fn replay_of(
    t: Seq<RowV>,
    junction: Seq<JunctionRowV>,
    kind: EntityKind,
    w0: int,
    fs: Seq<FrameV>,
    now: int,
) -> bool {
    let w = marker_value(fs.last());
    let recs = fs.take(fs.len() - 1);
    &&& fs.len() >= 1
    &&& fs.last().typ == kind_type(kind)
    &&& fs.last().data == marker_data(w)
    &&& fs.last().timestamp == now
    &&& forall|i: int| 0 <= i < fs.len() ==> (#[trigger] fs[i]).typ == kind_type(kind)
    &&& w >= w0
    &&& forall|j: int| 0 <= j < t.len() ==> (#[trigger] t[j]).arrival <= w
    &&& ((forall|j: int| 0 <= j < t.len() ==> (#[trigger] t[j]).arrival <= w0) ==> (w == w0
        && fs.len() == 1))
    &&& (fs.len() == 1 ==> w == w0)
    &&& forall|i: int|
        0 <= i < fs.len() - 1 ==> w >= cap_advance(frame_arrival(#[trigger] fs[i]))
    &&& (fs.len() > 1 ==> exists|i: int|
        0 <= i < fs.len() - 1 && w == cap_advance(frame_arrival(#[trigger] fs[i])))
    &&& frames_sound(recs, t, kind, junction, w0)
    &&& forall|i1: int, i2: int|
        0 <= i1 < i2 < fs.len() - 1 ==> frame_id(#[trigger] fs[i1]) != frame_id(#[trigger] fs[i2])
    &&& (replay_friendly(t) ==> forall|j: int|
        0 <= j < t.len() && (#[trigger] t[j]).arrival > w0 ==> emitted(recs, kind, t[j], junction))
    &&& (replay_friendly(t) ==> forall|i1: int, i2: int|
        0 <= i1 < i2 < fs.len() - 1 ==> frame_edit(#[trigger] fs[i1]) <= frame_edit(
            #[trigger] fs[i2],
        ))
    &&& (replay_friendly(t) ==> forall|j: int|
        0 <= j < t.len() && (#[trigger] t[j]).arrival > w0 ==> !photo_payload_oversized(
            kind,
            t[j],
        ))
}

/// Arrival order respects edit order on a replay-friendly table.
proof fn lemma_friendly_le(t: Seq<RowV>, jx: int, jy: int)
    requires
        replay_friendly(t),
        0 <= jx < t.len(),
        0 <= jy < t.len(),
        t[jx].arrival < t[jy].arrival,
    ensures
        t[jx].last_edit <= t[jy].last_edit,
{
    if t[jx].last_edit > t[jy].last_edit {
        assert(t[jy].arrival + 1 < t[jx].arrival);
    }
}

/// One replay step's bookkeeping: the next page row differs by id from every
/// row already replayed, and, on a friendly table, carries the greatest edit
/// time so far.
proof fn lemma_done_push(
    t: Seq<RowV>,
    pv: Seq<RowV>,
    done0: Seq<RowV>,
    dpre: Seq<RowV>,
    k: int,
    w0: int,
)
    requires
        table_wf(t),
        sorted_rows(pv),
        forall|m1: int, m2: int|
            0 <= m1 < m2 < pv.len() ==> (#[trigger] pv[m1]).id != (#[trigger] pv[m2]).id,
        0 <= k < pv.len(),
        row_in(t, pv[k]),
        pv[k].arrival > w0,
        forall|i: int| 0 <= i < done0.len() ==> (#[trigger] done0[i]).arrival <= w0,
        forall|i: int| 0 <= i < done0.len() ==> row_in(t, #[trigger] done0[i]),
        dpre.len() == done0.len() + k,
        forall|i: int| 0 <= i < done0.len() ==> #[trigger] dpre[i] == done0[i],
        forall|m: int| 0 <= m < k ==> #[trigger] dpre[done0.len() + m] == pv[m],
    ensures
        forall|i: int| 0 <= i < dpre.len() ==> (#[trigger] dpre[i]).id != pv[k].id,
        replay_friendly(t) ==> forall|i: int|
            0 <= i < dpre.len() ==> (#[trigger] dpre[i]).last_edit <= pv[k].last_edit,
{
    let jy = choose|j: int| 0 <= j < t.len() && t[j] == pv[k];
    assert forall|i: int| 0 <= i < dpre.len() implies (#[trigger] dpre[i]).id != pv[k].id by {
        if i < done0.len() {
            let jx = choose|j: int| 0 <= j < t.len() && t[j] == dpre[i];
            if dpre[i].id == pv[k].id {
                lemma_member_ids(t, jx, jy);
            }
        } else {
            assert(dpre[done0.len() + (i - done0.len())] == pv[i - done0.len()]);
        }
    }
    if replay_friendly(t) {
        assert forall|i: int|
            0 <= i < dpre.len() implies (#[trigger] dpre[i]).last_edit <= pv[k].last_edit by {
            if i < done0.len() {
                let jx = choose|j: int| 0 <= j < t.len() && t[j] == dpre[i];
                lemma_friendly_le(t, jx, jy);
            } else {
                assert(dpre[done0.len() + (i - done0.len())] == pv[i - done0.len()]);
            }
        }
    }
}

/// The wire columns every trace frame pins: its row's id, edit time and
/// arrival stamp, under the kind's type tag.
proof fn lemma_assemble_fields(
    fs: Seq<FrameV>,
    done: Seq<RowV>,
    kind: EntityKind,
    junction: Seq<JunctionRowV>,
)
    requires
        fs.len() == done.len() + 1,
        forall|i: int|
            0 <= i < done.len() ==> frame_matches(#[trigger] fs[i], kind, done[i], junction),
    ensures
        forall|i: int|
            0 <= i < done.len() ==> {
                &&& frame_id(#[trigger] fs[i]) == Some(ValueV::Text(done[i].id))
                &&& frame_edit(fs[i]) == done[i].last_edit
                &&& frame_arrival(fs[i]) == done[i].arrival
                &&& fs[i].typ == kind_type(kind)
            },
{
    lemma_wire_names_distinct();
    assert forall|i: int| 0 <= i < done.len() implies {
        &&& frame_id(#[trigger] fs[i]) == Some(ValueV::Text(done[i].id))
        &&& frame_edit(fs[i]) == done[i].last_edit
        &&& frame_arrival(fs[i]) == done[i].arrival
        &&& fs[i].typ == kind_type(kind)
    } by {
        assert(frame_matches(fs[i], kind, done[i], junction));
        assert(rec_get(fs[i].data, "id"@) == wire_record_get(kind, done[i], junction, "id"@));
        assert(rec_get(fs[i].data, "lastEdit"@) == wire_record_get(
            kind,
            done[i],
            junction,
            "lastEdit"@,
        ));
        assert(rec_get(fs[i].data, "arrivalAtServer"@) == wire_record_get(
            kind,
            done[i],
            junction,
            "arrivalAtServer"@,
        ));
    }
}

/// Assembles a finished replay's trace into its contract: the emitted rows
/// behind the frames carry everything `replay_of` states.
#[verifier::rlimit(100)]
proof fn lemma_replay_assemble(
    t: Seq<RowV>,
    junction: Seq<JunctionRowV>,
    kind: EntityKind,
    fs: Seq<FrameV>,
    done: Seq<RowV>,
    w0: int,
    w: int,
    now: int,
)
    requires
        table_wf(t),
        forall|i: int| 0 <= i < done.len() ==> !photo_payload_oversized(kind, #[trigger] done[i]),
        fs.len() == done.len() + 1,
        fs.last().typ == kind_type(kind),
        fs.last().data == marker_data(w),
        fs.last().timestamp == now,
        forall|i: int|
            0 <= i < done.len() ==> frame_matches(#[trigger] fs[i], kind, done[i], junction),
        forall|i: int| 0 <= i < done.len() ==> row_in(t, #[trigger] done[i]),
        forall|i: int|
            0 <= i < done.len() ==> (#[trigger] done[i]).arrival <= w && done[i].arrival > w0,
        forall|i: int| 0 <= i < done.len() ==> w >= cap_advance((#[trigger] done[i]).arrival),
        done.len() > 0 ==> exists|i: int|
            0 <= i < done.len() && w == cap_advance((#[trigger] done[i]).arrival),
        done.len() == 0 ==> w == w0,
        forall|i1: int, i2: int|
            0 <= i1 < i2 < done.len() ==> (#[trigger] done[i1]).id != (#[trigger] done[i2]).id,
        replay_friendly(t) ==> forall|i1: int, i2: int|
            0 <= i1 < i2 < done.len() ==> (#[trigger] done[i1]).last_edit <= (
            #[trigger] done[i2]).last_edit,
        w >= w0,
        forall|j: int| 0 <= j < t.len() ==> (#[trigger] t[j]).arrival <= w,
        (forall|j: int| 0 <= j < t.len() ==> (#[trigger] t[j]).arrival <= w0) ==> (w == w0
            && done.len() == 0),
        replay_friendly(t) ==> forall|j: int|
            0 <= j < t.len() && (#[trigger] t[j]).arrival > w0 ==> emitted(
                fs.take(fs.len() - 1),
                kind,
                t[j],
                junction,
            ),
    ensures
        replay_of(t, junction, kind, w0, fs, now),
        marker_value(fs.last()) == w,
{
    lemma_wire_names_distinct();
    lemma_assemble_fields(fs, done, kind, junction);
    assert(marker_value(fs.last()) == w) by {
        assert(marker_data(w)[0].name == "newSyncDate"@);
    }
    let recs = fs.take(fs.len() - 1);
    assert forall|i: int| 0 <= i < fs.len() implies (#[trigger] fs[i]).typ == kind_type(kind) by {
        if i < fs.len() - 1 {
            assert(fs[i].typ == kind_type(kind));
        }
    }
    assert forall|i: int|
        0 <= i < recs.len() implies exists|j: int|
        0 <= j < t.len() && (#[trigger] t[j]).arrival > w0 && frame_matches(
            #[trigger] recs[i],
            kind,
            t[j],
            junction,
        ) by {
        assert(recs[i] == fs[i]);
        assert(row_in(t, done[i]));
        let j = choose|j: int| 0 <= j < t.len() && t[j] == done[i];
        assert(t[j].arrival > w0);
        assert(frame_matches(recs[i], kind, t[j], junction));
    }
    if fs.len() > 1 {
        let i = choose|i: int|
            0 <= i < done.len() && w == cap_advance((#[trigger] done[i]).arrival);
        assert(w == cap_advance(frame_arrival(fs[i])));
    }
    if replay_friendly(t) {
        assert forall|j: int|
            0 <= j < t.len() && (#[trigger] t[j]).arrival > w0 implies !photo_payload_oversized(
            kind,
            t[j],
        ) by {
            assert(emitted(recs, kind, t[j], junction));
            let i = choose|i: int|
                0 <= i < recs.len() && frame_matches(#[trigger] recs[i], kind, t[j], junction);
            assert(recs[i] == fs[i]);
            assert(rec_get(fs[i].data, "id"@) == wire_record_get(kind, t[j], junction, "id"@));
            assert(frame_id(fs[i]) == Some(ValueV::Text(t[j].id)));
            assert(done[i].id == t[j].id);
            assert(row_in(t, done[i]));
            let jd = choose|jd: int| 0 <= jd < t.len() && t[jd] == done[i];
            lemma_member_ids(t, jd, j);
            assert(done[i] == t[j]);
        }
    }
}

/// Replays one entity kind's delta since `last_sync`: the record frames of
/// every page in edit-time order, closed by a marker frame carrying the
/// client's next watermark. The whole output satisfies `replay_of`, and the
/// returned watermark is the marker's.
///
/// The replay fails exactly by encountering a stored photo payload too large
/// to re-encode: a failure proves such a row arrived after `last_sync`.
#[verifier::rlimit(100)]
#[verifier::loop_isolation(true)]
pub fn replay_kind(store: &RowStore, kind: EntityKind, last_sync: i64, now: i64) -> (r: Result<
    (Vec<Frame>, i64),
    DatabaseError,
>)
    requires
        store.wf(),
    ensures
        match r {
            Ok((frames, new_w)) => {
                &&& replay_of(
                    store@.table(kind),
                    store@.junction,
                    kind,
                    last_sync as int,
                    frames_view(frames@),
                    now as int,
                )
                &&& new_w as int == marker_value(frames_view(frames@).last())
            },
            Err(_) => {
                &&& kind == EntityKind::Photo
                &&& exists|j: int|
                    0 <= j < store@.table(kind).len() && (#[trigger] store@.table(
                        kind,
                    )[j]).arrival > last_sync && photo_payload_oversized(
                        kind,
                        store@.table(kind)[j],
                    )
            },
        },
{
    let ghost t = store@.table(kind);
    let ghost junction = store@.junction;
    proof {
        assert(table_wf(t));
    }
    let mut frames: Vec<Frame> = Vec::new();
    let mut w: i64 = last_sync;
    let mut done = false;
    let ghost mut done_rows: Seq<RowV> = Seq::empty();
    proof {
        assert(frames_view(frames@) =~= Seq::<FrameV>::empty());
    }
    while !done
        invariant
            store.wf(),
            t == store@.table(kind),
            junction == store@.junction,
            table_wf(t),
            w >= last_sync,
            done_rows.len() == frames_view(frames@).len(),
            forall|i: int|
                0 <= i < done_rows.len() ==> frame_matches(
                    #[trigger] frames_view(frames@)[i],
                    kind,
                    done_rows[i],
                    junction,
                ),
            forall|i: int| 0 <= i < done_rows.len() ==> row_in(t, #[trigger] done_rows[i]),
            forall|i: int|
                0 <= i < done_rows.len() ==> (#[trigger] done_rows[i]).arrival <= w
                    && done_rows[i].arrival > last_sync,
            done_rows.len() == 0 ==> w == last_sync,
            forall|i: int|
                0 <= i < done_rows.len() ==> w as int >= cap_advance(
                    (#[trigger] done_rows[i]).arrival,
                ),
            done_rows.len() > 0 ==> exists|i: int|
                0 <= i < done_rows.len() && w as int == cap_advance(
                    (#[trigger] done_rows[i]).arrival,
                ),
            forall|i: int|
                0 <= i < done_rows.len() ==> !photo_payload_oversized(kind, #[trigger] done_rows[i]),
            forall|i1: int, i2: int|
                0 <= i1 < i2 < done_rows.len() ==> (#[trigger] done_rows[i1]).id != (
                #[trigger] done_rows[i2]).id,
            replay_friendly(t) ==> forall|i1: int, i2: int|
                0 <= i1 < i2 < done_rows.len() ==> (#[trigger] done_rows[i1]).last_edit <= (
                #[trigger] done_rows[i2]).last_edit,
            (forall|j: int| 0 <= j < t.len() ==> (#[trigger] t[j]).arrival <= last_sync) ==> (w
                == last_sync && done_rows.len() == 0),
            replay_friendly(t) ==> forall|j: int|
                0 <= j < t.len() && (#[trigger] t[j]).arrival > last_sync ==> (emitted(
                    frames_view(frames@),
                    kind,
                    t[j],
                    junction,
                ) || t[j].arrival > w),
            done ==> forall|j: int| 0 <= j < t.len() ==> (#[trigger] t[j]).arrival <= w,
        decreases qual_set(t, w as int).len(), (if done { 0int } else { 1int }),
    {
        let page = store.delta_page(kind, w);
        if page.len() == 0 {
            proof {
                lemma_page_empty(t, w as int);
            }
            done = true;
        } else {
            let ghost w0 = w as int;
            let ghost pv = rows_view(page@);
            let ghost done0 = done_rows;
            proof {
                assert(pv == page_of(t, w0));
                lemma_page_no_dup(t, w0);
                lemma_page_sorted(t, w0);
                if replay_friendly(t) {
                    lemma_before_page(t, junction, kind, frames_view(frames@), pv, w0, last_sync as int);
                }
            }
            let page_len = page.len();
            let mut k: usize = 0;
            while k < page_len
                invariant
                    store.wf(),
                    t == store@.table(kind),
                    junction == store@.junction,
                    table_wf(t),
                    last_sync <= w0,
                    k <= page_len,
                    page_len == page@.len(),
                    rows_view(page@) == pv,
                    pv == page_of(t, w0),
                    sorted_rows(pv),
                    forall|m1: int, m2: int|
                        0 <= m1 < m2 < pv.len() ==> (#[trigger] pv[m1]).id != (#[trigger] pv[m2]).id,
                    w0 >= last_sync,
                    w as int >= w0,
                    forall|m: int| 0 <= m < k ==> (#[trigger] pv[m]).arrival <= w as int,
                    done_rows.len() == done0.len() + k,
                    forall|i: int| 0 <= i < done0.len() ==> #[trigger] done_rows[i] == done0[i],
                    forall|m: int| 0 <= m < k ==> #[trigger] done_rows[done0.len() + m] == pv[m],
                    forall|i: int| 0 <= i < done0.len() ==> (#[trigger] done0[i]).arrival <= w0,
                    done_rows.len() == frames_view(frames@).len(),
                    forall|i: int|
                        0 <= i < done_rows.len() ==> frame_matches(
                            #[trigger] frames_view(frames@)[i],
                            kind,
                            done_rows[i],
                            junction,
                        ),
                    forall|i: int| 0 <= i < done_rows.len() ==> row_in(t, #[trigger] done_rows[i]),
                    forall|i: int|
                        0 <= i < done_rows.len() ==> (#[trigger] done_rows[i]).arrival <= w
                            && done_rows[i].arrival > last_sync,
                    done_rows.len() == 0 ==> w == last_sync,
                    forall|i: int|
                        0 <= i < done_rows.len() ==> w as int >= cap_advance(
                            (#[trigger] done_rows[i]).arrival,
                        ),
                    done_rows.len() > 0 ==> exists|i: int|
                        0 <= i < done_rows.len() && w as int == cap_advance(
                            (#[trigger] done_rows[i]).arrival,
                        ),
                    forall|i: int|
                        0 <= i < done_rows.len() ==> !photo_payload_oversized(
                            kind,
                            #[trigger] done_rows[i],
                        ),
                    forall|i1: int, i2: int|
                        0 <= i1 < i2 < done_rows.len() ==> (#[trigger] done_rows[i1]).id != (
                        #[trigger] done_rows[i2]).id,
                    replay_friendly(t) ==> forall|i1: int, i2: int|
                        0 <= i1 < i2 < done_rows.len() ==> (#[trigger] done_rows[i1]).last_edit <= (
                        #[trigger] done_rows[i2]).last_edit,
                    replay_friendly(t) ==> forall|j: int|
                        0 <= j < t.len() && (#[trigger] t[j]).arrival > last_sync ==> (emitted(
                            frames_view(frames@),
                            kind,
                            t[j],
                            junction,
                        ) || (exists|m: int| k <= m < pv.len() && #[trigger] pv[m] == t[j])
                            || beyond_page(t[j], pv, w0)),
                decreases page_len - k,
            {
                proof {
                    lemma_page_member(t, w0, k as int);
                    lemma_filter_contains(t, w0, pv[k as int]);
                    assert(crate::record::rec_wf(pv[k as int].data)) by {
                        let j = choose|j: int| 0 <= j < t.len() && t[j] == pv[k as int];
                        assert(t[j] == pv[k as int]);
                    }
                    assert(page@[k as int]@ == pv[k as int]);
                }
                let row = &page[k];
                let rec = match store.to_wire_record(kind, row) {
                    Ok(rec) => rec,
                    Err(e) => {
                        proof {
                            let j = choose|j: int| 0 <= j < t.len() && t[j] == pv[k as int];
                            assert(t[j].arrival > last_sync && photo_payload_oversized(kind, t[j]));
                        }
                        return Err(e);
                    },
                };
                let ghost before = frames_view(frames@);
                let ghost d_entry = done_rows;
                frames.push(Frame { typ: kind_type_name(kind), data: rec, timestamp: now });
                proof {
                    assert(frames_view(frames@) =~= before.push(frames@.last()@));
                    let fv = frames_view(frames@).last();
                    assert(frame_matches(fv, kind, pv[k as int], junction));
                    lemma_emitted_push(before, frames_view(frames@), kind, junction);
                    assert(emitted(frames_view(frames@), kind, pv[k as int], junction)) by {
                        assert(frames_view(frames@)[frames_view(frames@).len() - 1] == fv);
                    }
                    done_rows = done_rows.push(pv[k as int]);
                    assert forall|i: int| 0 <= i < done0.len() implies row_in(
                        t,
                        #[trigger] done0[i],
                    ) by {
                        assert(d_entry[i] == done0[i]);
                        assert(row_in(t, d_entry[i]));
                    }
                    lemma_done_push(t, pv, done0, d_entry, k as int, w0);
                    assert forall|i: int|
                        0 <= i < done_rows.len() - 1 implies (#[trigger] done_rows[i]).id
                        != pv[k as int].id && (replay_friendly(t)
                        ==> done_rows[i].last_edit <= pv[k as int].last_edit) by {
                        assert(done_rows[i] == d_entry[i]);
                    }
                }
                if w <= row.arrival {
                    w = if row.arrival == i64::MAX {
                        i64::MAX
                    } else {
                        row.arrival + 1
                    };
                    proof {
                        assert(w as int == cap_advance(pv[k as int].arrival));
                        assert(done_rows[done_rows.len() - 1] == pv[k as int]);
                    }
                } else {
                    proof {
                        // the watermark already passed this arrival, so an earlier
                        // row's advance set it
                        if d_entry.len() == 0 {
                            assert(w == last_sync);
                            assert(pv[k as int].arrival > w0);
                            assert(false);
                        } else {
                            let i = choose|i: int|
                                0 <= i < d_entry.len() && w as int == cap_advance(
                                    (#[trigger] d_entry[i]).arrival,
                                );
                            assert(done_rows[i] == d_entry[i]);
                        }
                    }
                }
                k = k + 1;
                proof {
                    assert(pv[k as int - 1].arrival <= w as int);
                    assert(w as int >= cap_advance(pv[k as int - 1].arrival));
                }
            }
            proof {
                lemma_page_member(t, w0, 0);
                lemma_filter_contains(t, w0, pv[0]);
                assert(w as int == w0 || (exists|m: int|
                    0 <= m < pv.len() && w as int <= (#[trigger] pv[m]).arrival + 1)) by {
                    if done_rows.len() == 0 {
                        assert(w == last_sync);
                        assert(w as int == w0);
                    } else {
                        let i = choose|i: int|
                            0 <= i < done_rows.len() && w as int == cap_advance(
                                (#[trigger] done_rows[i]).arrival,
                            );
                        if i < done0.len() {
                            assert(done_rows[i] == done0[i]);
                            assert(done_rows[i].arrival <= w0);
                            assert(w as int <= w0 + 1);
                            assert(pv[0].arrival > w0);
                            assert(w as int <= pv[0].arrival + 1);
                        } else {
                            assert(done_rows[done0.len() + (i - done0.len())] == pv[i
                                - done0.len()]);
                            assert(w as int <= pv[i - done0.len()].arrival + 1);
                        }
                    }
                }
                lemma_after_page(
                    t,
                    junction,
                    kind,
                    frames_view(frames@),
                    pv,
                    w0,
                    w as int,
                    last_sync as int,
                );
                assert(!(forall|j: int| 0 <= j < t.len() ==> (#[trigger] t[j]).arrival
                    <= last_sync)) by {
                    lemma_page_member(t, w0, 0);
                    lemma_filter_contains(t, w0, pv[0]);
                    let j0 = choose|j: int| 0 <= j < t.len() && t[j] == pv[0];
                    assert(t[j0].arrival > last_sync);
                }
            }
        }
    }
    let marker = crate::protocol::marker_frame(kind, w, now);
    let ghost before = frames_view(frames@);
    frames.push(marker);
    proof {
        assert(frames_view(frames@) =~= before.push(frames@.last()@));
        assert(frames_view(frames@).take(frames_view(frames@).len() - 1) =~= before);
        lemma_replay_assemble(
            t,
            junction,
            kind,
            frames_view(frames@),
            done_rows,
            last_sync as int,
            w as int,
            now as int,
        );
    }
    Ok((frames, w))
}

/// A row carried by some frame is still carried after one more frame.
proof fn lemma_emitted_push(
    before: Seq<FrameV>,
    after: Seq<FrameV>,
    kind: EntityKind,
    junction: Seq<JunctionRowV>,
)
    requires
        after.len() == before.len() + 1,
        forall|i: int| 0 <= i < before.len() ==> after[i] == before[i],
    ensures
        forall|r: RowV|
            #[trigger] emitted(before, kind, r, junction) ==> emitted(after, kind, r, junction),
{
    assert forall|r: RowV|
        #[trigger] emitted(before, kind, r, junction) implies emitted(after, kind, r, junction) by {
        let i = choose|i: int|
            0 <= i < before.len() && frame_matches(#[trigger] before[i], kind, r, junction);
        assert(frame_matches(after[i], kind, r, junction));
    }
}

/// The replay order of the entity kinds: referents before referers.
pub open spec fn kind_order_spec() -> Seq<EntityKind> {
    seq![
        EntityKind::User,
        EntityKind::Sawmill,
        EntityKind::Contract,
        EntityKind::Location,
        EntityKind::Shipment,
        EntityKind::Note,
        EntityKind::Photo,
    ]
}

/// The replay order of the entity kinds: referents before referers.
pub fn kind_order() -> (r: Vec<EntityKind>)
    ensures
        r@ == kind_order_spec(),
{
    let mut order: Vec<EntityKind> = Vec::new();
    order.push(EntityKind::User);
    order.push(EntityKind::Sawmill);
    order.push(EntityKind::Contract);
    order.push(EntityKind::Location);
    order.push(EntityKind::Shipment);
    order.push(EntityKind::Note);
    order.push(EntityKind::Photo);
    proof {
        assert(order@ =~= kind_order_spec());
    }
    order
}

/// The watermark a sync request carries for one kind; a missing or ill-typed
/// column defaults to zero.
pub open spec fn spec_watermark(data: Seq<crate::record::FieldV>, kind: EntityKind) -> int {
    match rec_get(data, kind_type(kind)) {
        Some(ValueV::Int(n)) => n,
        _ => 0,
    }
}

/// Reads one kind's watermark out of a sync request.
pub fn watermark_of(data: &crate::record::Record, kind: EntityKind) -> (r: i64)
    ensures
        r as int == spec_watermark(data@, kind),
{
    let name = kind_type_name(kind);
    match data.get(name.as_str()) {
        Some(Value::Int(n)) => *n,
        _ => 0,
    }
}

/// The frames of a sequence of addressed outputs.
pub open spec fn outgoing_frames(outs: Seq<OutgoingV>) -> Seq<FrameV> {
    outs.map(|i: int, o: OutgoingV| o.frame)
}

/// The full replay a sync request earns: one complete per-kind replay for
/// each entry of `kinds`, in order, each since the watermark the request
/// carries for that kind.
pub open spec fn sync_segments(
    store: StoreV,
    data: Seq<FieldV>,
    kinds: Seq<EntityKind>,
    fs: Seq<FrameV>,
    now: int,
) -> bool
    decreases kinds.len(),
{
    if kinds.len() == 0 {
        fs.len() == 0
    } else {
        exists|n: int|
            1 <= n <= fs.len() && #[trigger] replay_of(
                store.table(kinds[0]),
                store.junction,
                kinds[0],
                spec_watermark(data, kinds[0]),
                fs.take(n),
                now,
            ) && sync_segments(store, data, kinds.drop_first(), fs.skip(n), now)
    }
}

/// What a served sync request guarantees: every frame addressed to the
/// requester; the kinds' complete replays, in dependency order; exactly one
/// terminal completion frame; the requester marked replay-complete and every
/// other registration untouched.
pub open spec fn sync_request_ok(
    store: StoreV,
    pre: Seq<ClientV>,
    post: Seq<ClientV>,
    cid: Seq<char>,
    data: Seq<FieldV>,
    outs: Seq<OutgoingV>,
    now: int,
) -> bool {
    &&& forall|k: int| 0 <= k < outs.len() ==> (#[trigger] outs[k]).client_id == cid
    &&& outs.len() >= 8
    &&& sync_segments(
        store,
        data,
        kind_order_spec(),
        outgoing_frames(outs).take(outs.len() - 1),
        now,
    )
    &&& outs.last().frame.typ == "sync_from_server_complete"@
    &&& outs.last().frame.data == Seq::<FieldV>::empty()
    &&& outs.last().frame.timestamp == now
    &&& forall|i: int|
        0 <= i < outs.len() - 1 ==> (#[trigger] outs[i]).frame.typ
            != "sync_from_server_complete"@
    &&& chas(post, cid)
    &&& client_of(post, cid) == (ClientV { sync_completed: true, ..client_of(pre, cid) })
    &&& forall|id: Seq<char>| id != cid ==> (chas(post, id) <==> chas(pre, id))
    &&& forall|id: Seq<char>|
        id != cid && chas(pre, id) ==> client_of(post, id) == client_of(pre, id)
}

/// Per-kind replays laid end to end are a full replay.
proof fn lemma_segments_assemble(
    store: StoreV,
    data: Seq<FieldV>,
    kinds: Seq<EntityKind>,
    segs: Seq<Seq<FrameV>>,
    now: int,
)
    requires
        segs.len() == kinds.len(),
        forall|s: int|
            0 <= s < segs.len() ==> replay_of(
                store.table(kinds[s]),
                store.junction,
                kinds[s],
                spec_watermark(data, kinds[s]),
                #[trigger] segs[s],
                now,
            ),
    ensures
        sync_segments(store, data, kinds, segs.flatten(), now),
    decreases kinds.len(),
{
    if kinds.len() == 0 {
        assert(segs.flatten() =~= Seq::<FrameV>::empty());
    } else {
        let fs = segs.flatten();
        let head = segs[0];
        let n = head.len() as int;
        assert(segs.first() == head);
        assert(fs == head + segs.drop_first().flatten());
        assert(replay_of(
            store.table(kinds[0]),
            store.junction,
            kinds[0],
            spec_watermark(data, kinds[0]),
            head,
            now,
        ));
        assert(n >= 1);
        assert(fs.take(n) =~= head);
        assert(fs.skip(n) =~= segs.drop_first().flatten());
        assert forall|s: int| 0 <= s < segs.drop_first().len() implies replay_of(
            store.table(kinds.drop_first()[s]),
            store.junction,
            kinds.drop_first()[s],
            spec_watermark(data, kinds.drop_first()[s]),
            #[trigger] segs.drop_first()[s],
            now,
        ) by {
            assert(segs.drop_first()[s] == segs[s + 1]);
            assert(kinds.drop_first()[s] == kinds[s + 1]);
        }
        lemma_segments_assemble(store, data, kinds.drop_first(), segs.drop_first(), now);
        assert(1 <= n <= fs.len());
    }
}

/// Serves a sync request: replays all seven kinds in dependency order since
/// the request's watermarks, marks the client replay-complete, and closes
/// with exactly one completion frame. Every produced frame is addressed to
/// the requesting client alone, and the whole output satisfies
/// `sync_request_ok`. The replay fails exactly by meeting a stored photo
/// payload too large to re-encode; a failure proves such a row arrived after
/// the request's photo watermark, and changes nothing.
pub fn handle_sync_request(
    store: &RowStore,
    clients: &mut ClientHandler,
    client_id: &str,
    data: &Record,
    now: i64,
) -> (r: Result<Vec<Outgoing>, SyncError>)
    requires
        store.wf(),
        old(clients).wf(),
    ensures
        final(clients).wf(),
        match r {
            Ok(outs) => {
                &&& chas(old(clients)@, client_id@)
                &&& client_of(old(clients)@, client_id@).authenticated
                &&& sync_request_ok(
                    store@,
                    old(clients)@,
                    final(clients)@,
                    client_id@,
                    data@,
                    outgoing_view(outs@),
                    now as int,
                )
            },
            Err(SyncError::ClientNotFound) => {
                &&& !chas(old(clients)@, client_id@)
                &&& final(clients)@ == old(clients)@
            },
            Err(SyncError::NotAuthenticated) => {
                &&& chas(old(clients)@, client_id@)
                &&& !client_of(old(clients)@, client_id@).authenticated
                &&& final(clients)@ == old(clients)@
            },
            Err(SyncError::StorageError(_)) => {
                &&& chas(old(clients)@, client_id@)
                &&& client_of(old(clients)@, client_id@).authenticated
                &&& final(clients)@ == old(clients)@
                &&& exists|j: int|
                    0 <= j < store@.photos.len() && (#[trigger] store@.photos[j]).arrival
                        > spec_watermark(data@, EntityKind::Photo) && photo_payload_oversized(
                        EntityKind::Photo,
                        store@.photos[j],
                    )
            },
            Err(_) => false,
        },
{
    let authenticated = match clients.get_client(client_id) {
        Some(c) => c.authenticated,
        None => {
            return Err(SyncError::ClientNotFound);
        },
    };
    if !authenticated {
        return Err(SyncError::NotAuthenticated);
    }
    proof {
        lemma_frame_type_names();
    }

    let order = kind_order();
    let mut outs: Vec<Outgoing> = Vec::new();
    let ghost mut segs: Seq<Seq<FrameV>> = Seq::empty();
    let mut ki: usize = 0;
    proof {
        assert(segs.flatten() =~= Seq::<FrameV>::empty());
        assert(outgoing_frames(outgoing_view(outs@)) =~= Seq::<FrameV>::empty());
    }
    while ki < order.len()
        invariant
            store.wf(),
            order@ == kind_order_spec(),
            order@.len() == 7,
            ki <= order@.len(),
            segs.len() == ki,
            forall|sg: int|
                0 <= sg < segs.len() ==> replay_of(
                    store@.table(order@[sg]),
                    store@.junction,
                    order@[sg],
                    spec_watermark(data@, order@[sg]),
                    #[trigger] segs[sg],
                    now as int,
                ),
            outgoing_frames(outgoing_view(outs@)) == segs.flatten(),
            forall|k: int|
                0 <= k < outgoing_view(outs@).len()
                    ==> (#[trigger] outgoing_view(outs@)[k]).client_id == client_id@,
            forall|k: int|
                0 <= k < outgoing_view(outs@).len() ==> (#[trigger] outgoing_view(
                    outs@,
                )[k]).frame.typ != "sync_from_server_complete"@,
            outs@.len() >= ki,
            clients@ == old(clients)@,
        decreases order@.len() - ki,
    {
        let kind = order[ki];
        let w = watermark_of(data, kind);
        let frames = match replay_kind(store, kind, w, now) {
            Ok((frames, _new_w)) => frames,
            Err(_) => {
                proof {
                    assert(kind == EntityKind::Photo);
                    assert(store@.table(EntityKind::Photo) == store@.photos);
                }
                return Err(
                    SyncError::StorageError(
                        String::from_str("a stored payload could not be re-encoded"),
                    ),
                );
            },
        };
        let ghost seg = frames_view(frames@);
        let ghost base_frames = outgoing_frames(outgoing_view(outs@));
        let mut fi: usize = 0;
        let total = frames.len();
        while fi < total
            invariant
                fi <= total,
                total == frames@.len(),
                frames_view(frames@) == seg,
                replay_of(
                    store@.table(kind),
                    store@.junction,
                    kind,
                    spec_watermark(data@, kind),
                    seg,
                    now as int,
                ),
                outs@.len() >= base_frames.len(),
                outgoing_frames(outgoing_view(outs@)) == base_frames + seg.take(fi as int),
                forall|k: int|
                    0 <= k < outgoing_view(outs@).len()
                        ==> (#[trigger] outgoing_view(outs@)[k]).client_id == client_id@,
                forall|k: int|
                    0 <= k < outgoing_view(outs@).len() ==> (#[trigger] outgoing_view(
                        outs@,
                    )[k]).frame.typ != "sync_from_server_complete"@,
            decreases total - fi,
        {
            let ghost pre = outs@;
            let frame = frames[fi].dup();
            proof {
                lemma_frame_type_names();
                assert(frame@ == seg[fi as int]);
                assert(seg[fi as int].typ == kind_type(kind));
            }
            outs.push(Outgoing { client_id: client_id.to_owned(), frame });
            fi = fi + 1;
            proof {
                assert forall|k: int|
                    0 <= k < outgoing_view(outs@).len() implies (#[trigger] outgoing_view(
                    outs@,
                )[k]).client_id == client_id@ && outgoing_view(outs@)[k].frame.typ
                    != "sync_from_server_complete"@ by {
                    assert(outgoing_view(outs@)[k] == outs@[k]@);
                    if k < outgoing_view(outs@).len() - 1 {
                        assert(outs@[k] == pre[k]);
                        assert(outgoing_view(pre)[k] == pre[k]@);
                    }
                }
                let cur = outgoing_frames(outgoing_view(outs@));
                let prev = outgoing_frames(outgoing_view(pre));
                let want = base_frames + seg.take(fi as int);
                assert(cur =~= want) by {
                    assert(cur.len() == outs@.len());
                    assert(prev.len() == pre.len());
                    assert(want.len() == base_frames.len() + fi);
                    assert forall|k: int| 0 <= k < cur.len() implies #[trigger] cur[k] == want[k] by {
                        assert(cur[k] == outgoing_view(outs@)[k].frame);
                        assert(outgoing_view(outs@)[k] == outs@[k]@);
                        if k < pre.len() {
                            assert(outs@[k] == pre[k]);
                            assert(outgoing_view(pre)[k] == pre[k]@);
                            assert(prev[k] == outgoing_view(pre)[k].frame);
                            assert(prev[k] == (base_frames + seg.take(fi as int - 1))[k]);
                            if k >= base_frames.len() {
                                assert(seg.take(fi as int - 1)[k - base_frames.len()] == seg[k
                                    - base_frames.len()]);
                                assert(seg.take(fi as int)[k - base_frames.len()] == seg[k
                                    - base_frames.len()]);
                            }
                        } else {
                            assert(outs@[k]@.frame == seg[fi as int - 1]);
                            assert(seg.take(fi as int)[fi as int - 1] == seg[fi as int - 1]);
                        }
                    }
                }
            }
        }
        proof {
            broadcast use vstd::prelude::Seq::lemma_flatten_push;

            assert(seg.take(total as int) =~= seg);
            segs = segs.push(seg);
            assert(outgoing_frames(outgoing_view(outs@)) =~= segs.flatten());
            assert forall|sg: int|
                0 <= sg < segs.len() implies replay_of(
                store@.table(order@[sg]),
                store@.junction,
                order@[sg],
                spec_watermark(data@, order@[sg]),
                #[trigger] segs[sg],
                now as int,
            ) by {
                if sg < segs.len() - 1 {
                    assert(segs[sg] == segs.drop_last()[sg]);
                }
            }
        }
        ki = ki + 1;
    }

    match clients.mark_sync_completed(client_id) {
        Ok(()) => {},
        Err(_) => {},
    }
    let ghost pre_push = outs@;
    outs.push(
        Outgoing {
            client_id: client_id.to_owned(),
            frame: empty_frame("sync_from_server_complete", now),
        },
    );
    proof {
        assert forall|k: int|
            0 <= k < outgoing_view(outs@).len() implies (#[trigger] outgoing_view(outs@)[k]).client_id
            == client_id@ by {
            assert(outgoing_view(outs@)[k] == outs@[k]@);
            if k < outgoing_view(outs@).len() - 1 {
                assert(outs@[k] == pre_push[k]);
                assert(outgoing_view(pre_push)[k] == pre_push[k]@);
            }
        }
        assert forall|i: int|
            0 <= i < outgoing_view(outs@).len() - 1 implies (#[trigger] outgoing_view(
            outs@,
        )[i]).frame.typ != "sync_from_server_complete"@ by {
            assert(outgoing_view(outs@)[i] == outs@[i]@);
            assert(outs@[i] == pre_push[i]);
            assert(outgoing_view(pre_push)[i] == pre_push[i]@);
        }
        assert(outgoing_view(outs@).last() == outs@.last()@);
        lemma_segments_assemble(store@, data@, kind_order_spec(), segs, now as int);
        assert(outgoing_frames(outgoing_view(outs@)).take(outgoing_view(outs@).len() - 1)
            =~= outgoing_frames(outgoing_view(pre_push)));
        assert(segs.flatten().len() >= 7) by {
            lemma_flatten_min_len(segs);
        }
    }
    Ok(outs)
}

/// A flattening of non-empty sequences is at least as long as their count.
proof fn lemma_flatten_min_len(segs: Seq<Seq<FrameV>>)
    requires
        forall|sg: int| 0 <= sg < segs.len() ==> (#[trigger] segs[sg]).len() >= 1,
    ensures
        segs.flatten().len() >= segs.len(),
    decreases segs.len(),
{
    if segs.len() > 0 {
        assert(segs.flatten() == segs.first() + segs.drop_first().flatten());
        assert forall|sg: int|
            0 <= sg < segs.drop_first().len() implies (#[trigger] segs.drop_first()[sg]).len()
            >= 1 by {
            assert(segs.drop_first()[sg] == segs[sg + 1]);
        }
        lemma_flatten_min_len(segs.drop_first());
    }
}

/// Acknowledges a client's own upload: the single frame closing the
/// client-to-server direction.
pub fn handle_sync_complete(client_id: &str, now: i64) -> (r: Outgoing)
    ensures
        r@.client_id == client_id@,
        r@.frame.typ == "sync_to_server_complete"@,
        r@.frame.data == Seq::<crate::record::FieldV>::empty(),
        r@.frame.timestamp == now as int,
{
    Outgoing { client_id: client_id.to_owned(), frame: empty_frame("sync_to_server_complete", now) }
}

} // verus!
