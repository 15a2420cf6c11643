//! The invariants of the merge and delta machinery, stated on their own.
//!
//! These hold of the transition relations that the row store's operations
//! are proved against, so they hold of every table the library ever builds.

use vstd::prelude::*;

use crate::junction::{junction_has, links_of, JunctionRowV};
use crate::record::{rec_get, rec_has};
use crate::strutil::contains_str;
use crate::table::{
    delete_step, filter_delta, has_id, idx_of, inserted_row, lemma_filter_contains, lemma_idx_of,
    lemma_idx_of_exact, row_of, write_step, MutationV, RowV, WriteOutcome,
};

verus! {

/// Monotone delta: raising the watermark never surfaces a new row — the
/// rows qualifying at a later watermark are among those qualifying at any
/// earlier one.
pub proof fn lemma_delta_monotone(rows: Seq<RowV>, w1: int, w2: int)
    requires
        w1 <= w2,
    ensures
        forall|x: RowV|
            #[trigger] filter_delta(rows, w2).contains(x) ==> filter_delta(rows, w1).contains(x),
{
    assert forall|x: RowV|
        #[trigger] filter_delta(rows, w2).contains(x) implies filter_delta(rows, w1).contains(
        x,
    ) by {
        lemma_filter_contains(rows, w2, x);
        lemma_filter_contains(rows, w1, x);
    }
}

/// Completeness of the delta query: a row that arrived after the watermark
/// qualifies.
pub proof fn lemma_delta_complete(rows: Seq<RowV>, w: int, j: int)
    requires
        0 <= j < rows.len(),
        rows[j].arrival > w,
    ensures
        filter_delta(rows, w).contains(rows[j]),
{
    lemma_filter_contains(rows, w, rows[j]);
}

/// Junction consistency, read side: a sawmill id is among the links
/// reported for a location exactly when the junction holds the
/// corresponding edge. Which links a location has after a save is pinned by
/// the save's own contract.
pub proof fn lemma_junction_links(
    rows: Seq<JunctionRowV>,
    location_id: Seq<char>,
    oversize: bool,
    sawmill_id: Seq<char>,
)
    ensures
        contains_str(links_of(rows, location_id, oversize), sawmill_id) <==> junction_has(
            rows,
            location_id,
            sawmill_id,
            oversize,
        ),
    decreases rows.len(),
{
    if rows.len() > 0 {
        let rest = rows.drop_last();
        lemma_junction_links(rest, location_id, oversize, sawmill_id);
        let ls = links_of(rows, location_id, oversize);
        let ls0 = links_of(rest, location_id, oversize);
        let edge = JunctionRowV {
            location_id: location_id,
            sawmill_id: sawmill_id,
            oversize: oversize,
        };
        if junction_has(rows, location_id, sawmill_id, oversize) {
            let i = choose|i: int| 0 <= i < rows.len() && rows[i] == edge;
            if i < rows.len() - 1 {
                assert(rest[i] == edge);
                assert(junction_has(rest, location_id, sawmill_id, oversize));
                if rows.last().location_id == location_id && rows.last().oversize == oversize {
                    let k = choose|k: int| 0 <= k < ls0.len() && ls0[k] == sawmill_id;
                    assert(ls[k] == sawmill_id);
                } else {
                    assert(ls == ls0);
                }
            } else {
                assert(rows.last() == edge);
                assert(ls.last() == sawmill_id);
            }
        }
        if contains_str(ls, sawmill_id) {
            let k = choose|k: int| 0 <= k < ls.len() && ls[k] == sawmill_id;
            if rows.last().location_id == location_id && rows.last().oversize == oversize {
                if k < ls.len() - 1 {
                    assert(ls0[k] == sawmill_id);
                    assert(contains_str(ls0, sawmill_id));
                    let i = choose|i: int| 0 <= i < rest.len() && rest[i] == edge;
                    assert(rows[i] == edge);
                } else {
                    assert(rows[rows.len() - 1] == edge);
                }
            } else {
                assert(ls0[k] == sawmill_id);
                let i = choose|i: int| 0 <= i < rest.len() && rest[i] == edge;
                assert(rows[i] == edge);
            }
        }
    }
}

/// Tombstone terminality: once a row is marked deleted, any later write
/// under its id is discarded and changes nothing.
pub proof fn lemma_tombstone_terminal(
    pre: Seq<RowV>,
    id: Seq<char>,
    t1: int,
    mid: Seq<RowV>,
    found: bool,
    m: MutationV,
    t2: int,
    post: Seq<RowV>,
    r: WriteOutcome,
)
    requires
        has_id(pre, id),
        delete_step(pre, id, t1, mid, found),
        m.id == id,
        write_step(mid, m, t2, post, r),
    ensures
        r == WriteOutcome::Skipped,
        post == mid,
{
    let i = idx_of(pre, id);
    lemma_idx_of(pre, id);
    assert(mid[i].id == id);
    assert(mid[i].deleted);
    assert forall|j: int| 0 <= j < i implies mid[j].id != id by {
        assert(mid[j] == pre[j]);
    }
    lemma_idx_of_exact(mid, id, i);
    match r {
        WriteOutcome::Inserted => {
            assert(false);
        },
        WriteOutcome::Updated => {
            assert(!mid[idx_of(mid, m.id)].deleted);
            assert(false);
        },
        WriteOutcome::Skipped => {},
    }
}

/// Last writer wins: two writes under one id, the second strictly newer,
/// leave the newer write's edit time and column values in the stored row —
/// whichever order they arrive in. The arrival stamp is the one assigned
/// when the newer write was applied.
///
/// The table must start without the id, or with a live row older than both
/// writes.
pub proof fn lemma_last_writer_wins(
    pre: Seq<RowV>,
    m1: MutationV,
    m2: MutationV,
    ta1: int,
    ta2: int,
    mid_a: Seq<RowV>,
    post_a: Seq<RowV>,
    ra1: WriteOutcome,
    ra2: WriteOutcome,
    tb1: int,
    tb2: int,
    mid_b: Seq<RowV>,
    post_b: Seq<RowV>,
    rb1: WriteOutcome,
    rb2: WriteOutcome,
)
    requires
        m1.id == m2.id,
        m1.last_edit < m2.last_edit,
        !has_id(pre, m1.id) || (!row_of(pre, m1.id).deleted && row_of(pre, m1.id).last_edit
            < m1.last_edit),
        // one order: the older write first
        write_step(pre, m1, ta1, mid_a, ra1),
        write_step(mid_a, m2, ta2, post_a, ra2),
        // the other order: the newer write first
        write_step(pre, m2, tb1, mid_b, rb1),
        write_step(mid_b, m1, tb2, post_b, rb2),
    ensures
        has_id(post_a, m2.id),
        has_id(post_b, m2.id),
        row_of(post_a, m2.id).last_edit == m2.last_edit,
        row_of(post_b, m2.id).last_edit == m2.last_edit,
        row_of(post_a, m2.id).arrival == ta2,
        row_of(post_b, m2.id).arrival == tb1,
        !row_of(post_a, m2.id).deleted,
        !row_of(post_b, m2.id).deleted,
        forall|n: Seq<char>|
            rec_has(m2.data, n) ==> rec_get(#[trigger] row_of(post_a, m2.id).data, n) == rec_get(
                m2.data,
                n,
            ),
        forall|n: Seq<char>|
            rec_has(m2.data, n) ==> rec_get(#[trigger] row_of(post_b, m2.id).data, n) == rec_get(
                m2.data,
                n,
            ),
        // the replayed older write is discarded outright
        rb2 == WriteOutcome::Skipped,
        post_b == mid_b,
{
    let id = m1.id;
    lemma_idx_of(pre, id);

    // the older write first: it lands, then the newer write overwrites it
    let ia = lemma_one_write(pre, m1, ta1, mid_a, ra1);
    assert(mid_a[ia].last_edit == m1.last_edit);
    assert(!mid_a[ia].deleted);
    let ia2 = lemma_one_write(mid_a, m2, ta2, post_a, ra2);
    assert(ra2 == WriteOutcome::Updated);
    assert(row_of(post_a, id).last_edit == m2.last_edit);

    // the newer write first: it lands, then the older write is skipped
    let ib = lemma_one_write(pre, m2, tb1, mid_b, rb1);
    assert(mid_b[ib].last_edit == m2.last_edit);
    lemma_idx_of(mid_b, id);
    match rb2 {
        WriteOutcome::Inserted => {
            assert(false);
        },
        WriteOutcome::Updated => {
            assert(m1.last_edit > mid_b[idx_of(mid_b, id)].last_edit);
            assert(false);
        },
        WriteOutcome::Skipped => {},
    }
}

/// One write under an id that is absent or live-and-older lands: afterwards
/// the id is bound to a live row carrying the write's edit time, arrival
/// stamp, and column values.
proof fn lemma_one_write(
    pre: Seq<RowV>,
    m: MutationV,
    now: int,
    post: Seq<RowV>,
    r: WriteOutcome,
) -> (i: int)
    requires
        !has_id(pre, m.id) || (!row_of(pre, m.id).deleted && row_of(pre, m.id).last_edit
            < m.last_edit),
        write_step(pre, m, now, post, r),
    ensures
        0 <= i < post.len(),
        i == idx_of(post, m.id),
        has_id(post, m.id),
        post[i].id == m.id,
        post[i].last_edit == m.last_edit,
        post[i].arrival == now,
        !post[i].deleted,
        forall|n: Seq<char>|
            rec_has(m.data, n) ==> rec_get(#[trigger] post[i].data, n) == rec_get(m.data, n),
{
    lemma_idx_of(pre, m.id);
    match r {
        WriteOutcome::Inserted => {
            let i = pre.len() as int;
            assert(post[i] == inserted_row(m, now));
            assert forall|j: int| 0 <= j < i implies post[j].id != m.id by {
                assert(post[j] == pre[j]);
            }
            lemma_idx_of_exact(post, m.id, i);
            i
        },
        WriteOutcome::Updated => {
            let i = idx_of(pre, m.id);
            assert forall|j: int| 0 <= j < i implies post[j].id != m.id by {
                assert(post[j] == pre[j]);
            }
            lemma_idx_of_exact(post, m.id, i);
            i
        },
        WriteOutcome::Skipped => {
            assert(false);
            0
        },
    }
}

} // verus!
