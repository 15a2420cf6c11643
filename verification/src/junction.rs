//! The location–sawmill junction: a row per many-to-many edge.
//!
//! Each row links one location to one sawmill, tagged with whether the link
//! belongs to the oversize set. The junction is rewritten atomically whenever
//! a location is saved: every row of that location is dropped, then the two
//! incoming sets are inserted.

use vstd::prelude::*;

use crate::strutil::{contains_str, dedup_ids, str_eq, strs_view};

verus! {

/// One edge: a location, a sawmill, and which of the two sets it is in.
pub struct JunctionRow {
    pub location_id: String,
    pub sawmill_id: String,
    pub oversize: bool,
}

/// The mathematical value of a `JunctionRow`.
pub struct JunctionRowV {
    pub location_id: Seq<char>,
    pub sawmill_id: Seq<char>,
    pub oversize: bool,
}

impl View for JunctionRow {
    type V = JunctionRowV;

    open spec fn view(&self) -> JunctionRowV {
        JunctionRowV {
            location_id: self.location_id@,
            sawmill_id: self.sawmill_id@,
            oversize: self.oversize,
        }
    }
}

/// The views of the rows of a vector.
pub open spec fn junction_view(rows: Seq<JunctionRow>) -> Seq<JunctionRowV> {
    rows.map(|i: int, r: JunctionRow| r@)
}

/// Whether the junction holds the given edge.
pub open spec fn junction_has(
    rows: Seq<JunctionRowV>,
    location_id: Seq<char>,
    sawmill_id: Seq<char>,
    oversize: bool,
) -> bool {
    exists|i: int|
        0 <= i < rows.len() && rows[i] == (JunctionRowV {
            location_id: location_id,
            sawmill_id: sawmill_id,
            oversize: oversize,
        })
}

/// The sawmill ids linked to a location in one of the two sets, in table
/// order.
pub open spec fn links_of(rows: Seq<JunctionRowV>, location_id: Seq<char>, oversize: bool)
    -> Seq<Seq<char>>
    decreases rows.len(),
{
    if rows.len() == 0 {
        Seq::empty()
    } else {
        let rest = links_of(rows.drop_last(), location_id, oversize);
        if rows.last().location_id == location_id && rows.last().oversize == oversize {
            rest.push(rows.last().sawmill_id)
        } else {
            rest
        }
    }
}

/// How a location save rewrites the junction: afterwards, the location's
/// plain links are exactly `mills`, its oversize links exactly `over`, and
/// every other location's links are untouched.
pub open spec fn junction_rewrite(
    pre: Seq<JunctionRowV>,
    location_id: Seq<char>,
    mills: Seq<Seq<char>>,
    over: Seq<Seq<char>>,
    post: Seq<JunctionRowV>,
) -> bool {
    &&& forall|s: Seq<char>|
        junction_has(post, location_id, s, false) <==> contains_str(mills, s)
    &&& forall|s: Seq<char>|
        junction_has(post, location_id, s, true) <==> contains_str(over, s)
    &&& forall|l: Seq<char>, s: Seq<char>, o: bool|
        l != location_id ==> (junction_has(post, l, s, o) <==> junction_has(pre, l, s, o))
}

/// Well-formedness of the junction: the three columns are a composite key,
/// so no edge occurs twice. All library operations preserve this.
pub open spec fn junction_wf(rows: Seq<JunctionRowV>) -> bool {
    forall|i: int, j: int| 0 <= i < j < rows.len() ==> rows[i] != rows[j]
}

/// The rewrite's kept rows: each a row of the input, none of the location's,
/// and pairwise distinct if the input's rows were.
proof fn lemma_retain_props(rows: Seq<JunctionRowV>, loc: Seq<char>)
    ensures
        forall|i: int|
            0 <= i < retain_other(rows, loc).len() ==> (#[trigger] retain_other(
                rows,
                loc,
            )[i]).location_id != loc,
        forall|i: int|
            0 <= i < retain_other(rows, loc).len() ==> rows.contains(
                #[trigger] retain_other(rows, loc)[i],
            ),
        junction_wf(rows) ==> junction_wf(retain_other(rows, loc)),
    decreases rows.len(),
{
    if rows.len() > 0 {
        let rest = rows.drop_last();
        lemma_retain_props(rest, loc);
        let kept = retain_other(rows, loc);
        let kept0 = retain_other(rest, loc);
        assert forall|i: int| 0 <= i < kept0.len() implies rows.contains(#[trigger] kept0[i]) by {
            assert(rest.contains(kept0[i]));
            let j = choose|j: int| 0 <= j < rest.len() && rest[j] == kept0[i];
            assert(rows[j] == kept0[i]);
        }
        if rows.last().location_id != loc {
            assert(kept =~= kept0.push(rows.last()));
            assert(rows.contains(rows.last())) by {
                assert(rows[rows.len() - 1] == rows.last());
            }
            if junction_wf(rows) {
                assert(junction_wf(rest)) by {
                    assert forall|p: int, q: int|
                        0 <= p < q < rest.len() implies rest[p] != rest[q] by {
                        assert(rows[p] != rows[q]);
                    }
                }
                assert forall|p: int, q: int| 0 <= p < q < kept.len() implies kept[p] != kept[q] by {
                    if q < kept.len() - 1 {
                        assert(kept[p] == kept0[p] && kept[q] == kept0[q]);
                    } else {
                        assert(kept[p] == kept0[p]);
                        assert(rest.contains(kept0[p]));
                        let j = choose|j: int| 0 <= j < rest.len() && rest[j] == kept0[p];
                        assert(rows[j] == kept0[p]);
                        assert(rows[j] != rows[rows.len() - 1]);
                    }
                }
            }
        } else {
            if junction_wf(rows) {
                assert(junction_wf(rest)) by {
                    assert forall|p: int, q: int|
                        0 <= p < q < rest.len() implies rest[p] != rest[q] by {
                        assert(rows[p] != rows[q]);
                    }
                }
            }
        }
    }
}

/// The junction table.
pub struct Junction {
    rows: Vec<JunctionRow>,
}

impl View for Junction {
    type V = Seq<JunctionRowV>;

    closed spec fn view(&self) -> Seq<JunctionRowV> {
        junction_view(self.rows@)
    }
}

impl Junction {
    /// The empty junction.
    pub fn new() -> (j: Junction)
        ensures
            j@ == Seq::<JunctionRowV>::empty(),
    {
        let j = Junction { rows: Vec::new() };
        proof {
            assert(j@ =~= Seq::<JunctionRowV>::empty());
        }
        j
    }

    /// The number of edges.
    pub fn len(&self) -> (n: usize)
        ensures
            n == self@.len(),
    {
        self.rows.len()
    }

    /// Whether the junction holds the given edge.
    pub fn has_link(&self, location_id: &str, sawmill_id: &str, oversize: bool) -> (r: bool)
        ensures
            r == junction_has(self@, location_id@, sawmill_id@, oversize),
    {
        let n = self.rows.len();
        let mut i: usize = 0;
        while i < n
            invariant
                i <= n,
                forall|j: int|
                    0 <= j < i ==> self@[j] != (JunctionRowV {
                        location_id: location_id@,
                        sawmill_id: sawmill_id@,
                        oversize: oversize,
                    }),
            decreases n - i,
        {
            if str_eq(self.rows[i].location_id.as_str(), location_id)
                && str_eq(self.rows[i].sawmill_id.as_str(), sawmill_id)
                && self.rows[i].oversize == oversize {
                proof {
                    assert(self@[i as int] == JunctionRowV {
                        location_id: location_id@,
                        sawmill_id: sawmill_id@,
                        oversize: oversize,
                    });
                }
                return true;
            }
            i = i + 1;
        }
        false
    }

    /// The sawmill ids linked to a location in one of the two sets.
    pub fn links_for(&self, location_id: &str, oversize: bool) -> (r: Vec<String>)
        ensures
            strs_view(r@) == links_of(self@, location_id@, oversize),
    {
        let n = self.rows.len();
        let mut out: Vec<String> = Vec::new();
        let mut i: usize = 0;
        proof {
            assert(self@.take(0) =~= Seq::<JunctionRowV>::empty());
            assert(strs_view(out@) =~= links_of(self@.take(0), location_id@, oversize));
        }
        while i < n
            invariant
                i <= n,
                strs_view(out@) == links_of(self@.take(i as int), location_id@, oversize),
            decreases n - i,
        {
            proof {
                assert(self@.take(i as int + 1).drop_last() =~= self@.take(i as int));
                assert(self@.take(i as int + 1).last() == self@[i as int]);
            }
            if str_eq(self.rows[i].location_id.as_str(), location_id)
                && self.rows[i].oversize == oversize {
                out.push(self.rows[i].sawmill_id.clone());
                proof {
                    assert(strs_view(out@) =~= links_of(
                        self@.take(i as int + 1),
                        location_id@,
                        oversize,
                    ));
                }
            }
            i = i + 1;
        }
        proof {
            assert(self@.take(n as int) =~= self@);
        }
        out
    }

    /// Drops every edge of one location, then links it to exactly the two
    /// given sets: `mills` as the plain set, `over` as the oversize set. A
    /// repeated id inserts one edge, as the composite key demands.
    pub fn set_links(
        &mut self,
        location_id: &str,
        mills: &Vec<String>,
        over: &Vec<String>,
    )
        requires
            junction_wf(old(self)@),
        ensures
            junction_wf(final(self)@),
            junction_rewrite(old(self)@, location_id@, strs_view(mills@), strs_view(over@), final(self)@),
    {
        let mills = dedup_ids(mills);
        let over = dedup_ids(over);
        let ghost pre = self@;
        let n = self.rows.len();
        let mut kept: Vec<JunctionRow> = Vec::new();
        let mut i: usize = 0;
        proof {
            assert(pre.take(0) =~= Seq::<JunctionRowV>::empty());
            assert(junction_view(kept@) =~= retain_other(pre.take(0), location_id@));
        }
        while i < n
            invariant
                i <= n,
                n == self.rows.len(),
                self@ == pre,
                junction_view(kept@) == retain_other(pre.take(i as int), location_id@),
            decreases n - i,
        {
            proof {
                assert(pre.take(i as int + 1).drop_last() =~= pre.take(i as int));
                assert(pre.take(i as int + 1).last() == pre[i as int]);
            }
            if !str_eq(self.rows[i].location_id.as_str(), location_id) {
                kept.push(self.rows[i].dup_row());
            }
            i = i + 1;
            proof {
                assert(junction_view(kept@) =~= retain_other(pre.take(i as int), location_id@));
            }
        }
        proof {
            assert(pre.take(n as int) =~= pre);
        }
        self.rows = kept;
        let ghost base = self@;

        let mut k: usize = 0;
        proof {
            assert(self@ =~= base + edges_of(location_id@, strs_view(mills@).take(0), false));
        }
        while k < mills.len()
            invariant
                k <= mills.len(),
                self@ == base + edges_of(location_id@, strs_view(mills@).take(k as int), false),
            decreases mills.len() - k,
        {
            self.rows.push(
                JunctionRow {
                    location_id: location_id.to_owned(),
                    sawmill_id: mills[k].clone(),
                    oversize: false,
                },
            );
            k = k + 1;
            proof {
                let gk = k as int;
                let ids = strs_view(mills@);
                lemma_edges_take_step(location_id@, ids, gk, false);
                assert(self@ =~= (base + edges_of(location_id@, ids.take(gk - 1), false)).push(
                    JunctionRowV {
                        location_id: location_id@,
                        sawmill_id: ids[gk - 1],
                        oversize: false,
                    },
                ));
                assert(base + edges_of(location_id@, ids.take(gk), false) =~= (base + edges_of(
                    location_id@,
                    ids.take(gk - 1),
                    false,
                )).push(
                    JunctionRowV {
                        location_id: location_id@,
                        sawmill_id: ids[gk - 1],
                        oversize: false,
                    },
                ));
            }
        }
        proof {
            assert(strs_view(mills@).take(mills@.len() as int) =~= strs_view(mills@));
        }
        let ghost mid = self@;

        let mut k2: usize = 0;
        proof {
            assert(self@ =~= mid + edges_of(location_id@, strs_view(over@).take(0), true));
        }
        while k2 < over.len()
            invariant
                k2 <= over.len(),
                self@ == mid + edges_of(location_id@, strs_view(over@).take(k2 as int), true),
            decreases over.len() - k2,
        {
            self.rows.push(
                JunctionRow {
                    location_id: location_id.to_owned(),
                    sawmill_id: over[k2].clone(),
                    oversize: true,
                },
            );
            k2 = k2 + 1;
            proof {
                let gk = k2 as int;
                let ids = strs_view(over@);
                lemma_edges_take_step(location_id@, ids, gk, true);
                assert(self@ =~= (mid + edges_of(location_id@, ids.take(gk - 1), true)).push(
                    JunctionRowV {
                        location_id: location_id@,
                        sawmill_id: ids[gk - 1],
                        oversize: true,
                    },
                ));
                assert(mid + edges_of(location_id@, ids.take(gk), true) =~= (mid + edges_of(
                    location_id@,
                    ids.take(gk - 1),
                    true,
                )).push(
                    JunctionRowV {
                        location_id: location_id@,
                        sawmill_id: ids[gk - 1],
                        oversize: true,
                    },
                ));
            }
        }
        proof {
            assert(strs_view(over@).take(over@.len() as int) =~= strs_view(over@));
            let m_edges = edges_of(location_id@, strs_view(mills@), false);
            let o_edges = edges_of(location_id@, strs_view(over@), true);
            assert(self@ =~= base + m_edges + o_edges);
            assert forall|l: Seq<char>, s: Seq<char>, o: bool|
                junction_has(self@, l, s, o) <==> (junction_has(base, l, s, o) || (l
                    == location_id@ && o == false && contains_str(strs_view(mills@), s)) || (l
                    == location_id@ && o == true && contains_str(strs_view(over@), s))) by {
                lemma_has_append(base + m_edges, o_edges, l, s, o);
                lemma_has_append(base, m_edges, l, s, o);
                lemma_has_edges(location_id@, strs_view(mills@), false, l, s, o);
                lemma_has_edges(location_id@, strs_view(over@), true, l, s, o);
            }
            assert forall|l: Seq<char>, s: Seq<char>, o: bool|
                junction_has(base, l, s, o) <==> (l != location_id@ && junction_has(pre, l, s, o))
                by {
                lemma_retain_other(pre, location_id@, l, s, o);
            }
            assert forall|s2: Seq<char>|
                junction_has(self@, location_id@, s2, false) <==> contains_str(
                    strs_view(mills@),
                    s2,
                ) by {
                assert(!junction_has(base, location_id@, s2, false));
            }
            assert forall|s2: Seq<char>|
                junction_has(self@, location_id@, s2, true) <==> contains_str(
                    strs_view(over@),
                    s2,
                ) by {
                assert(!junction_has(base, location_id@, s2, true));
            }
            assert forall|l: Seq<char>, s2: Seq<char>, o: bool|
                l != location_id@ implies (junction_has(self@, l, s2, o) <==> junction_has(
                    pre,
                    l,
                    s2,
                    o,
                )) by {
                assert(junction_has(self@, l, s2, o) <==> (junction_has(base, l, s2, o) || (l
                    == location_id@ && o == false && contains_str(strs_view(mills@), s2)) || (l
                    == location_id@ && o == true && contains_str(strs_view(over@), s2))));
            }
            lemma_retain_props(pre, location_id@);
            assert(junction_wf(self@)) by {
                let m_len = edges_of(location_id@, strs_view(mills@), false).len();
                assert forall|p: int, q: int| 0 <= p < q < self@.len() implies self@[p]
                    != self@[q] by {
                    let m_edges = edges_of(location_id@, strs_view(mills@), false);
                    let o_edges = edges_of(location_id@, strs_view(over@), true);
                    if p < base.len() {
                        if q < base.len() {
                            assert(base[p] != base[q]);
                        } else {
                            assert(base[p].location_id != location_id@);
                        }
                    } else if p < base.len() + m_edges.len() {
                        if q < base.len() + m_edges.len() {
                            assert(self@[p] == m_edges[p - base.len()]);
                            assert(self@[q] == m_edges[q - base.len()]);
                            assert(strs_view(mills@)[p - base.len()] != strs_view(mills@)[q
                                - base.len()]);
                        } else {
                            assert(self@[p].oversize == false && self@[q].oversize == true);
                        }
                    } else {
                        assert(self@[p] == o_edges[p - base.len() - m_edges.len()]);
                        assert(self@[q] == o_edges[q - base.len() - m_edges.len()]);
                        assert(strs_view(over@)[p - base.len() - m_edges.len()] != strs_view(
                            over@,
                        )[q - base.len() - m_edges.len()]);
                    }
                }
            }
        }
    }
}

/// The junction with every edge of one location dropped.
pub open spec fn retain_other(rows: Seq<JunctionRowV>, location_id: Seq<char>)
    -> Seq<JunctionRowV>
    decreases rows.len(),
{
    if rows.len() == 0 {
        Seq::empty()
    } else {
        let rest = retain_other(rows.drop_last(), location_id);
        if rows.last().location_id == location_id {
            rest
        } else {
            rest.push(rows.last())
        }
    }
}

/// The edge rows linking one location to each id of a list.
pub open spec fn edges_of(location_id: Seq<char>, ids: Seq<Seq<char>>, oversize: bool)
    -> Seq<JunctionRowV>
{
    ids.map(
        |i: int, s: Seq<char>| JunctionRowV {
            location_id: location_id,
            sawmill_id: s,
            oversize: oversize,
        },
    )
}

/// Taking one more id appends one more edge.
proof fn lemma_edges_take_step(location_id: Seq<char>, ids: Seq<Seq<char>>, k: int, o_ins: bool)
    requires
        0 < k <= ids.len(),
    ensures
        edges_of(location_id, ids.take(k), o_ins) == edges_of(location_id, ids.take(k - 1), o_ins)
            .push(JunctionRowV { location_id: location_id, sawmill_id: ids[k - 1], oversize: o_ins }),
{
    let lhs = edges_of(location_id, ids.take(k), o_ins);
    let rhs = edges_of(location_id, ids.take(k - 1), o_ins).push(
        JunctionRowV { location_id: location_id, sawmill_id: ids[k - 1], oversize: o_ins },
    );
    assert(lhs.len() == rhs.len());
    assert forall|j: int| 0 <= j < lhs.len() implies lhs[j] == rhs[j] by {
        assert(ids.take(k)[j] == ids[j]);
        if j < k - 1 {
            assert(ids.take(k - 1)[j] == ids[j]);
        }
    }
    assert(lhs =~= rhs);
}

/// Membership in a concatenation.
proof fn lemma_has_append(a: Seq<JunctionRowV>, b: Seq<JunctionRowV>, l: Seq<char>, s: Seq<char>, o: bool)
    ensures
        junction_has(a + b, l, s, o) <==> (junction_has(a, l, s, o) || junction_has(b, l, s, o)),
{
    let edge = JunctionRowV { location_id: l, sawmill_id: s, oversize: o };
    if junction_has(a + b, l, s, o) {
        let i = choose|i: int| 0 <= i < (a + b).len() && (a + b)[i] == edge;
        if i < a.len() {
            assert(a[i] == edge);
        } else {
            assert(b[i - a.len()] == edge);
        }
    }
    if junction_has(a, l, s, o) {
        let i = choose|i: int| 0 <= i < a.len() && a[i] == edge;
        assert((a + b)[i] == edge);
    }
    if junction_has(b, l, s, o) {
        let i = choose|i: int| 0 <= i < b.len() && b[i] == edge;
        assert((a + b)[a.len() + i] == edge);
    }
}

/// Membership among the edges built from a list of sawmill ids.
proof fn lemma_has_edges(
    location_id: Seq<char>,
    ids: Seq<Seq<char>>,
    o_ins: bool,
    l: Seq<char>,
    s: Seq<char>,
    o: bool,
)
    ensures
        junction_has(edges_of(location_id, ids, o_ins), l, s, o) <==> (l == location_id && o
            == o_ins && contains_str(ids, s)),
{
    let rows = edges_of(location_id, ids, o_ins);
    let edge = JunctionRowV { location_id: l, sawmill_id: s, oversize: o };
    if junction_has(rows, l, s, o) {
        let i = choose|i: int| 0 <= i < rows.len() && rows[i] == edge;
        assert(ids[i] == s);
    }
    if l == location_id && o == o_ins && contains_str(ids, s) {
        let i = choose|i: int| 0 <= i < ids.len() && ids[i] == s;
        assert(rows[i] == edge);
    }
}

/// Dropping one location's edges keeps exactly the other locations' edges.
proof fn lemma_retain_other(
    rows: Seq<JunctionRowV>,
    location_id: Seq<char>,
    l: Seq<char>,
    s: Seq<char>,
    o: bool,
)
    ensures
        junction_has(retain_other(rows, location_id), l, s, o) <==> (l != location_id
            && junction_has(rows, l, s, o)),
    decreases rows.len(),
{
    let edge = JunctionRowV { location_id: l, sawmill_id: s, oversize: o };
    if rows.len() > 0 {
        let rest = rows.drop_last();
        lemma_retain_other(rest, location_id, l, s, o);
        let kept = retain_other(rows, location_id);
        let kept0 = retain_other(rest, location_id);
        if rows.last().location_id == location_id {
            assert(junction_has(rows, l, s, o) && l != location_id ==> junction_has(rest, l, s, o))
                by {
                if junction_has(rows, l, s, o) && l != location_id {
                    let i = choose|i: int| 0 <= i < rows.len() && rows[i] == edge;
                    assert(rest[i] == edge);
                }
            }
            assert(junction_has(rest, l, s, o) ==> junction_has(rows, l, s, o)) by {
                if junction_has(rest, l, s, o) {
                    let i = choose|i: int| 0 <= i < rest.len() && rest[i] == edge;
                    assert(rows[i] == edge);
                }
            }
        } else {
            lemma_has_push(kept0, rows.last(), l, s, o);
            assert(kept =~= kept0.push(rows.last()));
            assert(junction_has(rows, l, s, o) <==> (junction_has(rest, l, s, o) || rows.last()
                == edge)) by {
                if junction_has(rows, l, s, o) {
                    let i = choose|i: int| 0 <= i < rows.len() && rows[i] == edge;
                    if i < rows.len() - 1 {
                        assert(rest[i] == edge);
                    }
                }
                if junction_has(rest, l, s, o) {
                    let i = choose|i: int| 0 <= i < rest.len() && rest[i] == edge;
                    assert(rows[i] == edge);
                }
            }
        }
    }
}

impl JunctionRow {

    /// An exact copy of the edge.
    fn dup_row(&self) -> (r: JunctionRow)
        ensures
            r@ == self@,
    {
        JunctionRow {
            location_id: self.location_id.clone(),
            sawmill_id: self.sawmill_id.clone(),
            oversize: self.oversize,
        }
    }
}

/// How membership changes when one edge is appended.
proof fn lemma_has_push(
    rows: Seq<JunctionRowV>,
    cur: JunctionRowV,
    l: Seq<char>,
    s: Seq<char>,
    o: bool,
)
    ensures
        junction_has(rows.push(cur), l, s, o) <==> (junction_has(rows, l, s, o) || cur
            == (JunctionRowV { location_id: l, sawmill_id: s, oversize: o })),
{
    let edge = JunctionRowV { location_id: l, sawmill_id: s, oversize: o };
    let pushed = rows.push(cur);
    if junction_has(pushed, l, s, o) {
        let i = choose|i: int| 0 <= i < pushed.len() && pushed[i] == edge;
        if i < rows.len() {
            assert(rows[i] == edge);
        }
    }
    if junction_has(rows, l, s, o) {
        let i = choose|i: int| 0 <= i < rows.len() && rows[i] == edge;
        assert(pushed[i] == edge);
    }
    if cur == edge {
        assert(pushed[rows.len() as int] == edge);
    }
}

} // verus!
