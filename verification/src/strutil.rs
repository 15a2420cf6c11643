//! Small string helpers shared across the crate.

use vstd::prelude::*;

verus! {

/// Whether two string slices hold the same characters.
pub fn str_eq(a: &str, b: &str) -> (r: bool)
    ensures
        r == (a@ == b@),
{
    let sa = a.to_owned();
    let sb = b.to_owned();
    sa == sb
}

/// The characters of each string in a sequence.
pub open spec fn strs_view(a: Seq<String>) -> Seq<Seq<char>> {
    a.map(|i: int, s: String| s@)
}

/// Whether a character sequence occurs among the views of a string vector.
pub open spec fn contains_str(a: Seq<Seq<char>>, s: Seq<char>) -> bool {
    exists|i: int| 0 <= i < a.len() && a[i] == s
}

/// An exact copy of a string vector.
pub fn dup_strings(a: &Vec<String>) -> (r: Vec<String>)
    ensures
        strs_view(r@) == strs_view(a@),
        r@.len() == a@.len(),
{
    let mut copy: Vec<String> = Vec::new();
    let mut i: usize = 0;
    while i < a.len()
        invariant
            i <= a.len(),
            strs_view(copy@) == strs_view(a@).take(i as int),
        decreases a.len() - i,
    {
        copy.push(a[i].clone());
        i = i + 1;
        proof {
            assert(strs_view(copy@) =~= strs_view(a@).take(i as int));
        }
    }
    proof {
        assert(strs_view(copy@) =~= strs_view(a@));
        assert(strs_view(a@).len() == a@.len());
    }
    copy
}


/// Whether a string vector holds a string with these characters.
pub fn holds_str(v: &Vec<String>, s: &str) -> (r: bool)
    ensures
        r == contains_str(strs_view(v@), s@),
{
    let n = v.len();
    let mut i: usize = 0;
    while i < n
        invariant
            i <= n,
            n == v@.len(),
            forall|j: int| 0 <= j < i ==> strs_view(v@)[j] != s@,
        decreases n - i,
    {
        if str_eq(v[i].as_str(), s) {
            proof {
                assert(strs_view(v@)[i as int] == s@);
            }
            return true;
        }
        i = i + 1;
    }
    false
}

/// The distinct strings of a vector, first occurrences kept, in order.
pub fn dedup_ids(a: &Vec<String>) -> (r: Vec<String>)
    ensures
        forall|i: int, j: int|
            0 <= i < j < strs_view(r@).len() ==> strs_view(r@)[i] != strs_view(r@)[j],
        forall|s: Seq<char>| contains_str(strs_view(r@), s) <==> contains_str(strs_view(a@), s),
{
    let n = a.len();
    let mut out: Vec<String> = Vec::new();
    let mut i: usize = 0;
    proof {
        assert(strs_view(a@).take(0) =~= Seq::<Seq<char>>::empty());
    }
    while i < n
        invariant
            i <= n,
            n == a@.len(),
            forall|p: int, q: int|
                0 <= p < q < strs_view(out@).len() ==> strs_view(out@)[p] != strs_view(out@)[q],
            forall|s: Seq<char>|
                contains_str(strs_view(out@), s) <==> contains_str(strs_view(a@).take(i as int), s),
        decreases n - i,
    {
        let ghost pre = strs_view(out@);
        let seen = holds_str(&out, a[i].as_str());
        proof {
            assert(seen == contains_str(pre, strs_view(a@)[i as int]));
        }
        if !seen {
            out.push(a[i].clone());
            proof {
                assert(strs_view(out@) =~= pre.push(strs_view(a@)[i as int]));
                assert forall|p: int, q: int|
                    0 <= p < q < strs_view(out@).len() implies strs_view(out@)[p] != strs_view(
                    out@,
                )[q] by {
                    if q < strs_view(out@).len() - 1 {
                        assert(strs_view(out@)[p] == pre[p]);
                        assert(strs_view(out@)[q] == pre[q]);
                    } else {
                        assert(strs_view(out@)[p] == pre[p]);
                        assert(contains_str(pre, pre[p]));
                    }
                }
            }
        }
        i = i + 1;
        proof {
            let av = strs_view(a@);
            let cur = strs_view(out@);
            assert forall|s: Seq<char>|
                contains_str(cur, s) <==> contains_str(av.take(i as int), s) by {
                if contains_str(av.take(i as int), s) {
                    let m = choose|m: int| 0 <= m < i && #[trigger] av.take(i as int)[m] == s;
                    if m < i - 1 {
                        assert(av.take(i as int - 1)[m] == s);
                        assert(contains_str(pre, s));
                        let p = choose|p: int| 0 <= p < pre.len() && #[trigger] pre[p] == s;
                        assert(cur[p] == s);
                    } else {
                        assert(s == av[i as int - 1]);
                        if seen {
                            let p = choose|p: int| 0 <= p < pre.len() && #[trigger] pre[p] == s;
                            assert(cur[p] == s);
                        } else {
                            assert(cur.last() == s);
                        }
                    }
                }
                if contains_str(cur, s) {
                    let p = choose|p: int| 0 <= p < cur.len() && #[trigger] cur[p] == s;
                    if p < pre.len() {
                        assert(pre[p] == s);
                        assert(contains_str(pre, s));
                        let m = choose|m: int|
                            0 <= m < i - 1 && #[trigger] av.take(i as int - 1)[m] == s;
                        assert(av.take(i as int)[m] == s);
                    } else {
                        assert(s == av[i as int - 1]);
                        assert(av.take(i as int)[i as int - 1] == s);
                    }
                }
            }
        }
    }
    proof {
        assert(strs_view(a@).take(n as int) =~= strs_view(a@));
    }
    out
}

} // verus!
