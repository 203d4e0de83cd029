//! The ranked report: the most frequent extensions, most frequent first.
use vstd::prelude::*;

use crate::tally::{entries_view, RankedEntry, Tally};

verus! {

/// The most entries a report holds.
pub const REPORT_LIMIT: usize = 100;

/// `r` holds pairs of `t`, each key at most once.
pub open spec fn drawn_from(r: Seq<(Seq<char>, nat)>, t: Map<Seq<char>, nat>) -> bool {
    &&& forall|i: int| 0 <= i < r.len() ==> #[trigger] t.contains_key(r[i].0) && t[r[i].0] == r[i].1
    &&& forall|i: int, j: int| 0 <= i < j < r.len() ==> #[trigger] r[i].0 != #[trigger] r[j].0
}

/// Counts never grow from one entry to the next.
pub open spec fn non_increasing(r: Seq<(Seq<char>, nat)>) -> bool {
    forall|i: int, j: int| 0 <= i < j < r.len() ==> #[trigger] r[i].1 >= #[trigger] r[j].1
}

/// `k` is the key of some entry of `r`.
pub open spec fn has_key(r: Seq<(Seq<char>, nat)>, k: Seq<char>) -> bool {
    exists|i: int| 0 <= i < r.len() && r[i].0 == k
}

/// `r` is a ranking of the tally `t` cut at `limit` entries: as many entries
/// as `t` has keys, up to `limit`, each a distinct pair of `t`, by count
/// from the largest down, and no key left out counts more than the last.
pub open spec fn is_ranking_of(r: Seq<(Seq<char>, nat)>, t: Map<Seq<char>, nat>, limit: nat) -> bool {
    &&& r.len() == if t.dom().len() < limit {
        t.dom().len()
    } else {
        limit
    }
    &&& drawn_from(r, t)
    &&& non_increasing(r)
    &&& forall|k: Seq<char>|
        #[trigger] t.contains_key(k) && !has_key(r, k) ==> r.len() > 0 && t[k] <= r.last().1
}

/// The index of an entry of largest count.
fn index_of_max(v: &Vec<RankedEntry>) -> (b: usize)
    requires
        v@.len() > 0,
    ensures
        b < v@.len(),
        forall|m: int| 0 <= m < v@.len() ==> #[trigger] v@[m].count <= v@[b as int].count,
{
    let mut b: usize = 0;
    let mut j: usize = 1;
    while j < v.len()
        invariant
            b < j <= v@.len(),
            forall|m: int| 0 <= m < j ==> #[trigger] v@[m].count <= v@[b as int].count,
        decreases v@.len() - j,
    {
        if v[j].count > v[b].count {
            b = j;
        }
        j = j + 1;
    }
    b
}

/// The report of a tally: up to `REPORT_LIMIT` entries, by count from the
/// largest down. Among equal counts any order may come.
pub fn top_entries(tally: &Tally) -> (r: Vec<RankedEntry>)
    requires
        tally.wf(),
    ensures
        is_ranking_of(entries_view(r@), tally@, REPORT_LIMIT as nat),
{
    let ghost t = tally@;
    proof {
        tally.lemma_every_file_counted();
    }
    let n = tally.len();
    let mut work = tally.to_entries();
    let mut out: Vec<RankedEntry> = Vec::new();
    while out.len() < REPORT_LIMIT && work.len() > 0
        invariant
            n == t.dom().len(),
            out@.len() <= REPORT_LIMIT,
            work@.len() + out@.len() == n,
            drawn_from(entries_view(work@), t),
            drawn_from(entries_view(out@), t),
            non_increasing(entries_view(out@)),
            forall|i: int, j: int|
                0 <= i < work@.len() && 0 <= j < out@.len() ==> #[trigger] work@[i].extension@
                    != #[trigger] out@[j].extension@,
            forall|k: Seq<char>|
                #[trigger] t.contains_key(k) ==> has_key(entries_view(work@), k) || has_key(
                    entries_view(out@),
                    k,
                ),
            out@.len() > 0 ==> forall|i: int|
                0 <= i < work@.len() ==> #[trigger] work@[i].count <= out@.last().count,
        decreases work@.len(),
    {
        let ghost wv = entries_view(work@);
        let ghost ov = entries_view(out@);
        let ghost w0 = work@;
        let ghost o0 = out@;
        let b = index_of_max(&work);
        let e = work.remove(b);
        out.push(e);
        proof {
            let nw = entries_view(work@);
            let no = entries_view(out@);
            assert(nw =~= wv.remove(b as int));
            assert(no =~= ov.push(wv[b as int]));
            assert forall|i: int, j: int| 0 <= i < j < no.len() implies #[trigger] no[i].0
                != #[trigger] no[j].0 by {
                if j == no.len() - 1 {
                    assert(work@.len() + 1 == wv.len());
                    assert(w0[b as int].extension@ != o0[i].extension@);
                } else {
                    assert(ov[i].0 != ov[j].0);
                }
            }
            assert forall|i: int, j: int| 0 <= i < j < no.len() implies #[trigger] no[i].1
                >= #[trigger] no[j].1 by {
                if j == no.len() - 1 {
                    assert(o0.last() == o0[ov.len() - 1]);
                    assert(ov[i].1 >= ov[ov.len() - 1].1 || i == ov.len() - 1);
                } else {
                    assert(ov[i].1 >= ov[j].1);
                }
            }
            assert forall|i: int, j: int| 0 <= i < nw.len() && 0 <= j < nw.len() && i < j implies
                #[trigger] nw[i].0 != #[trigger] nw[j].0 by {
                let oi = if i < b { i } else { i + 1 };
                let oj = if j < b { j } else { j + 1 };
                assert(wv[oi].0 != wv[oj].0);
            }
            assert forall|i: int, j: int|
                0 <= i < work@.len() && 0 <= j < out@.len() implies #[trigger] work@[i].extension@
                != #[trigger] out@[j].extension@ by {
                let oi = if i < b { i } else { i + 1 };
                assert(work@[i] == w0[oi]);
                if j == out@.len() - 1 {
                    if oi < b {
                        assert(wv[oi].0 != wv[b as int].0);
                    } else {
                        assert(wv[b as int].0 != wv[oi].0);
                    }
                } else {
                    assert(w0[oi].extension@ != o0[j].extension@);
                }
            }
            assert forall|k: Seq<char>| #[trigger] t.contains_key(k) implies has_key(nw, k) || has_key(
                no,
                k,
            ) by {
                if has_key(ov, k) {
                    let j = choose|j: int| 0 <= j < ov.len() && ov[j].0 == k;
                    assert(no[j].0 == k);
                } else {
                    let i = choose|i: int| 0 <= i < wv.len() && wv[i].0 == k;
                    if i < b {
                        assert(nw[i].0 == k);
                    } else if i == b {
                        assert(no[ov.len() as int].0 == k);
                    } else {
                        assert(nw[i - 1].0 == k);
                    }
                }
            }
            assert forall|i: int| 0 <= i < work@.len() implies #[trigger] work@[i].count
                <= out@.last().count by {
                let oi = if i < b { i } else { i + 1 };
                assert(work@[i] == w0[oi]);
            }
            assert forall|i: int| 0 <= i < nw.len() implies #[trigger] t.contains_key(nw[i].0)
                && t[nw[i].0] == nw[i].1 by {
                let oi = if i < b { i } else { i + 1 };
                assert(nw[i] == wv[oi]);
                assert(t.contains_key(wv[oi].0));
            }
        }
    }
    proof {
        let ov = entries_view(out@);
        assert forall|k: Seq<char>| #[trigger] t.contains_key(k) && !has_key(ov, k) implies ov.len()
            > 0 && t[k] <= ov.last().1 by {
            let wv = entries_view(work@);
            let i = choose|i: int| 0 <= i < wv.len() && wv[i].0 == k;
            assert(wv[i].1 == work@[i].count);
        }
    }
    out
}

} // verus!
