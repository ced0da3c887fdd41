//! The integer side of the Glicko-2 batch update: who takes part in a
//! rating period. The update's arithmetic works on the per-side scores of
//! `MatchResult::scores`.

use vstd::prelude::*;
use crate::structs::Match;

verus! {

/// Entity `id` plays in some match of `ms`.
pub open spec fn takes_part(ms: Seq<Match>, id: int) -> bool {
    exists|k: int| 0 <= k < ms.len() && (#[trigger] ms[k]).involves(id)
}

/// For each of the `n` entities of a pool, whether it plays in a match of
/// `records`. Entities that do not play are only carried through a rating
/// period; the others are rated from the batch.
pub fn participants(records: &Vec<Match>, n: usize) -> (r: Vec<bool>)
    ensures
        r@.len() == n,
        forall|id: int| 0 <= id < n ==> #[trigger] r@[id] == takes_part(records@, id),
{
    let mut r: Vec<bool> = Vec::new();
    while r.len() < n
        invariant
            r@.len() <= n,
            forall|id: int| 0 <= id < r@.len() ==> !#[trigger] r@[id],
        decreases n - r.len(),
    {
        r.push(false);
    }
    let mut k: usize = 0;
    while k < records.len()
        invariant
            k <= records@.len(),
            r@.len() == n,
            forall|id: int|
                0 <= id < n ==> #[trigger] r@[id] == takes_part(records@.subrange(0, k as int), id),
        decreases records@.len() - k,
    {
        let m = records[k];
        let ghost pre = records@.subrange(0, k as int);
        let ghost next = records@.subrange(0, k + 1);
        let ghost r0 = r@;
        if m.a < n {
            r.set(m.a, true);
        }
        if m.b < n {
            r.set(m.b, true);
        }
        proof {
            assert forall|id: int| 0 <= id < n implies #[trigger] r@[id] == takes_part(next, id) by {
                assert(r@[id] == (r0[id] || m.a == id || m.b == id));
                if takes_part(next, id) && !m.involves(id) {
                    let q = choose|q: int| 0 <= q < next.len() && (#[trigger] next[q]).involves(id);
                    if q < k {
                        assert(pre[q] == next[q]);
                    } else {
                        assert(next[q] == m);
                    }
                }
                if takes_part(pre, id) {
                    let q = choose|q: int| 0 <= q < pre.len() && (#[trigger] pre[q]).involves(id);
                    assert(pre[q] == next[q]);
                }
                if m.a == id || m.b == id {
                    assert(next[k as int] == m);
                }
            }
        }
        k += 1;
    }
    assert(records@.subrange(0, records@.len() as int) =~= records@);
    r
}

} // verus!
