//! Standings: the order of a pool by rating, and dense, tie-aware ranks.
//!
//! Ratings and deviations enter as order keys (see `order_key`): unsigned
//! integers whose order is the order of the values they stand for.

use vstd::prelude::*;

verus! {

/// The sign bit of an IEEE-754 double.
pub const SIGN_BIT: u64 = 0x8000_0000_0000_0000;

/// The key of the double whose bit pattern is `bits`.
pub open spec fn order_key_spec(bits: u64) -> u64 {
    if bits >= SIGN_BIT {
        (u64::MAX - bits) as u64
    } else {
        (bits + SIGN_BIT) as u64
    }
}

/// Maps the bit pattern of a double to a key whose unsigned order is the
/// IEEE-754 total order of the doubles: negative values reversed below the
/// sign bit, non-negative values above it.
pub fn order_key(bits: u64) -> (r: u64)
    ensures
        r == order_key_spec(bits),
{
    if bits >= SIGN_BIT {
        u64::MAX - bits
    } else {
        bits + SIGN_BIT
    }
}

/// What the standings read of one entity: the order keys of its rating and
/// of its deviation.
#[derive(Clone, Copy, Debug, PartialEq, Eq, Structural)]
pub struct RankKey {
    pub rati: u64,
    pub devi: u64,
}

/// Entity `x` stands before entity `y`: higher rating first, then higher
/// deviation, then higher id.
pub open spec fn precedes(keys: Seq<RankKey>, x: int, y: int) -> bool {
    ||| keys[x].rati > keys[y].rati
    ||| keys[x].rati == keys[y].rati && keys[x].devi > keys[y].devi
    ||| keys[x].rati == keys[y].rati && keys[x].devi == keys[y].devi && x > y
}

/// `order` lists every id of `keys` once, each before all that it precedes.
pub open spec fn standing_order(keys: Seq<RankKey>, order: Seq<usize>) -> bool {
    &&& order.len() == keys.len()
    &&& forall|q: int| 0 <= q < order.len() ==> order[q] < keys.len()
    &&& forall|j: usize| j < keys.len() ==> #[trigger] order.contains(j)
    &&& forall|a: int, b: int|
        0 <= a < b < order.len() ==> precedes(keys, order[a] as int, order[b] as int)
}

/// The distinct rating keys of the pool.
pub open spec fn rating_values(keys: Seq<RankKey>) -> Set<u64>
    decreases keys.len(),
{
    if keys.len() == 0 {
        Set::empty()
    } else {
        rating_values(keys.drop_last()).insert(keys.last().rati)
    }
}

/// The dense rank of entity `id`: how many distinct ratings of the pool are
/// at least its own. The best rating has rank 1, and equal ratings share a rank.
pub open spec fn dense_rank(keys: Seq<RankKey>, id: int) -> nat {
    rating_values(keys).filter(|r: u64| r >= keys[id].rati).len()
}

/// The distinct ratings met in the first `k` places of `order`.
pub open spec fn seen(keys: Seq<RankKey>, order: Seq<usize>, k: int) -> Set<u64>
    decreases k,
{
    if k <= 0 {
        Set::empty()
    } else {
        seen(keys, order, k - 1).insert(keys[order[k - 1] as int].rati)
    }
}

pub proof fn lemma_rating_values(keys: Seq<RankKey>)
    ensures
        rating_values(keys).finite(),
        forall|r: u64|
            rating_values(keys).contains(r) <==> exists|j: int|
                0 <= j < keys.len() && #[trigger] keys[j].rati == r,
    decreases keys.len(),
{
    if keys.len() > 0 {
        let init = keys.drop_last();
        lemma_rating_values(init);
        assert forall|r: u64|
            rating_values(keys).contains(r) implies exists|j: int|
                0 <= j < keys.len() && #[trigger] keys[j].rati == r by {
            if r != keys.last().rati {
                let j = choose|j: int| 0 <= j < init.len() && #[trigger] init[j].rati == r;
                assert(keys[j].rati == r);
            }
        }
        assert forall|r: u64|
            (exists|j: int| 0 <= j < keys.len() && #[trigger] keys[j].rati == r) implies
                rating_values(keys).contains(r) by {
            let j = choose|j: int| 0 <= j < keys.len() && #[trigger] keys[j].rati == r;
            if j < keys.len() - 1 {
                assert(init[j].rati == r);
            }
        }
    }
}

proof fn lemma_seen(keys: Seq<RankKey>, order: Seq<usize>, k: int)
    requires
        0 <= k <= order.len(),
    ensures
        seen(keys, order, k).finite(),
        forall|r: u64|
            seen(keys, order, k).contains(r) <==> exists|q: int|
                0 <= q < k && #[trigger] keys[order[q] as int].rati == r,
    decreases k,
{
    if k > 0 {
        lemma_seen(keys, order, k - 1);
    }
}

proof fn lemma_precedes_transitive(keys: Seq<RankKey>, x: int, y: int, z: int)
    requires
        precedes(keys, x, y),
        precedes(keys, y, z),
    ensures
        precedes(keys, x, z),
{
}

/// Computes `precedes` on concrete keys.
fn precedes_exec(keys: &Vec<RankKey>, x: usize, y: usize) -> (r: bool)
    requires
        x < keys.len(),
        y < keys.len(),
    ensures
        r == precedes(keys@, x as int, y as int),
{
    let kx = keys[x];
    let ky = keys[y];
    kx.rati > ky.rati || (kx.rati == ky.rati && (kx.devi > ky.devi || (kx.devi == ky.devi && x
        > y)))
}

/// The ids of the pool (`keys[id]` describes entity `id`) in standing order:
/// descending rating, then descending deviation, then descending id.
pub fn standing_order_of(keys: &Vec<RankKey>) -> (order: Vec<usize>)
    ensures
        standing_order(keys@, order@),
{
    let n = keys.len();
    let mut order: Vec<usize> = Vec::new();
    let mut i: usize = 0;
    while i < n
        invariant
            i <= n,
            n == keys.len(),
            order.len() == i,
            forall|q: int| 0 <= q < order.len() ==> order@[q] < i,
            forall|j: usize| j < i ==> #[trigger] order@.contains(j),
            forall|a: int, b: int|
                0 <= a < b < order.len() ==> precedes(keys@, order@[a] as int, order@[b] as int),
        decreases n - i,
    {
        let mut p: usize = 0;
        while p < order.len() && precedes_exec(keys, order[p], i)
            invariant
                p <= order.len(),
                order.len() == i,
                i < n,
                n == keys.len(),
                forall|q: int| 0 <= q < order.len() ==> order@[q] < i,
                forall|q: int| 0 <= q < p ==> precedes(keys@, order@[q] as int, i as int),
            decreases order.len() - p,
        {
            p += 1;
        }
        let ghost old_order = order@;
        proof {
            if p < old_order.len() {
                assert(precedes(keys@, i as int, old_order[p as int] as int));
                assert forall|q: int| p < q < old_order.len() implies precedes(
                    keys@,
                    i as int,
                    old_order[q] as int,
                ) by {
                    lemma_precedes_transitive(
                        keys@,
                        i as int,
                        old_order[p as int] as int,
                        old_order[q] as int,
                    );
                }
            }
            old_order.insert_ensures(p as int, i);
        }
        order.insert(p, i);
        proof {
            let new_order = order@;
            assert forall|a: int, b: int| 0 <= a < b < new_order.len() implies precedes(
                keys@,
                new_order[a] as int,
                new_order[b] as int,
            ) by {
                if b < p {
                } else if b == p {
                } else if a < p {
                    assert(new_order[b] == old_order[b - 1]);
                } else if a == p {
                    assert(new_order[b] == old_order[b - 1]);
                } else {
                    assert(new_order[a] == old_order[a - 1]);
                    assert(new_order[b] == old_order[b - 1]);
                }
            }
            assert forall|j: usize| j < i + 1 implies #[trigger] new_order.contains(j) by {
                if j < i {
                    assert(old_order.contains(j));
                    let q = choose|q: int| 0 <= q < old_order.len() && old_order[q] == j;
                    if q < p {
                        assert(new_order[q] == j);
                    } else {
                        assert(new_order[q + 1] == j);
                    }
                } else {
                    assert(new_order[p as int] == i);
                }
            }
            assert forall|q: int| 0 <= q < new_order.len() implies new_order[q] < i + 1 by {
                if q < p {
                } else if q == p {
                } else {
                    assert(new_order[q] == old_order[q - 1]);
                }
            }
        }
        i += 1;
    }
    order
}

/// The places of `order` up to and including `q` hold exactly the ratings
/// of the pool that are at least the one in place `q`.
proof fn lemma_seen_is_upper_set(keys: Seq<RankKey>, order: Seq<usize>, q: int)
    requires
        standing_order(keys, order),
        0 <= q < order.len(),
        keys.len() <= usize::MAX,
    ensures
        seen(keys, order, q + 1) == rating_values(keys).filter(
            |r: u64| r >= keys[order[q] as int].rati,
        ),
{
    let x = keys[order[q] as int].rati;
    let upper = rating_values(keys).filter(|r: u64| r >= x);
    lemma_seen(keys, order, q + 1);
    lemma_rating_values(keys);
    assert forall|r: u64| seen(keys, order, q + 1).contains(r) implies upper.contains(r) by {
        let q2 = choose|q2: int| 0 <= q2 < q + 1 && #[trigger] keys[order[q2] as int].rati == r;
        if q2 < q {
            assert(precedes(keys, order[q2] as int, order[q] as int));
        }
        assert(keys[order[q2] as int].rati == r);
    }
    assert forall|r: u64| upper.contains(r) implies seen(keys, order, q + 1).contains(r) by {
        let j = choose|j: int| 0 <= j < keys.len() && #[trigger] keys[j].rati == r;
        assert(order.contains(j as usize));
        let p = choose|p: int| 0 <= p < order.len() && order[p] == j as usize;
        if p <= q {
            assert(keys[order[p] as int].rati == r);
        } else {
            assert(precedes(keys, order[q] as int, order[p] as int));
            assert(keys[order[q] as int].rati == r);
        }
    }
    assert(seen(keys, order, q + 1) =~= upper);
}

/// Standings of the pool whose entity `id` is described by `keys[id]`: the
/// ids in standing order, and the dense rank of each id.
pub fn calculate_ranking(keys: &Vec<RankKey>) -> (r: (Vec<usize>, Vec<usize>))
    ensures
        standing_order(keys@, r.0@),
        r.1.len() == keys.len(),
        forall|id: int| 0 <= id < keys.len() ==> r.1@[id] == dense_rank(keys@, id),
{
    let n = keys.len();
    let order = standing_order_of(keys);
    let mut ranks: Vec<usize> = Vec::new();
    while ranks.len() < n
        invariant
            ranks.len() <= n,
        decreases n - ranks.len(),
    {
        ranks.push(0);
    }
    let mut rank: usize = 0;
    let mut k: usize = 0;
    while k < n
        invariant
            k <= n,
            n == keys.len(),
            ranks.len() == n,
            standing_order(keys@, order@),
            rank as nat == seen(keys@, order@, k as int).len(),
            rank <= k,
            forall|q: int|
                0 <= q < k ==> ranks@[order@[q] as int] as nat == #[trigger] seen(
                    keys@,
                    order@,
                    q + 1,
                ).len(),
        decreases n - k,
    {
        let id = order[k];
        let ghost s = seen(keys@, order@, k as int);
        proof {
            lemma_seen(keys@, order@, k as int);
        }
        if k == 0 || keys[id].rati < keys[order[k - 1]].rati {
            proof {
                if k > 0 {
                    assert forall|r: u64| s.contains(r) implies r > keys@[id as int].rati by {
                        let q = choose|q: int|
                            0 <= q < k && #[trigger] keys@[order@[q] as int].rati == r;
                        if q < k - 1 {
                            assert(precedes(keys@, order@[q] as int, order@[k - 1] as int));
                        }
                    }
                }
                assert(!s.contains(keys@[id as int].rati));
            }
            rank += 1;
        } else {
            proof {
                assert(precedes(keys@, order@[k - 1] as int, id as int));
                assert(keys@[order@[k - 1] as int].rati == keys@[id as int].rati);
                assert(s.contains(keys@[id as int].rati));
                assert(s.insert(keys@[id as int].rati) =~= s);
            }
        }
        let ghost before = ranks@;
        ranks.set(id, rank);
        proof {
            assert forall|q: int| 0 <= q < k + 1 implies ranks@[order@[q] as int] as nat
                == #[trigger] seen(keys@, order@, q + 1).len() by {
                if q < k {
                    assert(precedes(keys@, order@[q] as int, order@[k as int] as int));
                    assert(order@[q] != id);
                    assert(before[order@[q] as int] as nat == seen(keys@, order@, q + 1).len());
                }
            }
        }
        k += 1;
    }
    proof {
        assert forall|id: int| 0 <= id < keys.len() implies ranks@[id] == dense_rank(keys@, id) by {
            assert(order@.contains(id as usize));
            let q = choose|q: int| 0 <= q < order@.len() && order@[q] == id as usize;
            lemma_seen_is_upper_set(keys@, order@, q);
            assert(ranks@[order@[q] as int] as nat == seen(keys@, order@, q + 1).len());
        }
    }
    (order, ranks)
}

/// An entity of the pool with the lowest rating among the first `k`.
pub open spec fn lowest(keys: Seq<RankKey>, k: int) -> int
    decreases k,
{
    if k <= 1 {
        0
    } else {
        let m = lowest(keys, k - 1);
        if keys[k - 1].rati < keys[m].rati {
            k - 1
        } else {
            m
        }
    }
}

proof fn lemma_lowest(keys: Seq<RankKey>, k: int)
    requires
        1 <= k <= keys.len(),
    ensures
        0 <= lowest(keys, k) < k,
        forall|j: int| 0 <= j < k ==> keys[lowest(keys, k)].rati <= #[trigger] keys[j].rati,
    decreases k,
{
    if k > 1 {
        lemma_lowest(keys, k - 1);
    }
}

/// Dense ranks: entities with equal ratings share a rank, every rank lies
/// between 1 and the number of distinct ratings, and some entity's rank is
/// exactly that number, so the largest rank counts the rating groups rather
/// than the entities.
pub proof fn lemma_dense_ranks(keys: Seq<RankKey>)
    requires
        keys.len() > 0,
    ensures
        forall|x: int, y: int|
            0 <= x < keys.len() && 0 <= y < keys.len() && keys[x].rati == keys[y].rati
                ==> #[trigger] dense_rank(keys, x) == #[trigger] dense_rank(keys, y),
        forall|x: int|
            0 <= x < keys.len() ==> 1 <= #[trigger] dense_rank(keys, x) <= rating_values(
                keys,
            ).len(),
        exists|x: int|
            0 <= x < keys.len() && #[trigger] dense_rank(keys, x) == rating_values(keys).len(),
{
    lemma_rating_values(keys);
    let all = rating_values(keys);
    assert forall|x: int| 0 <= x < keys.len() implies 1 <= #[trigger] dense_rank(keys, x)
        <= all.len() by {
        let upper = all.filter(|r: u64| r >= keys[x].rati);
        all.lemma_len_filter(|r: u64| r >= keys[x].rati);
        assert(upper.contains(keys[x].rati));
        vstd::set::axiom_set_contains_len(upper, keys[x].rati);
    }
    let m = lowest(keys, keys.len() as int);
    lemma_lowest(keys, keys.len() as int);
    assert(all.filter(|r: u64| r >= keys[m].rati) =~= all);
    assert(dense_rank(keys, m) == all.len());
}

/// Where the three places shown around place `i` of `len` places begin:
/// the top three for the top place, the bottom three for the bottom place,
/// else the place before it.
pub open spec fn window_start(len: int, i: int) -> int {
    if i == 0 {
        0
    } else if i == len - 1 {
        if len >= 3 {
            len - 3
        } else {
            0
        }
    } else {
        i - 1
    }
}

/// The ids shown around entity `id` in the standings `order`: the places
/// from `window_start` on, three of them where the standings have three.
/// Empty when `id` is not in the standings.
pub fn get_slice_in_ranked_chara(id: usize, order: &Vec<usize>) -> (r: Vec<usize>)
    ensures
        !order@.contains(id) ==> r@.len() == 0,
        forall|i: int|
            0 <= i < order@.len() && order@[i] == id && (forall|q: int|
                0 <= q < i ==> order@[q] != id) ==> {
                let s = window_start(order@.len() as int, i);
                let e = if s + 3 <= order@.len() {
                    s + 3
                } else {
                    order@.len() as int
                };
                r@ == order@.subrange(s, e)
            },
{
    let len = order.len();
    let mut i: usize = 0;
    while i < len
        invariant
            i <= len,
            len == order@.len(),
            forall|q: int| 0 <= q < i ==> order@[q] != id,
        decreases len - i,
    {
        if order[i] == id {
            let s: usize = if i == 0 {
                0
            } else if i == len - 1 {
                if len >= 3 {
                    len - 3
                } else {
                    0
                }
            } else {
                i - 1
            };
            let e: usize = if s + 3 <= len {
                s + 3
            } else {
                len
            };
            let mut r: Vec<usize> = Vec::new();
            let mut k: usize = s;
            while k < e
                invariant
                    s <= k <= e,
                    e <= len,
                    len == order@.len(),
                    r@ == order@.subrange(s as int, k as int),
                decreases e - k,
            {
                r.push(order[k]);
                k += 1;
                assert(r@ =~= order@.subrange(s as int, k as int));
            }
            return r;
        }
        i += 1;
    }
    Vec::new()
}

} // verus!
