//! Choosing the next pair to compare: weighted toward entities that have
//! played less, and avoiding the first pick's recent opponents.
//!
//! The weight of entity `i` is `max_b - played[i] + 1`, where `max_b` is the
//! largest battle count of the pool: it grows with the entity's deficit and
//! the most-played entities keep a weight of one.

use vstd::prelude::*;
use rand::distributions::Distribution;
use crate::trail::Trail;

verus! {

/// The largest entry of `s` (zero when `s` is empty).
pub open spec fn max_played(s: Seq<usize>) -> nat
    decreases s.len(),
{
    if s.len() == 0 {
        0
    } else {
        let m = max_played(s.drop_last());
        if s.last() > m {
            s.last() as nat
        } else {
            m
        }
    }
}

/// The sampling weight of every entity of `played`.
pub open spec fn weights_spec(played: Seq<usize>) -> Seq<int> {
    Seq::new(played.len(), |i: int| max_played(played) - played[i] + 1)
}

/// The sum of `s`.
pub open spec fn sum(s: Seq<int>) -> int
    decreases s.len(),
{
    if s.len() == 0 {
        0
    } else {
        sum(s.drop_last()) + s.last()
    }
}

/// Machine weights as integers.
pub open spec fn as_ints(w: Seq<u64>) -> Seq<int> {
    w.map_values(|x: u64| x as int)
}

/// There is an entity other than `first` that is not among `recent`.
pub open spec fn has_alternative(n: nat, first: int, recent: Seq<usize>) -> bool {
    exists|j: usize| j < n && j != first && !(#[trigger] recent.contains(j))
}

/// The weights for the second pick: `first` gets none, and neither do its
/// recent opponents when some other entity is left.
pub open spec fn second_weights_spec(w: Seq<int>, first: int, recent: Seq<usize>) -> Seq<int> {
    Seq::new(
        w.len(),
        |j: int|
            if j == first || (has_alternative(w.len(), first, recent) && recent.contains(
                j as usize,
            )) {
                0
            } else {
                w[j]
            },
    )
}

proof fn lemma_max_played(s: Seq<usize>)
    ensures
        forall|i: int| 0 <= i < s.len() ==> s[i] <= max_played(s),
        max_played(s) <= usize::MAX,
    decreases s.len(),
{
    if s.len() > 0 {
        lemma_max_played(s.drop_last());
        assert forall|i: int| 0 <= i < s.len() implies s[i] <= max_played(s) by {
            if i < s.len() - 1 {
                assert(s.drop_last()[i] == s[i]);
            }
        }
    }
}

proof fn lemma_sum_prefix(s: Seq<int>, i: int)
    requires
        0 <= i < s.len(),
    ensures
        sum(s.subrange(0, i + 1)) == sum(s.subrange(0, i)) + s[i],
{
    assert(s.subrange(0, i + 1).drop_last() =~= s.subrange(0, i));
}

proof fn lemma_sum_split(s: Seq<int>, k: int)
    requires
        0 <= k <= s.len(),
    ensures
        sum(s) == sum(s.subrange(0, k)) + sum(s.subrange(k, s.len() as int)),
    decreases s.len(),
{
    if s.len() > k {
        lemma_sum_split(s.drop_last(), k);
        assert(s.drop_last().subrange(0, k) =~= s.subrange(0, k));
        assert(s.subrange(k, s.len() as int).drop_last() =~= s.drop_last().subrange(
            k,
            s.len() - 1,
        ));
    } else {
        assert(s.subrange(0, k) =~= s);
    }
}

/// Each entry of a sequence of non-negative numbers is at most its sum, and
/// the sum is positive when an entry is.
proof fn lemma_sum_bounds(s: Seq<int>)
    requires
        forall|i: int| 0 <= i < s.len() ==> s[i] >= 0,
    ensures
        sum(s) >= 0,
        forall|i: int| 0 <= i < s.len() ==> s[i] <= sum(s),
        (exists|i: int| 0 <= i < s.len() && s[i] > 0) ==> sum(s) > 0,
    decreases s.len(),
{
    if s.len() > 0 {
        let init = s.drop_last();
        lemma_sum_bounds(init);
        assert forall|i: int| 0 <= i < s.len() implies s[i] <= sum(s) by {
            if i < s.len() - 1 {
                assert(init[i] == s[i]);
            }
        }
        if exists|i: int| 0 <= i < s.len() && s[i] > 0 {
            let i = choose|i: int| 0 <= i < s.len() && s[i] > 0;
            if i < s.len() - 1 {
                assert(init[i] == s[i]);
            }
        }
    }
}

/// A sum does not grow when entries shrink.
proof fn lemma_sum_monotone(s: Seq<int>, t: Seq<int>)
    requires
        s.len() == t.len(),
        forall|i: int| 0 <= i < s.len() ==> s[i] <= t[i],
    ensures
        sum(s) <= sum(t),
    decreases s.len(),
{
    if s.len() > 0 {
        lemma_sum_monotone(s.drop_last(), t.drop_last());
    }
}

/// Relies on rand's `WeightedIndex::new` and its `Distribution::sample`,
/// drawn with `thread_rng()`: index `i` is drawn with probability
/// `weights[i] / total`, so the index is in bounds and its weight is positive.
/// `new` fails only on no weights or a zero total, and its running total
/// must fit in a `u64`. (`thread_rng` panics only when the operating
/// system's random source cannot seed it, whatever the arguments.)
#[verifier::external_body]
fn draw_weighted(weights: &Vec<u64>) -> (r: usize)
    requires
        weights@.len() > 0,
        0 < sum(as_ints(weights@)) <= u64::MAX,
    ensures
        r < weights@.len(),
        weights@[r as int] > 0,
{
    let dist = rand::distributions::WeightedIndex::new(weights).unwrap();
    dist.sample(&mut rand::thread_rng())
}

/// The largest battle count of the pool.
fn max_of(played: &Vec<usize>) -> (m: usize)
    ensures
        m == max_played(played@),
{
    let mut m: usize = 0;
    let mut i: usize = 0;
    while i < played.len()
        invariant
            i <= played.len(),
            m == max_played(played@.subrange(0, i as int)),
        decreases played.len() - i,
    {
        assert(played@.subrange(0, i + 1).drop_last() =~= played@.subrange(0, i as int));
        if played[i] > m {
            m = played[i];
        }
        i += 1;
    }
    assert(played@.subrange(0, played.len() as int) =~= played@);
    m
}

/// The sampling weights of a pool with battle counts `played`, or `None`
/// when their total does not fit in a `u64`.
pub fn sampling_weights(played: &Vec<usize>) -> (r: Option<Vec<u64>>)
    ensures
        r is None <==> sum(weights_spec(played@)) > u64::MAX,
        r matches Some(w) ==> as_ints(w@) == weights_spec(played@),
{
    let ghost ws = weights_spec(played@);
    let max_b = max_of(played);
    proof {
        lemma_max_played(played@);
        lemma_sum_bounds(ws);
    }
    let mut w: Vec<u64> = Vec::new();
    let mut total: u64 = 0;
    let mut i: usize = 0;
    while i < played.len()
        invariant
            i <= played.len(),
            max_b == max_played(played@),
            ws == weights_spec(played@),
            forall|j: int| 0 <= j < ws.len() ==> 0 <= #[trigger] ws[j] <= sum(ws),
            w@.len() == i,
            forall|j: int| 0 <= j < i ==> w@[j] as int == ws[j],
            total as int == sum(ws.subrange(0, i as int)),
        decreases played.len() - i,
    {
        proof {
            lemma_sum_prefix(ws, i as int);
            lemma_max_played(played@);
        }
        let d = (max_b - played[i]) as u64;
        if d == u64::MAX || total > u64::MAX - (d + 1) {
            proof {
                let rest = ws.subrange(i + 1, ws.len() as int);
                assert forall|j: int| 0 <= j < rest.len() implies rest[j] >= 0 by {
                    assert(rest[j] == ws[i + 1 + j]);
                }
                lemma_sum_bounds(rest);
                lemma_sum_split(ws, i as int + 1);
                assert(ws[i as int] == d + 1);
            }
            return None;
        }
        w.push(d + 1);
        total = total + (d + 1);
        i += 1;
    }
    proof {
        assert(ws.subrange(0, ws.len() as int) =~= ws);
        assert(as_ints(w@) =~= ws);
    }
    Some(w)
}

fn trail_contains(t: &Trail<usize>, x: usize) -> (r: bool)
    ensures
        r == t@.contains(x),
{
    let mut i: usize = 0;
    while i < t.len()
        invariant
            i <= t@.len(),
            forall|k: int| 0 <= k < i ==> t@[k] != x,
        decreases t@.len() - i,
    {
        if *t.get(i) == x {
            return true;
        }
        i += 1;
    }
    false
}

/// The weights for the second pick, from the pool's weights, the first pick,
/// and the first pick's recent opponents.
pub fn second_weights(weights: &Vec<u64>, first: usize, recent: &Trail<usize>) -> (r: Vec<u64>)
    requires
        first < weights@.len(),
    ensures
        as_ints(r@) == second_weights_spec(as_ints(weights@), first as int, recent@),
{
    let n = weights.len();
    let mut alt = false;
    let mut j: usize = 0;
    while j < n
        invariant
            j <= n,
            n == weights@.len(),
            alt <==> exists|k: usize| k < j && k != first && !(#[trigger] recent@.contains(k)),
        decreases n - j,
    {
        if j != first && !trail_contains(recent, j) {
            alt = true;
        }
        j += 1;
    }
    assert(alt == has_alternative(n as nat, first as int, recent@));
    let ghost target = second_weights_spec(as_ints(weights@), first as int, recent@);
    let mut r: Vec<u64> = Vec::new();
    let mut k: usize = 0;
    while k < n
        invariant
            k <= n,
            n == weights@.len(),
            alt == has_alternative(n as nat, first as int, recent@),
            target == second_weights_spec(as_ints(weights@), first as int, recent@),
            r@.len() == k,
            forall|i: int| 0 <= i < k ==> r@[i] as int == #[trigger] target[i],
        decreases n - k,
    {
        if k == first || (alt && trail_contains(recent, k)) {
            r.push(0);
        } else {
            r.push(weights[k]);
        }
        k += 1;
    }
    assert(as_ints(r@) =~= target);
    r
}

/// Picks the next pair `(i, j)` of a pool with battle counts `played` and
/// recent opponents `recent`: `i` is drawn by the sampling weights, then `j`
/// by the same weights with `i` left out, and `i`'s recent opponents left
/// out as well whenever another entity remains. `None` when the weights'
/// total does not fit in a `u64`.
pub fn pick_2_player_ids(played: &Vec<usize>, recent: &Vec<Trail<usize>>) -> (r: Option<
    (usize, usize),
>)
    requires
        played@.len() >= 2,
        recent@.len() == played@.len(),
    ensures
        r is None <==> sum(weights_spec(played@)) > u64::MAX,
        r matches Some((i, j)) ==> {
            &&& i < played@.len()
            &&& j < played@.len()
            &&& i != j
            &&& has_alternative(played@.len(), i as int, recent@[i as int]@) ==> !recent@[i as int]@.contains(j)
        },
{
    let weights = match sampling_weights(played) {
        Some(w) => w,
        None => {
            return None;
        },
    };
    let ghost ws = as_ints(weights@);
    proof {
        lemma_max_played(played@);
        assert(forall|i: int| 0 <= i < ws.len() ==> #[trigger] ws[i] > 0);
        lemma_sum_bounds(ws);
        assert(ws[0] > 0);
    }
    let first = draw_weighted(&weights);
    let second_w = second_weights(&weights, first, &recent[first]);
    let ghost s2 = as_ints(second_w@);
    proof {
        let n = played@.len();
        let rec = recent@[first as int]@;
        assert forall|i: int| 0 <= i < n implies 0 <= #[trigger] s2[i] <= ws[i] by {}
        lemma_sum_monotone(s2, ws);
        if has_alternative(n, first as int, rec) {
            let j = choose|j: usize| j < n && j != first && !(#[trigger] rec.contains(j));
            assert(s2[j as int] > 0);
        } else {
            let j: int = if first == 0 { 1 } else { 0 };
            assert(s2[j] > 0);
        }
        lemma_sum_bounds(s2);
    }
    let second = draw_weighted(&second_w);
    assert(s2[second as int] > 0);
    Some((first, second))
}

} // verus!
