//! Per-entity bookkeeping: win/loss/draw counters, the recent battles, and
//! the trails of past ratings and ranks.

use vstd::prelude::*;
use crate::structs::{Battle, Match, MatchResult, mirror_spec};
use crate::trail::{Trail, keep_newest, push_bounded};

verus! {

/// The historical record of one entity. `R` is the type of a rating value,
/// which this module only stores.
pub struct History<R> {
    pub wins: usize,
    pub loss: usize,
    pub draw: usize,
    pub recent: Trail<Battle>,
    pub old_rate: Trail<R>,
    pub old_rank: Trail<usize>,
}

/// The mathematical content of a `History`.
pub struct HistoryView<R> {
    pub wins: nat,
    pub loss: nat,
    pub draw: nat,
    pub recent: Seq<Battle>,
    pub old_rate: Seq<R>,
    pub old_rank: Seq<usize>,
}

impl<R> View for History<R> {
    type V = HistoryView<R>;

    open spec fn view(&self) -> HistoryView<R> {
        HistoryView {
            wins: self.wins as nat,
            loss: self.loss as nat,
            draw: self.draw as nat,
            recent: self.recent@,
            old_rate: self.old_rate@,
            old_rank: self.old_rank@,
        }
    }
}

impl<R> HistoryView<R> {
    pub open spec fn battles(self) -> nat {
        self.wins + self.loss + self.draw
    }

    /// The record after one more battle against `oppo` with outcome `res`,
    /// seen from this entity (`AWin`: it won; `BWin` and `BothLose`: it lost).
    pub open spec fn after(self, oppo: usize, res: MatchResult) -> HistoryView<R> {
        HistoryView {
            wins: if res == MatchResult::AWin {
                self.wins + 1
            } else {
                self.wins
            },
            loss: if res == MatchResult::BWin || res == MatchResult::BothLose {
                self.loss + 1
            } else {
                self.loss
            },
            draw: if res == MatchResult::Draw {
                self.draw + 1
            } else {
                self.draw
            },
            recent: push_bounded(self.recent, Battle { oppo, res }),
            old_rate: self.old_rate,
            old_rank: self.old_rank,
        }
    }

    /// The record after a snapshot of the current rating and rank.
    pub open spec fn snapshot(self, rating: R, rank: usize) -> HistoryView<R> {
        HistoryView {
            old_rate: push_bounded(self.old_rate, rating),
            old_rank: push_bounded(self.old_rank, rank),
            ..self
        }
    }
}

/// `recent` with each opponent given its new id `ids[oppo]`; entries whose
/// opponent has none are dropped.
pub open spec fn renumbered(recent: Seq<Battle>, ids: Seq<Option<usize>>) -> Seq<Battle>
    decreases recent.len(),
{
    if recent.len() == 0 {
        Seq::empty()
    } else {
        let init = renumbered(recent.drop_last(), ids);
        let b = recent.last();
        if b.oppo < ids.len() && ids[b.oppo as int] is Some {
            init.push(Battle { oppo: ids[b.oppo as int]->0, res: b.res })
        } else {
            init
        }
    }
}

/// The views of a pool of histories.
pub open spec fn views<R>(hs: Seq<History<R>>) -> Seq<HistoryView<R>> {
    hs.map_values(|h: History<R>| h@)
}

/// The pool after one match: both sides get the outcome from their own side.
pub open spec fn record_match<R>(pool: Seq<HistoryView<R>>, m: Match) -> Seq<HistoryView<R>> {
    let p = pool.update(m.a as int, pool[m.a as int].after(m.b, m.res));
    p.update(m.b as int, p[m.b as int].after(m.a, mirror_spec(m.res)))
}

/// The pool after the matches of `ms`, in order.
pub open spec fn record_matches<R>(pool: Seq<HistoryView<R>>, ms: Seq<Match>) -> Seq<
    HistoryView<R>,
>
    decreases ms.len(),
{
    if ms.len() == 0 {
        pool
    } else {
        record_match(record_matches(pool, ms.drop_last()), ms.last())
    }
}

/// Every match of `ms` names two distinct entities of a pool of `n`.
pub open spec fn valid_matches(ms: Seq<Match>, n: nat) -> bool {
    forall|k: int| 0 <= k < ms.len() ==> #[trigger] ms[k].valid(n)
}

/// The total number of battles over a pool.
pub open spec fn total_battles<R>(pool: Seq<HistoryView<R>>) -> nat
    decreases pool.len(),
{
    if pool.len() == 0 {
        0
    } else {
        total_battles(pool.drop_last()) + pool.last().battles()
    }
}

impl<R> History<R> {
    pub fn new() -> (r: History<R>)
        ensures
            r@ == (HistoryView::<R> {
                wins: 0,
                loss: 0,
                draw: 0,
                recent: Seq::empty(),
                old_rate: Seq::empty(),
                old_rank: Seq::empty(),
            }),
    {
        History {
            wins: 0,
            loss: 0,
            draw: 0,
            recent: Trail::new(),
            old_rate: Trail::new(),
            old_rank: Trail::new(),
        }
    }

    /// Wins, losses and draws together.
    pub fn battles(&self) -> (r: usize)
        requires
            self@.battles() <= usize::MAX,
        ensures
            r == self@.battles(),
    {
        self.wins + self.loss + self.draw
    }

    /// The opponents of the recent battles, oldest first.
    pub fn recent_opponents(&self) -> (r: Trail<usize>)
        ensures
            r@ == keep_newest(self@.recent.map_values(|b: Battle| b.oppo)),
    {
        let mut ids: Vec<usize> = Vec::new();
        let mut i: usize = 0;
        while i < self.recent.len()
            invariant
                i <= self.recent@.len(),
                ids@ == self.recent@.subrange(0, i as int).map_values(|b: Battle| b.oppo),
            decreases self.recent@.len() - i,
        {
            ids.push(self.recent.get(i).oppo);
            i += 1;
            assert(ids@ =~= self.recent@.subrange(0, i as int).map_values(|b: Battle| b.oppo));
        }
        assert(self.recent@.subrange(0, i as int) =~= self.recent@);
        Trail::from_vec(ids)
    }

    /// Gives each recent opponent its new id `ids[oppo]`, and drops the
    /// battles against opponents that have none.
    pub fn renumber_opponents(&mut self, ids: &Vec<Option<usize>>)
        ensures
            final(self)@ == (HistoryView {
                recent: keep_newest(renumbered(old(self)@.recent, ids@)),
                ..old(self)@
            }),
    {
        let ghost rec = self.recent@;
        let mut kept: Vec<Battle> = Vec::new();
        let mut i: usize = 0;
        while i < self.recent.len()
            invariant
                i <= rec.len(),
                rec == self.recent@,
                kept@ == renumbered(rec.subrange(0, i as int), ids@),
            decreases rec.len() - i,
        {
            let b = *self.recent.get(i);
            proof {
                assert(rec.subrange(0, i + 1).drop_last() =~= rec.subrange(0, i as int));
            }
            if b.oppo < ids.len() {
                if let Some(k) = ids[b.oppo] {
                    kept.push(Battle::new(k, b.res));
                }
            }
            i += 1;
        }
        assert(rec.subrange(0, i as int) =~= rec);
        self.recent = Trail::from_vec(kept);
    }

    /// The share of wins among all battles, in whole percent rounded down;
    /// zero before the first battle.
    pub fn win_percent(&self) -> (r: usize)
        requires
            100 * self@.battles() <= usize::MAX,
        ensures
            self@.battles() == 0 ==> r == 0,
            self@.battles() > 0 ==> r == (100 * self.wins as nat) / self@.battles(),
    {
        let total = self.wins + self.loss + self.draw;
        if total == 0 {
            0
        } else {
            100 * self.wins / total
        }
    }

    /// How many places the rank moved since the oldest snapshot, as
    /// `current - oldest` (negative: places gained); `None` before the first
    /// snapshot.
    pub fn rank_change(&self, current: usize) -> (r: Option<i128>)
        ensures
            self@.old_rank.len() == 0 ==> r is None,
            self@.old_rank.len() > 0 ==> r == Some((current - self@.old_rank[0]) as i128),
    {
        if self.old_rank.is_empty() {
            None
        } else {
            Some(current as i128 - *self.old_rank.get(0) as i128)
        }
    }

    /// Counts one battle against `oppo` with outcome `res` seen from this
    /// entity, and appends it to the recent battles.
    pub fn record_result(&mut self, oppo: usize, res: MatchResult)
        requires
            old(self)@.battles() < usize::MAX,
        ensures
            final(self)@ == old(self)@.after(oppo, res),
    {
        match res {
            MatchResult::AWin => {
                self.wins = self.wins + 1;
            },
            MatchResult::Draw => {
                self.draw = self.draw + 1;
            },
            _ => {
                self.loss = self.loss + 1;
            },
        }
        self.recent.push(Battle::new(oppo, res));
    }
}

/// Records a batch of matches: for each, in order, the counters of both
/// sides move by the outcome (a win for the winner and a loss for the other;
/// a draw for both on `Draw`; a loss for both on `BothLose`) and each side's
/// recent battles get the opponent and the outcome from its own side.
pub fn update_history<R>(hists: &mut Vec<History<R>>, records: &Vec<Match>)
    requires
        valid_matches(records@, old(hists)@.len()),
        forall|i: int|
            0 <= i < old(hists)@.len() ==> #[trigger] old(hists)@[i]@.battles() + records@.len()
                <= usize::MAX,
    ensures
        views(final(hists)@) == record_matches(views(old(hists)@), records@),
{
    let ghost start = views(hists@);
    let n = records.len();
    let mut k: usize = 0;
    while k < n
        invariant
            n == records.len(),
            k <= n,
            valid_matches(records@, start.len()),
            hists@.len() == start.len(),
            forall|i: int|
                0 <= i < start.len() ==> #[trigger] start[i].battles() + records@.len() <= usize::MAX,
            views(hists@) == record_matches(start, records@.subrange(0, k as int)),
            forall|i: int|
                0 <= i < hists@.len() ==> #[trigger] hists@[i]@.battles() <= start[i].battles() + k,
        decreases n - k,
    {
        let m = records[k];
        assert(records@[k as int].valid(start.len()));
        let ghost before = views(hists@);
        hists[m.a].record_result(m.b, m.res);
        let ghost mid = views(hists@);
        assert(mid =~= before.update(m.a as int, before[m.a as int].after(m.b, m.res)));
        hists[m.b].record_result(m.a, m.res.mirror());
        proof {
            assert(views(hists@) =~= mid.update(
                m.b as int,
                mid[m.b as int].after(m.a, mirror_spec(m.res)),
            ));
            assert(records@.subrange(0, k + 1).drop_last() =~= records@.subrange(0, k as int));
        }
        k += 1;
    }
    assert(records@.subrange(0, n as int) =~= records@);
}

/// Appends to each entity's trails its current rating `ratings[i]` and its
/// rank `ranks[i]`.
pub fn snapshot<R: Copy>(hists: &mut Vec<History<R>>, ratings: &Vec<R>, ranks: &Vec<usize>)
    requires
        ratings@.len() == old(hists)@.len(),
        ranks@.len() == old(hists)@.len(),
    ensures
        final(hists)@.len() == old(hists)@.len(),
        forall|i: int|
            0 <= i < old(hists)@.len() ==> (#[trigger] final(hists)@[i])@ == old(hists)@[i]@.snapshot(
                ratings@[i],
                ranks@[i],
            ),
{
    let ghost start = hists@;
    let n = hists.len();
    let mut i: usize = 0;
    while i < n
        invariant
            n == hists@.len(),
            n == start.len(),
            i <= n,
            ratings@.len() == n,
            ranks@.len() == n,
            forall|j: int| 0 <= j < i ==> (#[trigger] hists@[j])@ == start[j]@.snapshot(
                ratings@[j],
                ranks@[j],
            ),
            forall|j: int| i <= j < n ==> (#[trigger] hists@[j])@ == start[j]@,
        decreases n - i,
    {
        let rating = ratings[i];
        hists[i].old_rate.push(rating);
        hists[i].old_rank.push(ranks[i]);
        i += 1;
    }
}

proof fn lemma_total_update<R>(pool: Seq<HistoryView<R>>, i: int, v: HistoryView<R>)
    requires
        0 <= i < pool.len(),
    ensures
        total_battles(pool.update(i, v)) + pool[i].battles() == total_battles(pool) + v.battles(),
    decreases pool.len(),
{
    let q = pool.update(i, v);
    if i == pool.len() - 1 {
        assert(q.drop_last() =~= pool.drop_last());
    } else {
        lemma_total_update(pool.drop_last(), i, v);
        assert(q.drop_last() =~= pool.drop_last().update(i, v));
    }
}

pub proof fn lemma_valid_prefix(ms: Seq<Match>, n: nat)
    requires
        valid_matches(ms, n),
        ms.len() > 0,
    ensures
        valid_matches(ms.drop_last(), n),
        ms.last().valid(n),
{
    assert(ms[ms.len() - 1].valid(n));
    assert forall|k: int| 0 <= k < ms.drop_last().len() implies #[trigger] ms.drop_last()[k].valid(
        n,
    ) by {
        assert(ms[k].valid(n));
    }
}

proof fn lemma_record_matches_len<R>(pool: Seq<HistoryView<R>>, ms: Seq<Match>)
    requires
        valid_matches(ms, pool.len()),
    ensures
        record_matches(pool, ms).len() == pool.len(),
    decreases ms.len(),
{
    if ms.len() > 0 {
        lemma_valid_prefix(ms, pool.len());
        lemma_record_matches_len(pool, ms.drop_last());
    }
}

/// Recording a batch of `k` matches, each between two distinct entities of
/// the pool, adds exactly `2k` to the pool's total number of battles.
pub proof fn lemma_battles_grow<R>(pool: Seq<HistoryView<R>>, ms: Seq<Match>)
    requires
        valid_matches(ms, pool.len()),
    ensures
        total_battles(record_matches(pool, ms)) == total_battles(pool) + 2 * ms.len(),
    decreases ms.len(),
{
    if ms.len() > 0 {
        let init = ms.drop_last();
        let m = ms.last();
        lemma_valid_prefix(ms, pool.len());
        lemma_battles_grow(pool, init);
        lemma_record_matches_len(pool, init);
        let p0 = record_matches(pool, init);
        let p1 = p0.update(m.a as int, p0[m.a as int].after(m.b, m.res));
        lemma_total_update(p0, m.a as int, p0[m.a as int].after(m.b, m.res));
        lemma_total_update(p1, m.b as int, p1[m.b as int].after(m.a, mirror_spec(m.res)));
    }
}

/// Recording a match with its sides swapped and its outcome mirrored gives
/// the same histories as recording it as it was.
pub proof fn lemma_swapped_match_same_record<R>(pool: Seq<HistoryView<R>>, m: Match)
    requires
        m.valid(pool.len()),
    ensures
        record_match(pool, Match { a: m.b, b: m.a, res: mirror_spec(m.res) }) == record_match(
            pool,
            m,
        ),
{
    let swapped = Match { a: m.b, b: m.a, res: mirror_spec(m.res) };
    assert(mirror_spec(mirror_spec(m.res)) == m.res);
    assert(record_match(pool, swapped) =~= record_match(pool, m));
}

} // verus!
