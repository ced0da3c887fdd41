//! A rating session: pairs are drawn, judged and recorded until the user
//! ends the session; the last judgment can be undone.
//!
//! The session does no input or output. Its driver asks for a judgment on
//! the pair it was handed, passes the answer to `Session::step`, and acts on
//! the `Step` that comes back. While the session runs, every recorded match
//! counts as one more battle for both sides and makes each the other's most
//! recent opponent, so that later draws see it; undoing a judgment takes
//! exactly that back.

use vstd::prelude::*;
use crate::history::{lemma_valid_prefix, valid_matches};
use crate::sampler::{has_alternative, pick_2_player_ids, sum, weights_spec};
use crate::structs::{Match, MatchResult};
use crate::trail::{Trail, push_bounded};

verus! {

/// One answer of the user to "which of these two?".
#[derive(Clone, Copy, Debug, PartialEq, Eq, Structural)]
pub enum Judgment {
    LeftWins,
    RightWins,
    Draw,
    BothDisliked,
    Undo,
    Help,
    End,
}

/// The outcome a judgment records, if it records one.
pub open spec fn outcome_of(j: Judgment) -> Option<MatchResult> {
    match j {
        Judgment::LeftWins => Some(MatchResult::AWin),
        Judgment::RightWins => Some(MatchResult::BWin),
        Judgment::Draw => Some(MatchResult::Draw),
        Judgment::BothDisliked => Some(MatchResult::BothLose),
        _ => None,
    }
}

/// What the driver does next.
#[derive(Clone, Copy, Debug, PartialEq, Eq, Structural)]
pub enum Step {
    /// Ask for a judgment on this pair.
    Ask(usize, usize),
    /// Nothing was recorded yet, so there is nothing to undo; ask again.
    UndoRejected,
    /// Show how to answer; ask again.
    ShowHelp,
    /// The session is over; its matches are the batch.
    Finished,
}

/// The judgment that an answer starting with `first` stands for: '1' the
/// left side wins, '2' the right side, '0' a draw, 'd' both disliked,
/// 'u' undo, 'h' help; anything else, an empty answer too, ends the session
/// (so a mistyped answer ends it as well).
pub fn parse_judgment(first: Option<char>) -> (r: Judgment)
    ensures
        r == (match first {
            Some('1') => Judgment::LeftWins,
            Some('2') => Judgment::RightWins,
            Some('0') => Judgment::Draw,
            Some('d') => Judgment::BothDisliked,
            Some('u') => Judgment::Undo,
            Some('h') => Judgment::Help,
            _ => Judgment::End,
        }),
{
    match first {
        Some('1') => Judgment::LeftWins,
        Some('2') => Judgment::RightWins,
        Some('0') => Judgment::Draw,
        Some('d') => Judgment::BothDisliked,
        Some('u') => Judgment::Undo,
        Some('h') => Judgment::Help,
        _ => Judgment::End,
    }
}

/// The views of a sequence of trails.
pub open spec fn trail_views(ts: Seq<Trail<usize>>) -> Seq<Seq<usize>> {
    ts.map_values(|t: Trail<usize>| t@)
}

/// Battle counts after the matches of `ms`, each adding one to both sides.
pub open spec fn replay_played(start: Seq<usize>, ms: Seq<Match>) -> Seq<int>
    decreases ms.len(),
{
    if ms.len() == 0 {
        start.map_values(|x: usize| x as int)
    } else {
        let p = replay_played(start, ms.drop_last());
        let m = ms.last();
        let p1 = p.update(m.a as int, p[m.a as int] + 1);
        p1.update(m.b as int, p1[m.b as int] + 1)
    }
}

/// Recent opponents after the matches of `ms`: each side's trail gets the other.
pub open spec fn replay_recent(start: Seq<Seq<usize>>, ms: Seq<Match>) -> Seq<Seq<usize>>
    decreases ms.len(),
{
    if ms.len() == 0 {
        start
    } else {
        let r = replay_recent(start, ms.drop_last());
        let m = ms.last();
        let r1 = r.update(m.a as int, push_bounded(r[m.a as int], m.b));
        r1.update(m.b as int, push_bounded(r1[m.b as int], m.a))
    }
}

/// Every battle count after `ms` fits in a `usize`.
pub open spec fn counts_fit(start: Seq<usize>, ms: Seq<Match>) -> bool {
    forall|i: int| 0 <= i < start.len() ==> #[trigger] replay_played(start, ms)[i] <= usize::MAX
}

/// The battle counts after `ms`, as machine integers.
pub open spec fn played_after(start: Seq<usize>, ms: Seq<Match>) -> Seq<usize> {
    replay_played(start, ms).map_values(|x: int| x as usize)
}

/// A pair can be drawn after `ms`: the counts fit, and so does the total
/// of the sampling weights.
pub open spec fn drawable(start: Seq<usize>, ms: Seq<Match>) -> bool {
    counts_fit(start, ms) && sum(weights_spec(played_after(start, ms))) <= u64::MAX
}

proof fn lemma_played_len(start: Seq<usize>, ms: Seq<Match>)
    requires
        valid_matches(ms, start.len()),
    ensures
        replay_played(start, ms).len() == start.len(),
    decreases ms.len(),
{
    if ms.len() > 0 {
        lemma_valid_prefix(ms, start.len());
        lemma_played_len(start, ms.drop_last());
    }
}

proof fn lemma_recent_len(recent: Seq<Seq<usize>>, ms: Seq<Match>)
    requires
        valid_matches(ms, recent.len()),
    ensures
        replay_recent(recent, ms).len() == recent.len(),
    decreases ms.len(),
{
    if ms.len() > 0 {
        lemma_valid_prefix(ms, recent.len());
        lemma_recent_len(recent, ms.drop_last());
    }
}

/// Battle counts never shrink as matches are added.
proof fn lemma_replay_grows(start: Seq<usize>, ms: Seq<Match>, k: int, i: int)
    requires
        valid_matches(ms, start.len()),
        0 <= k <= ms.len(),
        0 <= i < start.len(),
    ensures
        replay_played(start, ms.subrange(0, k))[i] <= replay_played(start, ms)[i],
    decreases ms.len(),
{
    if k < ms.len() {
        let init = ms.drop_last();
        lemma_valid_prefix(ms, start.len());
        lemma_replay_grows(start, init, k, i);
        assert(init.subrange(0, k) =~= ms.subrange(0, k));
        lemma_played_len(start, init);
    } else {
        assert(ms.subrange(0, k) =~= ms);
    }
}

/// The battle counts and recent opponents after replaying `records` on the
/// state at the start of the session; `None` when a count would not fit.
fn replay(start_played: &Vec<usize>, start_recent: &Vec<Trail<usize>>, records: &Vec<Match>) -> (r:
    Option<(Vec<usize>, Vec<Trail<usize>>)>)
    requires
        start_recent@.len() == start_played@.len(),
        valid_matches(records@, start_played@.len()),
    ensures
        r is Some <==> counts_fit(start_played@, records@),
        r matches Some((p, t)) ==> {
            &&& p@ == played_after(start_played@, records@)
            &&& trail_views(t@) == replay_recent(trail_views(start_recent@), records@)
        },
{
    let n = start_played.len();
    let ghost sp = start_played@;
    let ghost sr = trail_views(start_recent@);
    let mut played: Vec<usize> = Vec::new();
    let mut recent: Vec<Trail<usize>> = Vec::new();
    let mut i: usize = 0;
    while i < n
        invariant
            i <= n,
            n == sp.len(),
            sp == start_played@,
            sr == trail_views(start_recent@),
            start_recent@.len() == n,
            played@ == sp.subrange(0, i as int),
            trail_views(recent@) == sr.subrange(0, i as int),
        decreases n - i,
    {
        played.push(start_played[i]);
        let t = start_recent[i].copied();
        let ghost before = recent@;
        recent.push(t);
        proof {
            assert(recent@ == before.push(t));
            assert(trail_views(recent@) =~= trail_views(before).push(t@));
            assert(sr[i as int] == t@);
        }
        i += 1;
        assert(played@ =~= sp.subrange(0, i as int));
        assert(trail_views(recent@) =~= sr.subrange(0, i as int));
    }
    assert(played@ =~= sp);
    assert(trail_views(recent@) =~= sr);
    let mut k: usize = 0;
    while k < records.len()
        invariant
            k <= records@.len(),
            n == sp.len(),
            sp == start_played@,
            sr == trail_views(start_recent@),
            sr.len() == n,
            valid_matches(records@, n as nat),
            played@.len() == n,
            forall|q: int|
                0 <= q < n ==> played@[q] as int == #[trigger] replay_played(
                    sp,
                    records@.subrange(0, k as int),
                )[q],
            trail_views(recent@) == replay_recent(sr, records@.subrange(0, k as int)),
        decreases records@.len() - k,
    {
        let m = records[k];
        let ghost pre = records@.subrange(0, k as int);
        let ghost next = records@.subrange(0, k + 1);
        proof {
            assert(records@[k as int].valid(n as nat));
            assert(next.drop_last() =~= pre);
            lemma_valid_prefix(records@, n as nat);
            lemma_played_len(sp, pre);
            lemma_recent_len(sr, pre);
        }
        if played[m.a] == usize::MAX {
            proof {
                lemma_replay_grows(sp, records@, k + 1, m.a as int);
            }
            return None;
        }
        played.set(m.a, played[m.a] + 1);
        if played[m.b] == usize::MAX {
            proof {
                lemma_replay_grows(sp, records@, k + 1, m.b as int);
            }
            return None;
        }
        played.set(m.b, played[m.b] + 1);
        let ghost before = trail_views(recent@);
        recent[m.a].push(m.b);
        let ghost mid = trail_views(recent@);
        assert(mid =~= before.update(m.a as int, push_bounded(before[m.a as int], m.b)));
        recent[m.b].push(m.a);
        assert(trail_views(recent@) =~= mid.update(
            m.b as int,
            push_bounded(mid[m.b as int], m.a),
        ));
        k += 1;
    }
    proof {
        assert(records@.subrange(0, records@.len() as int) =~= records@);
        lemma_played_len(sp, records@);
        assert(played@ =~= played_after(sp, records@));
    }
    Some((played, recent))
}

/// `(i, j)` may be asked after `ms`: two distinct entities, and `j` is not
/// among `i`'s recent opponents unless every entity other than `i` is.
pub open spec fn pair_ok(start_recent: Seq<Seq<usize>>, ms: Seq<Match>, i: usize, j: usize) -> bool {
    let n = start_recent.len();
    let rec = replay_recent(start_recent, ms)[i as int];
    &&& i < n
    &&& j < n
    &&& i != j
    &&& has_alternative(n, i as int, rec) ==> !rec.contains(j)
}

/// Draws the next pair after `records`.
fn next_pair(start_played: &Vec<usize>, start_recent: &Vec<Trail<usize>>, records: &Vec<Match>) -> (r:
    Option<(usize, usize)>)
    requires
        start_played@.len() >= 2,
        start_recent@.len() == start_played@.len(),
        valid_matches(records@, start_played@.len()),
    ensures
        r is Some <==> drawable(start_played@, records@),
        r matches Some((i, j)) ==> pair_ok(trail_views(start_recent@), records@, i, j),
{
    match replay(start_played, start_recent, records) {
        None => None,
        Some((played, recent)) => {
            proof {
                lemma_recent_len(trail_views(start_recent@), records@);
                lemma_played_len(start_played@, records@);
            }
            let r = pick_2_player_ids(&played, &recent);
            proof {
                if let Some((i, _)) = r {
                    assert(recent@[i as int]@ == trail_views(recent@)[i as int]);
                }
            }
            r
        },
    }
}

/// The content of a session: the battle counts and recent opponents at its
/// start, the matches recorded so far, and the pair awaiting judgment.
pub struct SessionView {
    pub start_played: Seq<usize>,
    pub start_recent: Seq<Seq<usize>>,
    pub records: Seq<Match>,
    pub left: usize,
    pub right: usize,
}

/// A well-formed session: at least two entities, recorded matches between
/// two of them, and a pair of two distinct entities.
pub open spec fn session_ok(v: SessionView) -> bool {
    let n = v.start_played.len();
    &&& n >= 2
    &&& v.start_recent.len() == n
    &&& valid_matches(v.records, n)
    &&& v.left < n
    &&& v.right < n
    &&& v.left != v.right
}

pub struct Session {
    start_played: Vec<usize>,
    start_recent: Vec<Trail<usize>>,
    records: Vec<Match>,
    left: usize,
    right: usize,
}

impl View for Session {
    type V = SessionView;

    closed spec fn view(&self) -> SessionView {
        SessionView {
            start_played: self.start_played@,
            start_recent: trail_views(self.start_recent@),
            records: self.records@,
            left: self.left,
            right: self.right,
        }
    }
}

impl Session {
    pub open spec fn wf(&self) -> bool {
        session_ok(self@)
    }

    /// Opens a session on a pool whose entity `i` has played `played[i]`
    /// battles and recently met `recent[i]`, and draws its first pair.
    /// `None` when no pair can be drawn (the weights' total does not fit).
    pub fn start(played: Vec<usize>, recent: Vec<Trail<usize>>) -> (r: Option<Session>)
        requires
            played@.len() >= 2,
            recent@.len() == played@.len(),
        ensures
            r is Some <==> drawable(played@, Seq::empty()),
            r matches Some(s) ==> {
                &&& s.wf()
                &&& s@.start_played == played@
                &&& s@.start_recent == trail_views(recent@)
                &&& s@.records == Seq::<Match>::empty()
                &&& pair_ok(s@.start_recent, s@.records, s@.left, s@.right)
            },
    {
        let records: Vec<Match> = Vec::new();
        match next_pair(&played, &recent, &records) {
            None => None,
            Some((left, right)) => Some(
                Session { start_played: played, start_recent: recent, records, left, right },
            ),
        }
    }

    /// The pair awaiting judgment.
    pub fn pair(&self) -> (r: (usize, usize))
        ensures
            r == (self@.left, self@.right),
    {
        (self.left, self.right)
    }

    /// The matches recorded so far, in order.
    pub fn records(&self) -> (r: &Vec<Match>)
        ensures
            r@ == self@.records,
    {
        &self.records
    }

    /// Ends the session and hands over its batch of matches.
    pub fn into_records(self) -> (r: Vec<Match>)
        ensures
            r@ == self@.records,
    {
        self.records
    }

    /// Takes one judgment on the current pair.
    ///
    /// An outcome is recorded as a match of the current pair and the next
    /// pair is drawn; when none can be drawn the session finishes with the
    /// match kept. `Undo` drops the last recorded match and asks for its pair
    /// again; with nothing recorded it is rejected. `Help` and `End` change
    /// nothing.
    pub fn step(&mut self, j: Judgment) -> (r: Step)
        requires
            old(self).wf(),
        ensures
            final(self).wf(),
            final(self)@.start_played == old(self)@.start_played,
            final(self)@.start_recent == old(self)@.start_recent,
            j == Judgment::Help ==> r == Step::ShowHelp && final(self)@ == old(self)@,
            j == Judgment::End ==> r == Step::Finished && final(self)@ == old(self)@,
            j == Judgment::Undo && old(self)@.records.len() == 0 ==> r == Step::UndoRejected
                && final(self)@ == old(self)@,
            j == Judgment::Undo && old(self)@.records.len() > 0 ==> {
                let m = old(self)@.records.last();
                &&& r == Step::Ask(m.a, m.b)
                &&& final(self)@.records == old(self)@.records.drop_last()
                &&& final(self)@.left == m.a
                &&& final(self)@.right == m.b
            },
            outcome_of(j) matches Some(res) ==> {
                let ms = old(self)@.records.push(
                    Match { a: old(self)@.left, b: old(self)@.right, res },
                );
                &&& final(self)@.records == ms
                &&& r == Step::Finished <==> !drawable(old(self)@.start_played, ms)
                &&& r matches Step::Ask(i, k) ==> {
                    &&& i == final(self)@.left
                    &&& k == final(self)@.right
                    &&& pair_ok(old(self)@.start_recent, ms, i, k)
                }
                &&& r is Ask || r is Finished
            },
    {
        let res = match j {
            Judgment::LeftWins => MatchResult::AWin,
            Judgment::RightWins => MatchResult::BWin,
            Judgment::Draw => MatchResult::Draw,
            Judgment::BothDisliked => MatchResult::BothLose,
            Judgment::Help => {
                return Step::ShowHelp;
            },
            Judgment::End => {
                return Step::Finished;
            },
            Judgment::Undo => {
                if self.records.len() == 0 {
                    return Step::UndoRejected;
                }
                let ghost before = self.records@;
                let m = self.records.pop().unwrap();
                proof {
                    lemma_valid_prefix(before, self.start_played@.len());
                }
                self.left = m.a;
                self.right = m.b;
                return Step::Ask(m.a, m.b);
            },
        };
        let ghost before = self.records@;
        self.records.push(Match::new(self.left, self.right, res));
        proof {
            let n = self.start_played@.len();
            assert forall|k: int| 0 <= k < self.records@.len() implies #[trigger] self.records@[
                k
            ].valid(n) by {
                if k < before.len() {
                    assert(before[k].valid(n));
                }
            }
        }
        match next_pair(&self.start_played, &self.start_recent, &self.records) {
            None => Step::Finished,
            Some((left, right)) => {
                self.left = left;
                self.right = right;
                Step::Ask(left, right)
            },
        }
    }
}

/// An undo right after a recorded judgment gives back the session as it
/// was before that judgment: the same matches and the same pair. `v1` is the
/// view after the judgment and `v2` the view after the undo, as described by
/// `Session::step`.
pub proof fn lemma_undo_restores(
    v0: SessionView,
    v1: SessionView,
    v2: SessionView,
    res: MatchResult,
)
    requires
        v1.start_played == v0.start_played,
        v1.start_recent == v0.start_recent,
        v1.records == v0.records.push(Match { a: v0.left, b: v0.right, res }),
        v2.start_played == v1.start_played,
        v2.start_recent == v1.start_recent,
        v2.records == v1.records.drop_last(),
        v2.left == v1.records.last().a,
        v2.right == v1.records.last().b,
    ensures
        v2 == v0,
{
    assert(v2.records =~= v0.records);
}

} // verus!
