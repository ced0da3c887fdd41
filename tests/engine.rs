use glicko_rank::battle::{parse_judgment, Judgment, Session, Step};
use glicko_rank::glicko::participants;
use glicko_rank::history::{snapshot, update_history, History};
use glicko_rank::ranking::{calculate_ranking, get_slice_in_ranked_chara, order_key, RankKey};
use glicko_rank::sampler::{pick_2_player_ids, sampling_weights, second_weights};
use glicko_rank::structs::{Battle, Match, MatchResult};
use glicko_rank::trail::{Trail, MAX_HIST};

fn key(rating: f64, deviation: f64) -> RankKey {
    RankKey {
        rati: order_key(rating.to_bits()),
        devi: order_key(deviation.to_bits()),
    }
}

fn trail_of(ids: &[usize]) -> Trail<usize> {
    Trail::from_vec(ids.to_vec())
}

#[test]
fn order_key_follows_float_order() {
    let values = [-1500.0f64, -1.0, -0.5, 0.0, 0.25, 1.0, 1500.0, 1e300];
    for w in values.windows(2) {
        assert!(order_key(w[0].to_bits()) < order_key(w[1].to_bits()));
    }
    assert_eq!(order_key(1500.0f64.to_bits()), order_key(1500.0f64.to_bits()));
}

#[test]
fn trail_evicts_oldest() {
    let mut t: Trail<usize> = Trail::new();
    assert!(t.is_empty());
    for i in 0..7 {
        t.push(i);
    }
    assert_eq!(t.len(), MAX_HIST);
    assert_eq!(t.as_vec(), &vec![2, 3, 4, 5, 6]);
    assert_eq!(*t.get(0), 2);
    let u = Trail::from_vec(vec![1, 2, 3, 4, 5, 6, 7, 8]);
    assert_eq!(u.as_vec(), &vec![4, 5, 6, 7, 8]);
    assert_eq!(u.copied().as_vec(), &vec![4, 5, 6, 7, 8]);
}

#[test]
fn scores_and_mirror() {
    assert_eq!(MatchResult::AWin.scores(), (2, 0));
    assert_eq!(MatchResult::BWin.scores(), (0, 2));
    assert_eq!(MatchResult::Draw.scores(), (1, 1));
    assert_eq!(MatchResult::BothLose.scores(), (0, 0));
    assert_eq!(MatchResult::AWin.mirror(), MatchResult::BWin);
    assert_eq!(MatchResult::BWin.mirror(), MatchResult::AWin);
    assert_eq!(MatchResult::Draw.mirror(), MatchResult::Draw);
    assert_eq!(MatchResult::BothLose.mirror(), MatchResult::BothLose);
}

#[test]
fn both_lose_scores_below_draw() {
    let (a_lose, b_lose) = MatchResult::BothLose.scores();
    let (a_draw, b_draw) = MatchResult::Draw.scores();
    assert!(a_lose < a_draw);
    assert!(b_lose < b_draw);
}

#[test]
fn mirrored_outcome_swaps_scores() {
    for r in [MatchResult::AWin, MatchResult::BWin, MatchResult::Draw, MatchResult::BothLose] {
        let (a, b) = r.scores();
        assert_eq!(r.mirror().scores(), (b, a));
    }
}

#[test]
fn two_entity_standings_after_a_win() {
    // A beat B: A's rating rose above 1500, B's fell below it.
    let keys = vec![key(1662.3, 290.3), key(1337.7, 290.3)];
    let (order, ranks) = calculate_ranking(&keys);
    assert_eq!(order, vec![0, 1]);
    assert_eq!(ranks, vec![1, 2]);
}

#[test]
fn equal_ratings_share_a_rank() {
    let keys = vec![
        key(1500.0, 350.0),
        key(1600.0, 200.0),
        key(1500.0, 350.0),
        key(1500.0, 100.0),
        key(1400.0, 80.0),
    ];
    let (order, ranks) = calculate_ranking(&keys);
    // descending rating, then descending deviation, then descending id
    assert_eq!(order, vec![1, 2, 0, 3, 4]);
    assert_eq!(ranks, vec![2, 1, 2, 2, 3]);
    assert_eq!(*ranks.iter().max().unwrap(), 3);
}

#[test]
fn ranking_of_empty_pool() {
    let (order, ranks) = calculate_ranking(&Vec::new());
    assert!(order.is_empty());
    assert!(ranks.is_empty());
}

#[test]
fn all_equal_ratings_rank_one() {
    let keys = vec![key(1500.0, 350.0); 4];
    let (order, ranks) = calculate_ranking(&keys);
    assert_eq!(order, vec![3, 2, 1, 0]);
    assert_eq!(ranks, vec![1, 1, 1, 1]);
}

#[test]
fn slice_around_an_entity() {
    let order = vec![4, 2, 0, 3, 1];
    assert_eq!(get_slice_in_ranked_chara(4, &order), vec![4, 2, 0]);
    assert_eq!(get_slice_in_ranked_chara(0, &order), vec![2, 0, 3]);
    assert_eq!(get_slice_in_ranked_chara(1, &order), vec![0, 3, 1]);
    assert_eq!(get_slice_in_ranked_chara(9, &order), Vec::<usize>::new());
    assert_eq!(get_slice_in_ranked_chara(1, &vec![0, 1]), vec![0, 1]);
}

#[test]
fn weights_follow_the_deficit() {
    assert_eq!(sampling_weights(&vec![3, 1, 0, 3]), Some(vec![1, 3, 4, 1]));
    assert_eq!(sampling_weights(&vec![0, 0]), Some(vec![1, 1]));
}

#[test]
fn weights_that_do_not_fit() {
    assert_eq!(sampling_weights(&vec![usize::MAX, 0]), None);
    assert!(pick_2_player_ids(&vec![usize::MAX, 0], &vec![Trail::new(), Trail::new()]).is_none());
}

#[test]
fn second_pick_weights() {
    let w = vec![1, 3, 4, 1];
    assert_eq!(second_weights(&w, 1, &trail_of(&[2])), vec![1, 0, 0, 1]);
    // every other entity is a recent opponent: only the first pick is left out
    assert_eq!(second_weights(&w, 1, &trail_of(&[0, 2, 3])), vec![1, 0, 4, 1]);
}

#[test]
fn sampler_avoids_self_and_recent_opponents() {
    let played = vec![2, 0, 1, 2, 0];
    let recent = vec![
        trail_of(&[1, 2]),
        trail_of(&[0]),
        trail_of(&[0, 3]),
        trail_of(&[2]),
        trail_of(&[]),
    ];
    for _ in 0..2000 {
        let (i, j) = pick_2_player_ids(&played, &recent).unwrap();
        assert!(i < 5 && j < 5);
        assert_ne!(i, j);
        assert!(!recent[i].as_vec().contains(&j));
    }
}

#[test]
fn sampler_falls_back_when_all_are_recent() {
    let played = vec![1, 1];
    let recent = vec![trail_of(&[1]), trail_of(&[0])];
    for _ in 0..200 {
        let (i, j) = pick_2_player_ids(&played, &recent).unwrap();
        assert!((i, j) == (0, 1) || (i, j) == (1, 0));
    }
}

#[test]
fn sampler_draws_every_entity_first() {
    let played = vec![0, 0, 0];
    let recent = vec![Trail::new(), Trail::new(), Trail::new()];
    let mut seen = [false; 3];
    for _ in 0..2000 {
        let (i, _) = pick_2_player_ids(&played, &recent).unwrap();
        seen[i] = true;
    }
    assert_eq!(seen, [true, true, true]);
}

fn pool(n: usize) -> Vec<History<f64>> {
    (0..n).map(|_| History::new()).collect()
}

#[test]
fn history_counts_each_outcome() {
    let mut hists = pool(3);
    let records = vec![
        Match::new(0, 1, MatchResult::AWin),
        Match::new(1, 2, MatchResult::BWin),
        Match::new(0, 2, MatchResult::Draw),
        Match::new(2, 1, MatchResult::BothLose),
    ];
    update_history(&mut hists, &records);
    assert_eq!((hists[0].wins, hists[0].loss, hists[0].draw), (1, 0, 1));
    assert_eq!((hists[1].wins, hists[1].loss, hists[1].draw), (0, 3, 0));
    assert_eq!((hists[2].wins, hists[2].loss, hists[2].draw), (1, 1, 1));
    assert_eq!(
        hists[1].recent.as_vec(),
        &vec![
            Battle::new(0, MatchResult::BWin),
            Battle::new(2, MatchResult::BWin),
            Battle::new(2, MatchResult::BothLose),
        ]
    );
    assert_eq!(hists[2].recent_opponents().as_vec(), &vec![1, 0, 1]);
}

#[test]
fn battles_grow_by_two_per_match() {
    let mut hists = pool(4);
    hists[3].wins = 7;
    let before: usize = hists.iter().map(|h| h.battles()).sum();
    let records = vec![
        Match::new(0, 1, MatchResult::AWin),
        Match::new(2, 3, MatchResult::Draw),
        Match::new(3, 0, MatchResult::BothLose),
    ];
    update_history(&mut hists, &records);
    let after: usize = hists.iter().map(|h| h.battles()).sum();
    assert_eq!(after, before + 2 * records.len());
}

#[test]
fn recent_keeps_five_newest() {
    let mut hists = pool(2);
    let records: Vec<Match> = (0..7).map(|_| Match::new(0, 1, MatchResult::AWin)).collect();
    update_history(&mut hists, &records);
    assert_eq!(hists[0].wins, 7);
    assert_eq!(hists[1].loss, 7);
    assert_eq!(hists[0].recent.len(), 5);
    assert_eq!(hists[1].recent.len(), 5);
}

#[test]
fn snapshot_appends_rating_and_rank() {
    let mut hists = pool(2);
    for s in 0..6 {
        snapshot(&mut hists, &vec![1500.0 + s as f64, 1400.0], &vec![1, 2 + s]);
    }
    assert_eq!(hists[0].old_rate.as_vec(), &vec![1501.0, 1502.0, 1503.0, 1504.0, 1505.0]);
    assert_eq!(hists[1].old_rank.as_vec(), &vec![3, 4, 5, 6, 7]);
    assert_eq!(hists[1].rank_change(4), Some(1));
    assert_eq!(hists[0].rank_change(1), Some(0));
    assert_eq!(pool(1)[0].rank_change(1), None);
}

#[test]
fn win_percent_rounds_down() {
    let mut h: History<f64> = History::new();
    assert_eq!(h.win_percent(), 0);
    h.wins = 2;
    h.loss = 1;
    assert_eq!(h.win_percent(), 66);
    h.draw = 1;
    assert_eq!(h.win_percent(), 50);
}

#[test]
fn who_takes_part() {
    let records = vec![Match::new(0, 2, MatchResult::AWin), Match::new(2, 3, MatchResult::Draw)];
    assert_eq!(participants(&records, 5), vec![true, false, true, true, false]);
    assert_eq!(participants(&Vec::new(), 2), vec![false, false]);
}

#[test]
fn judgment_from_answer() {
    assert_eq!(parse_judgment(Some('1')), Judgment::LeftWins);
    assert_eq!(parse_judgment(Some('2')), Judgment::RightWins);
    assert_eq!(parse_judgment(Some('0')), Judgment::Draw);
    assert_eq!(parse_judgment(Some('d')), Judgment::BothDisliked);
    assert_eq!(parse_judgment(Some('u')), Judgment::Undo);
    assert_eq!(parse_judgment(Some('h')), Judgment::Help);
    assert_eq!(parse_judgment(Some('x')), Judgment::End);
    assert_eq!(parse_judgment(None), Judgment::End);
}

fn fresh_session(n: usize) -> Session {
    let played = vec![0; n];
    let recent = (0..n).map(|_| Trail::new()).collect();
    Session::start(played, recent).unwrap()
}

#[test]
fn session_records_and_undoes() {
    let mut s = fresh_session(4);
    assert_eq!(s.step(Judgment::Undo), Step::UndoRejected);
    let first = s.pair();
    assert_ne!(first.0, first.1);
    match s.step(Judgment::LeftWins) {
        Step::Ask(i, j) => {
            assert_ne!(i, j);
            assert_eq!(s.pair(), (i, j));
            // the new first pick does not meet a recent opponent again
            if i == first.0 {
                assert_ne!(j, first.1);
            }
            if i == first.1 {
                assert_ne!(j, first.0);
            }
        }
        other => panic!("unexpected step {:?}", other),
    }
    assert_eq!(s.records(), &vec![Match::new(first.0, first.1, MatchResult::AWin)]);
    assert_eq!(s.step(Judgment::Help), Step::ShowHelp);
    assert_eq!(s.step(Judgment::Undo), Step::Ask(first.0, first.1));
    assert_eq!(s.pair(), first);
    assert!(s.records().is_empty());
    assert!(matches!(s.step(Judgment::BothDisliked), Step::Ask(_, _)));
    assert!(matches!(s.step(Judgment::Draw), Step::Ask(_, _)));
    assert_eq!(s.step(Judgment::End), Step::Finished);
    let records = s.into_records();
    assert_eq!(records.len(), 2);
    assert_eq!(records[0].res, MatchResult::BothLose);
    assert_eq!(records[1].res, MatchResult::Draw);
}

#[test]
fn session_on_a_pool_of_two() {
    let mut s = fresh_session(2);
    for _ in 0..10 {
        match s.step(Judgment::RightWins) {
            Step::Ask(i, j) => assert!((i, j) == (0, 1) || (i, j) == (1, 0)),
            other => panic!("unexpected step {:?}", other),
        }
    }
    assert_eq!(s.records().len(), 10);
}

#[test]
fn session_that_cannot_draw() {
    let s = Session::start(vec![usize::MAX, 0], vec![Trail::new(), Trail::new()]);
    assert!(s.is_none());
}
