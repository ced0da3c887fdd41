use glicko_rank::history::{update_history, History};
use glicko_rank::roster::{new_ids, reconcile, Source};
use glicko_rank::structs::{Battle, Match, MatchResult};

fn names(v: &[&str]) -> Vec<String> {
    v.iter().map(|s| s.to_string()).collect()
}

#[test]
fn reconcile_without_stored_pool() {
    let seed = names(&["ann", "bob", "cy"]);
    assert_eq!(
        reconcile(&seed, &Vec::new()),
        vec![Source::Fresh, Source::Fresh, Source::Fresh]
    );
}

#[test]
fn reconcile_keeps_seed_order_then_extras() {
    let seed = names(&["ann", "bob", "cy", "dee"]);
    let stored = names(&["bob", "old", "ann", "gone"]);
    assert_eq!(
        reconcile(&seed, &stored),
        vec![
            Source::Stored(2),
            Source::Stored(0),
            Source::Fresh,
            Source::Fresh,
            Source::Stored(1),
            Source::Stored(3),
        ]
    );
}

#[test]
fn new_ids_of_stored_entities() {
    let sources = vec![Source::Stored(2), Source::Stored(0), Source::Fresh, Source::Stored(1)];
    assert_eq!(new_ids(&sources, 4), vec![Some(1), Some(3), Some(0), None]);
}

#[test]
fn renumbering_drops_removed_opponents() {
    let mut h: History<f64> = History::new();
    h.recent.push(Battle::new(0, MatchResult::AWin));
    h.recent.push(Battle::new(3, MatchResult::BWin));
    h.recent.push(Battle::new(9, MatchResult::Draw));
    h.recent.push(Battle::new(2, MatchResult::BothLose));
    h.renumber_opponents(&vec![Some(1), Some(3), Some(0), None]);
    assert_eq!(
        h.recent.as_vec(),
        &vec![Battle::new(1, MatchResult::AWin), Battle::new(0, MatchResult::BothLose)]
    );
}

#[test]
fn swapped_match_records_the_same() {
    for r in [MatchResult::AWin, MatchResult::BWin, MatchResult::Draw, MatchResult::BothLose] {
        let mut one: Vec<History<f64>> = (0..3).map(|_| History::new()).collect();
        let mut two: Vec<History<f64>> = (0..3).map(|_| History::new()).collect();
        update_history(&mut one, &vec![Match::new(0, 2, r)]);
        update_history(&mut two, &vec![Match::new(2, 0, r.mirror())]);
        for i in 0..3 {
            assert_eq!(
                (one[i].wins, one[i].loss, one[i].draw),
                (two[i].wins, two[i].loss, two[i].draw)
            );
            assert_eq!(one[i].recent.as_vec(), two[i].recent.as_vec());
        }
    }
}
