use shadow_cost_rust::shadow_cost::{Cards, CostSim, Trial, TrialCache, XorRand, COST_MAX};
use std::rc::Rc;

fn cards_of(costs: &[u32]) -> Cards {
    let mut cards = Cards::new();
    for c in costs {
        cards.add(*c);
    }
    cards
}

fn counts(cards: &Cards) -> Vec<u32> {
    (1..=COST_MAX).map(|c| cards.count(c)).collect()
}

fn two_of_each_up_to_nine() -> Cards {
    let mut deck = Cards::new();
    for i in 1..10 {
        deck.add(i);
        deck.add(i);
    }
    deck
}

fn mean(t: &Trial) -> f64 {
    t.loss() as f64 / t.count() as f64
}

#[test]
fn cost_sim() {
    let mut rng = XorRand::new();
    let sim = CostSim::new(30, 10);
    let best = sim.search_deck(10, 10, &mut rng);
    sim.search_hand(best.deck(), 10, 10, &mut rng);
}

#[test]
fn cache_starts_empty() {
    let cache = TrialCache::new(10);
    assert_eq!(0, cache.len());
    assert_eq!(10, cache.turn_max());
    assert!(cache.top_group(8).is_empty());
    assert!(cache.get(&Cards::new()).is_none());
}

#[test]
fn cache_extends_the_trial_of_a_key_seen_before() {
    let mut rng = XorRand::new();
    let mut cache = TrialCache::new(10);
    let deck = Rc::new(two_of_each_up_to_nine());
    let hand = Rc::new(Cards::new());
    cache.trial(&deck, &hand, &deck, 10, &mut rng);
    assert_eq!(1, cache.len());
    assert_eq!(10, cache.get(&deck).unwrap().count());
    assert_eq!(63, cache.get(&deck).unwrap().loss());
    cache.trial(&deck, &hand, &deck, 10, &mut rng);
    assert_eq!(1, cache.len());
    let stored = cache.get(&two_of_each_up_to_nine()).unwrap();
    assert_eq!(20, stored.count());
    assert_eq!(117, stored.loss());
    assert_eq!(1925903427, rng.state());
    let top = cache.top_group(8);
    assert_eq!(2, top.len());
    assert_eq!((20, 117), (top[0].count(), top[0].loss()));
    assert_eq!((10, 63), (top[1].count(), top[1].loss()));
}

#[test]
fn cache_keeps_the_first_pair_of_a_key() {
    let mut rng = XorRand::new();
    let mut cache = TrialCache::new(5);
    let key = Rc::new(cards_of(&[1]));
    let deck = Rc::new(two_of_each_up_to_nine());
    let first_hand = Rc::new(cards_of(&[1, 2, 3]));
    let other_hand = Rc::new(cards_of(&[9, 9, 9]));
    cache.trial(&key, &first_hand, &deck, 2, &mut rng);
    cache.trial(&key, &other_hand, &deck, 2, &mut rng);
    assert_eq!(1, cache.len());
    let stored = cache.get(&key).unwrap();
    assert_eq!(4, stored.count());
    assert!(stored.hand().same_as(&first_hand));
}

#[test]
fn cache_keeps_keys_apart() {
    let mut rng = XorRand::new();
    let mut cache = TrialCache::new(5);
    let deck = Rc::new(two_of_each_up_to_nine());
    let a = Rc::new(cards_of(&[1, 2, 3]));
    let b = Rc::new(cards_of(&[1, 2, 4]));
    cache.trial(&a, &a, &deck, 3, &mut rng);
    cache.trial(&b, &b, &deck, 4, &mut rng);
    assert_eq!(2, cache.len());
    assert_eq!(3, cache.get(&a).unwrap().count());
    assert_eq!(4, cache.get(&b).unwrap().count());
    assert!(cache.get(&cards_of(&[1, 2, 5])).is_none());
}

#[test]
fn deck_trial_records_a_changed_deck_with_an_empty_hand() {
    let mut rng = XorRand::new();
    let mut cache = TrialCache::new(10);
    let parent = Rc::new(Trial::new(Rc::new(Cards::new()), Rc::new(two_of_each_up_to_nine())));
    cache.deck_trial(&parent, 10, &mut rng);
    assert_eq!(1, cache.len());
    let top = cache.top_group(1);
    assert_eq!(1, top.len());
    assert_eq!(vec![2, 2, 2, 1, 2, 2, 2, 2, 2, 1], counts(&top[0].deck()));
    assert_eq!(0, top[0].hand().size());
    assert_eq!(18, top[0].deck().size());
    assert_eq!((10, 72), (top[0].count(), top[0].loss()));
    assert!(cache.get(&top[0].deck()).is_some());
    assert_eq!(3420946093, rng.state());
    assert_eq!(0, parent.count());
}

#[test]
fn hand_trial_records_a_pair_with_cards_exchanged() {
    let mut rng = XorRand::new();
    let mut cache = TrialCache::new(10);
    let parent = Rc::new(Trial::new(
        Rc::new(cards_of(&[1, 2, 3])),
        Rc::new(two_of_each_up_to_nine()),
    ));
    cache.hand_trial(&parent, 10, &mut rng);
    assert_eq!(1, cache.len());
    let top = cache.top_group(1);
    assert_eq!(vec![0, 0, 0, 1, 1, 0, 0, 0, 1, 0], counts(&top[0].hand()));
    assert_eq!(vec![3, 3, 3, 1, 1, 2, 2, 2, 1, 0], counts(&top[0].deck()));
    assert_eq!((10, 44), (top[0].count(), top[0].loss()));
    assert!(cache.get(&top[0].hand()).is_some());
    assert_eq!(1655437389, rng.state());
}

#[test]
fn top_group_is_sorted_by_mean_loss_and_capped() {
    let mut rng = XorRand::from_seed(31);
    let mut cache = TrialCache::new(10);
    let parent = Rc::new(Trial::new(Rc::new(Cards::new()), Rc::new(two_of_each_up_to_nine())));
    for _ in 0..20 {
        cache.deck_trial(&parent, 7, &mut rng);
    }
    let all = cache.top_group(1000);
    assert_eq!(20, all.len());
    for pair in all.windows(2) {
        assert!(!pair[1].better_than(&pair[0]));
        assert!(mean(&pair[0]) <= mean(&pair[1]));
    }
    let losses: Vec<u64> = all.iter().map(|t| t.loss()).collect();
    assert_eq!(
        vec![37, 37, 38, 40, 41, 43, 43, 43, 44, 44, 45, 47, 47, 48, 48, 49, 49, 51, 51, 57],
        losses
    );
    let three = cache.top_group(3);
    assert_eq!(3.min(all.len()), three.len());
    for (a, b) in three.iter().zip(all.iter()) {
        assert!(Rc::ptr_eq(a, b));
    }
    assert!(cache.top_group(0).is_empty());
}

#[test]
fn search_deck_yields_a_scored_winner() {
    let mut rng = XorRand::new();
    let best = CostSim::new(30, 10).search_deck(1, 5, &mut rng);
    assert!(best.count() > 0);
    assert!(mean(&best) >= 0.0);
    assert_eq!(0, best.hand().size());
    assert_eq!(30, best.deck().size());
    assert_eq!(vec![2, 2, 4, 4, 5, 3, 5, 3, 1, 1], counts(&best.deck()));
    assert_eq!((5, 22), (best.count(), best.loss()));
    assert_eq!(3323035519, rng.state());
}

#[test]
fn search_hand_splits_the_deck_into_hand_and_deck() {
    let mut rng = XorRand::new();
    let sim = CostSim::new(30, 10);
    let deck = sim.search_deck(1, 5, &mut rng).deck();
    let best = sim.search_hand(deck.clone(), 1, 5, &mut rng);
    assert_eq!(3, best.hand().size());
    assert_eq!(27, best.deck().size());
    assert_eq!(vec![0, 0, 1, 0, 0, 0, 1, 1, 0, 0], counts(&best.hand()));
    assert_eq!(vec![2, 2, 3, 4, 5, 3, 4, 2, 1, 1], counts(&best.deck()));
    for cost in 1..=COST_MAX {
        assert_eq!(deck.count(cost), best.hand().count(cost) + best.deck().count(cost));
    }
    assert_eq!((5, 33), (best.count(), best.loss()));
    assert_eq!(2564803046, rng.state());
}

#[test]
fn search_over_ten_generations() {
    let mut rng = XorRand::new();
    let sim = CostSim::new(30, 10);
    let deck_winner = sim.search_deck(10, 10, &mut rng);
    assert_eq!(vec![3, 4, 5, 5, 5, 2, 5, 0, 0, 1], counts(&deck_winner.deck()));
    assert_eq!((10, 40), (deck_winner.count(), deck_winner.loss()));
    assert_eq!(1110810176, rng.state());
    let hand_winner = sim.search_hand(deck_winner.deck(), 10, 10, &mut rng);
    assert_eq!(vec![0, 1, 0, 1, 0, 1, 0, 0, 0, 0], counts(&hand_winner.hand()));
    assert_eq!(vec![3, 3, 5, 4, 5, 1, 5, 0, 0, 1], counts(&hand_winner.deck()));
    assert_eq!((10, 35), (hand_winner.count(), hand_winner.loss()));
    assert_eq!(3116180478, rng.state());
}

#[test]
fn search_without_generations_scores_the_seed_only() {
    let mut rng = XorRand::new();
    let sim = CostSim::new(30, 10);
    let deck_winner = sim.search_deck(0, 3, &mut rng);
    assert_eq!(vec![3, 2, 5, 4, 4, 3, 5, 2, 1, 1], counts(&deck_winner.deck()));
    assert_eq!((3, 21), (deck_winner.count(), deck_winner.loss()));
    assert_eq!(1218236468, rng.state());
    let hand_winner = sim.search_hand(deck_winner.deck(), 0, 3, &mut rng);
    assert_eq!(vec![0, 0, 0, 1, 0, 1, 1, 0, 0, 0], counts(&hand_winner.hand()));
    assert_eq!((3, 12), (hand_winner.count(), hand_winner.loss()));
    assert_eq!(2092223256, rng.state());
}

#[test]
fn can_search_tests_the_limits() {
    assert!(CostSim::new(30, 10).can_search(100, 100));
    assert!(CostSim::new(13, 10).can_search(1, 1));
    assert!(!CostSim::new(12, 10).can_search(1, 1));
    assert!(!CostSim::new(30, 10).can_search(1, 0));
    assert!(CostSim::new(3, 0).can_search(0, 1));
    assert!(CostSim::new(3, 0).can_search(1, 1));
    assert!(!CostSim::new(2, 0).can_search(1, 1));
    assert!(CostSim::new(30, 10).can_search(0, u32::MAX / 55));
    assert!(!CostSim::new(30, 10).can_search(0, u32::MAX / 55 + 1));
    assert!(CostSim::new(30, 0).can_search(1, u32::MAX / 9));
    assert!(!CostSim::new(30, 0).can_search(1, u32::MAX / 9 + 1));
    assert!(!CostSim::new(30, 10).can_search(1, u32::MAX / 9));
    assert!(!CostSim::new(u32::MAX, u32::MAX).can_search(1, 1));
    assert!(!CostSim::new(u32::MAX, u32::MAX - 3).can_search(u32::MAX, u32::MAX));
}

#[test]
fn search_runs_both_phases() {
    let mut rng = XorRand::new();
    let (deck_winner, hand_winner) = CostSim::new(30, 10).search(1, 5, &mut rng).unwrap();
    assert_eq!(vec![2, 2, 4, 4, 5, 3, 5, 3, 1, 1], counts(&deck_winner.deck()));
    assert_eq!((5, 22), (deck_winner.count(), deck_winner.loss()));
    assert_eq!(vec![0, 0, 1, 0, 0, 0, 1, 1, 0, 0], counts(&hand_winner.hand()));
    assert_eq!(vec![2, 2, 3, 4, 5, 3, 4, 2, 1, 1], counts(&hand_winner.deck()));
    assert_eq!((5, 33), (hand_winner.count(), hand_winner.loss()));
    assert_eq!(2564803046, rng.state());
}

#[test]
fn search_outside_the_limits_does_nothing() {
    let mut rng = XorRand::new();
    assert!(CostSim::new(12, 10).search(1, 5, &mut rng).is_none());
    assert!(CostSim::new(30, 10).search(1, 0, &mut rng).is_none());
    assert_eq!(9, rng.state());
}

#[test]
fn search_on_the_smallest_deck() {
    let mut rng = XorRand::new();
    let (deck_winner, hand_winner) = CostSim::new(3, 0).search(2, 1, &mut rng).unwrap();
    assert_eq!(3, deck_winner.deck().size());
    assert_eq!(0, deck_winner.loss());
    assert_eq!(3, hand_winner.hand().size());
    assert_eq!(0, hand_winner.deck().size());
    assert_eq!(0, hand_winner.loss());
}

#[test]
fn ranking_holds_every_snapshot_of_level_candidates() {
    let mut rng = XorRand::new();
    let mut cache = TrialCache::new(5);
    let hand = Rc::new(Cards::new());
    let eight = Rc::new(cards_of(&[1; 8]));
    let nine = Rc::new(cards_of(&[1; 9]));
    cache.trial(&eight, &hand, &eight, 4, &mut rng);
    cache.trial(&nine, &hand, &nine, 4, &mut rng);
    assert_eq!(2, cache.len());
    let top = cache.top_group(8);
    assert_eq!(2, top.len());
    assert_eq!((8, 4, 28), (top[0].deck().size(), top[0].count(), top[0].loss()));
    assert_eq!((9, 4, 28), (top[1].deck().size(), top[1].count(), top[1].loss()));
    assert!(top[0].level_with(&top[1]));
    assert_eq!(1, cache.top_group(1).len());
    assert_eq!(8, cache.top_group(1)[0].deck().size());
}

#[test]
fn ranking_grows_by_one_snapshot_with_every_batch() {
    let mut rng = XorRand::from_seed(4);
    let mut cache = TrialCache::new(10);
    let hand = Rc::new(Cards::new());
    let deck = Rc::new(two_of_each_up_to_nine());
    for batch in 1..=12usize {
        cache.trial(&deck, &hand, &deck, 2, &mut rng);
        assert_eq!(batch, cache.top_group(100).len());
        assert_eq!(1, cache.len());
    }
    let stored = cache.get(&deck).unwrap();
    assert_eq!(24, stored.count());
    let top = cache.top_group(100);
    assert!(top.iter().any(|t| t.count() == 24 && t.loss() == stored.loss()));
    for games in (2..=24u32).step_by(2) {
        assert_eq!(1, top.iter().filter(|t| t.count() == games).count());
    }
}

#[test]
fn cache_takes_a_batch_of_no_games_on_a_key_with_games() {
    let mut rng = XorRand::new();
    let mut cache = TrialCache::new(10);
    let hand = Rc::new(Cards::new());
    let deck = Rc::new(two_of_each_up_to_nine());
    cache.trial(&deck, &hand, &deck, 1, &mut rng);
    let state = rng.state();
    cache.trial(&deck, &hand, &deck, 0, &mut rng);
    assert_eq!(state, rng.state());
    assert_eq!(1743633486, rng.state());
    assert_eq!(1, cache.len());
    let stored = cache.get(&deck).unwrap();
    assert_eq!((1, 6), (stored.count(), stored.loss()));
    let top = cache.top_group(8);
    assert_eq!(2, top.len());
    assert_eq!((1, 6), (top[0].count(), top[0].loss()));
    assert_eq!((1, 6), (top[1].count(), top[1].loss()));
}

#[test]
fn can_search_on_tests_the_limits_for_a_deck() {
    let sim = CostSim::new(30, 10);
    assert!(sim.can_search_on(&two_of_each_up_to_nine(), 10, 10));
    assert!(sim.can_search_on(&cards_of(&[1; 13]), 1, 1));
    assert!(!sim.can_search_on(&cards_of(&[1; 12]), 1, 1));
    assert!(!sim.can_search_on(&two_of_each_up_to_nine(), 1, 0));
    assert!(!sim.can_search_on(&two_of_each_up_to_nine(), 0, u32::MAX / 55 + 1));
    assert!(CostSim::new(30, 0).can_search_on(&cards_of(&[4, 4, 4]), 5, 5));
    assert!(!CostSim::new(30, 0).can_search_on(&cards_of(&[4, 4]), 5, 5));
}
