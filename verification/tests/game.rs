use shadow_cost_rust::shadow_cost::player;
use shadow_cost_rust::shadow_cost::{Cards, Score, Trial, XorRand};
use std::cmp::Ordering;
use std::rc::Rc;

fn cards_of(costs: &[u32]) -> Cards {
    let mut cards = Cards::new();
    for c in costs {
        cards.add(*c);
    }
    cards
}

fn two_of_each_up_to_nine() -> Cards {
    let mut deck = Cards::new();
    for i in 1..10 {
        deck.add(i);
        deck.add(i);
    }
    deck
}

fn score_of(count: u32, loss: u32) -> Score {
    let mut s = Score::new();
    s.add(count, loss);
    s
}

#[test]
fn player() {
    let mut rng = XorRand::new();
    let mut deck = Cards::new();
    for i in 1..10 {
        deck.add(i);
        deck.add(i);
    }
    let mut hand = Cards::new();
    hand.add(1);
    hand.add(2);
    hand.add(3);
    player::run_game(&hand, &deck, true, 10, &mut rng);
}

#[test]
fn trial() {
    let mut rng = XorRand::new();
    let mut deck = Cards::new();
    for i in 1..10 {
        deck.add(i);
        deck.add(i);
    }
    let mut hand = Cards::new();
    hand.add(1);
    hand.add(2);
    hand.add(3);
    let mut trial = Trial::new(Rc::new(hand), Rc::new(deck));
    trial.trial(10, 10, &mut rng);
}

#[test]
fn run_game_with_the_initiative() {
    let mut rng = XorRand::new();
    let hand = cards_of(&[1, 2, 3]);
    let deck = two_of_each_up_to_nine();
    assert_eq!(6, player::run_game(&hand, &deck, true, 10, &mut rng));
    assert_eq!(3714564753, rng.state());
    assert_eq!(3, hand.size());
    assert_eq!(18, deck.size());
}

#[test]
fn run_game_without_the_initiative_draws_one_more() {
    let mut rng = XorRand::new();
    let hand = cards_of(&[1, 2, 3]);
    let deck = two_of_each_up_to_nine();
    assert_eq!(1, player::run_game(&hand, &deck, false, 10, &mut rng));
    assert_eq!(2206986603, rng.state());
}

#[test]
fn run_game_fills_an_empty_hand_first() {
    let mut rng = XorRand::new();
    let deck = two_of_each_up_to_nine();
    assert_eq!(6, player::run_game(&Cards::new(), &deck, true, 10, &mut rng));
    assert_eq!(1743633486, rng.state());
}

#[test]
fn run_game_caps_the_budget_after_ten_turns() {
    let mut rng = XorRand::new();
    let hand = cards_of(&[1, 2, 3]);
    let deck = two_of_each_up_to_nine();
    assert_eq!(28, player::run_game(&hand, &deck, true, 15, &mut rng));
    assert_eq!(4240087600, rng.state());
}

#[test]
fn run_game_of_no_turns_loses_nothing() {
    let mut rng = XorRand::new();
    let hand = cards_of(&[1, 2, 3]);
    let deck = two_of_each_up_to_nine();
    assert_eq!(0, player::run_game(&hand, &deck, true, 0, &mut rng));
    assert_eq!(9, rng.state());
}

#[test]
fn run_game_with_a_full_hand_loses_the_drawn_cards() {
    let mut rng = XorRand::new();
    let hand = cards_of(&[10; 9]);
    let deck = two_of_each_up_to_nine();
    assert_eq!(15, player::run_game(&hand, &deck, true, 5, &mut rng));
    assert_eq!(2242485597, rng.state());
}

#[test]
fn run_game_loss_is_never_negative_and_within_the_budgets() {
    let mut rng = XorRand::from_seed(2024);
    let hand = cards_of(&[1, 2, 3]);
    let deck = two_of_each_up_to_nine();
    for _ in 0..50 {
        let loss = player::run_game(&hand, &deck, true, 10, &mut rng);
        assert!(loss <= 55);
    }
}

#[test]
fn trial_folds_batches_into_one_statistic() {
    let mut rng = XorRand::new();
    let hand = Rc::new(cards_of(&[1, 2, 3]));
    let deck = Rc::new(two_of_each_up_to_nine());
    let mut trial = Trial::new(hand.clone(), deck.clone());
    assert_eq!(0, trial.count());
    assert_eq!(0, trial.loss());
    trial.trial(10, 10, &mut rng);
    assert_eq!(10, trial.count());
    assert_eq!(70, trial.loss());
    assert_eq!(1943943117, rng.state());
    trial.trial(10, 5, &mut rng);
    assert_eq!(15, trial.count());
    assert_eq!(109, trial.loss());
    assert_eq!(2852437956, rng.state());
    assert!(trial.loss() as f64 / trial.count() as f64 >= 0.0);
}

#[test]
fn trial_shares_its_hand_and_deck() {
    let hand = Rc::new(cards_of(&[1, 2, 3]));
    let deck = Rc::new(two_of_each_up_to_nine());
    let trial = Trial::new(hand.clone(), deck.clone());
    assert!(Rc::ptr_eq(&hand, &trial.hand()));
    assert!(Rc::ptr_eq(&deck, &trial.deck()));
    assert!(trial.hand().same_as(&cards_of(&[1, 2, 3])));
    assert!(trial.deck().same_as(&two_of_each_up_to_nine()));
    let copy = trial.clone();
    assert!(Rc::ptr_eq(&hand, &copy.hand()));
    assert!(Rc::ptr_eq(&deck, &copy.deck()));
    assert_eq!(trial, copy);
}

#[test]
fn trial_of_no_games_changes_nothing() {
    let mut rng = XorRand::new();
    let mut trial = Trial::new(Rc::new(Cards::new()), Rc::new(Cards::new()));
    trial.trial(10, 0, &mut rng);
    assert_eq!(0, trial.count());
    assert_eq!(0, trial.loss());
    assert_eq!(9, rng.state());
}

#[test]
fn trials_are_ordered_by_mean_loss() {
    let mut rng = XorRand::new();
    let deck = Rc::new(two_of_each_up_to_nine());
    let mut a = Trial::new(Rc::new(cards_of(&[1, 2, 3])), deck.clone());
    let mut b = Trial::new(Rc::new(cards_of(&[9, 9, 9])), deck.clone());
    a.trial(10, 10, &mut rng);
    b.trial(10, 20, &mut rng);
    let mean_a = a.loss() as f64 / a.count() as f64;
    let mean_b = b.loss() as f64 / b.count() as f64;
    assert_eq!(mean_a.partial_cmp(&mean_b), Some(a.cmp(&b)));
    assert_eq!(mean_a < mean_b, a.better_than(&b));
    assert_eq!(mean_b < mean_a, b.better_than(&a));
    assert_eq!(mean_a == mean_b, a.level_with(&b));
    assert_eq!(Ordering::Equal, a.cmp(&a.clone()));
    assert!(a.level_with(&a.clone()));
    assert!(!a.better_than(&a.clone()));
}

#[test]
fn score_starts_empty_and_accumulates() {
    let mut s = Score::new();
    assert_eq!(0, s.count());
    assert_eq!(0, s.loss());
    s.add(10, 35);
    assert_eq!(10, s.count());
    assert_eq!(35, s.loss());
    s.add(0, 0);
    assert_eq!(10, s.count());
    assert_eq!(35, s.loss());
    assert_eq!(3.5, s.loss() as f64 / s.count() as f64);
}

#[test]
fn score_sums_losses_beyond_32_bits() {
    let mut s = Score::new();
    s.add(1, u32::MAX);
    s.add(1, u32::MAX);
    s.add(1, 2);
    assert_eq!(3, s.count());
    assert_eq!(8589934592, s.loss());
}

#[test]
fn score_add_combines() {
    let mut one_by_one = Score::new();
    one_by_one.add(10, 63);
    one_by_one.add(5, 40);
    let mut other_order = Score::new();
    other_order.add(5, 40);
    other_order.add(10, 63);
    let mut at_once = Score::new();
    at_once.add(15, 103);
    assert_eq!(at_once, one_by_one);
    assert_eq!(at_once, other_order);
    assert_eq!(Ordering::Equal, one_by_one.cmp(&at_once));
    assert_eq!(Ordering::Equal, one_by_one.cmp(&other_order));
    let mean = |s: &Score| s.loss() as f64 / s.count() as f64;
    assert_eq!(mean(&at_once), mean(&one_by_one));
    assert_eq!(mean(&at_once), mean(&other_order));
}

#[test]
fn score_cmp_orders_by_mean_loss() {
    assert_eq!(Ordering::Less, score_of(10, 44).cmp(&score_of(10, 45)));
    assert_eq!(Ordering::Greater, score_of(10, 45).cmp(&score_of(10, 44)));
    assert_eq!(Ordering::Equal, score_of(2, 3).cmp(&score_of(4, 6)));
    assert_eq!(Ordering::Less, score_of(3, 4).cmp(&score_of(2, 3)));
    assert_eq!(Ordering::Greater, score_of(1, 1).cmp(&score_of(1000, 999)));
    assert_eq!(Ordering::Equal, score_of(5, 0).cmp(&score_of(7, 0)));
    assert_eq!(
        Ordering::Less,
        score_of(u32::MAX, u32::MAX - 1).cmp(&score_of(u32::MAX, u32::MAX))
    );
}

#[test]
fn budget_sum_counts_up_to_the_cap() {
    assert_eq!(0, player::budget_sum(0));
    assert_eq!(1, player::budget_sum(1));
    assert_eq!(6, player::budget_sum(3));
    assert_eq!(45, player::budget_sum(9));
    assert_eq!(55, player::budget_sum(10));
    assert_eq!(65, player::budget_sum(11));
    assert_eq!(105, player::budget_sum(15));
    assert_eq!(42949672905, player::budget_sum(u32::MAX));
}
