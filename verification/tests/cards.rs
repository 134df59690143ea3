use shadow_cost_rust::shadow_cost::xor_rand::{rnd, RandError};
use shadow_cost_rust::shadow_cost::{Cards, XorRand, COST_MAX};

fn cards_of(costs: &[u32]) -> Cards {
    let mut cards = Cards::new();
    for c in costs {
        cards.add(*c);
    }
    cards
}

fn counts(cards: &Cards) -> Vec<u32> {
    (1..=COST_MAX).map(|c| cards.count(c)).collect()
}

#[test]
fn new() {
    Cards::new();
}

#[test]
fn size() {
    assert_eq!(0, Cards::new().size());
}

#[test]
fn add() {
    let mut deck = Cards::new();
    deck.add(2);
    assert_eq!(1, deck.size());
}

#[test]
fn remove() {
    let mut deck = Cards::new();
    deck.add(3);
    deck.add(4);
    deck.remove(3);
    assert_eq!(1, deck.size());
}

#[test]
fn draw() {
    let mut rng = XorRand::new();
    let mut deck = Cards::new();
    deck.add(2);
    assert_eq!(2, deck.draw(&mut rng));
    assert_eq!(0, deck.size());
}

#[test]
fn less_than() {
    let mut deck = Cards::new();
    deck.add(3);
    deck.add(5);
    assert_eq!(Some(3), deck.less_than(4));
    assert_eq!(None, deck.less_than(1));
}

#[test]
fn play() {
    let mut deck = Cards::new();
    deck.add(3);
    deck.add(5);
    assert_eq!(1, deck.play(4));
    assert_eq!(1, deck.size());
}

#[test]
fn rnd_stream_from_default_seed() {
    let mut rng = XorRand::new();
    assert_eq!(9, rng.state());
    let got: Vec<u32> = (0..5).map(|_| rnd(&mut rng, 1000)).collect();
    assert_eq!(vec![321, 969, 492, 621, 597], got);
    assert_eq!(2242485597, rng.state());
}

#[test]
fn rnd_first_round_is_the_xorshift_of_the_seed() {
    let mut rng = XorRand::new();
    assert_eq!(2433321, rnd(&mut rng, 1 << 31));
    assert_eq!(2433321, rng.state());
}

#[test]
fn rnd_stays_below_its_bound() {
    let mut rng = XorRand::from_seed(12345);
    for n in 1..200u32 {
        assert!(rnd(&mut rng, n) < n);
    }
}

#[test]
fn rnd_from_seed_zero_stays_zero() {
    let mut rng = XorRand::from_seed(0);
    assert_eq!(0, rnd(&mut rng, 7));
    assert_eq!(0, rng.state());
}

#[test]
fn next_refuses_an_empty_range() {
    let mut rng = XorRand::new();
    assert_eq!(Err(RandError::InvalidArgument), rng.next(0));
    assert_eq!(9, rng.state());
}

#[test]
fn next_gives_what_rnd_gives() {
    let mut a = XorRand::new();
    let mut b = XorRand::new();
    for n in [1000u32, 3, 10, 1] {
        assert_eq!(Ok(rnd(&mut b, n)), a.next(n));
        assert_eq!(b.state(), a.state());
    }
}

#[test]
fn count_by_cost() {
    let deck = cards_of(&[1, 1, 10, 4]);
    assert_eq!(2, deck.count(1));
    assert_eq!(1, deck.count(4));
    assert_eq!(1, deck.count(10));
    assert_eq!(0, deck.count(5));
    assert_eq!(0, deck.count(0));
    assert_eq!(0, deck.count(11));
    assert_eq!(4, deck.size());
}

#[test]
fn same_as_compares_the_cards() {
    let a = cards_of(&[2, 7, 7]);
    let b = cards_of(&[7, 2, 7]);
    let c = cards_of(&[2, 7, 8]);
    assert!(a.same_as(&b));
    assert!(!a.same_as(&c));
    assert!(a.same_as(&a.clone()));
    assert!(Cards::new().same_as(&Cards::new()));
}

#[test]
fn add_then_remove_restores_the_counts() {
    for cost in 1..=COST_MAX {
        let mut deck = cards_of(&[1, 3, 3, 10]);
        let before = counts(&deck);
        deck.add(cost);
        assert_eq!(5, deck.size());
        assert_eq!(before[(cost - 1) as usize] + 1, deck.count(cost));
        deck.remove(cost);
        assert_eq!(4, deck.size());
        assert_eq!(before, counts(&deck));
    }
}

#[test]
fn draw_takes_one_card_in_range() {
    let mut rng = XorRand::from_seed(77);
    let mut deck = cards_of(&[1, 2, 2, 6, 6, 6, 10, 10]);
    while deck.size() > 0 {
        let size = deck.size();
        let before = counts(&deck);
        let card = deck.draw(&mut rng);
        assert!(1 <= card && card <= COST_MAX);
        assert_eq!(size - 1, deck.size());
        assert_eq!(before[(card - 1) as usize] - 1, deck.count(card));
    }
}

#[test]
fn draw_sequence_from_default_seed() {
    let mut rng = XorRand::new();
    let mut deck = cards_of(&[1, 1, 2, 5, 5, 5, 9]);
    let got: Vec<u32> = (0..7).map(|_| deck.draw(&mut rng)).collect();
    assert_eq!(vec![2, 1, 5, 5, 1, 5, 9], got);
    assert_eq!(0, deck.size());
}

#[test]
fn less_than_caps_the_budget_at_cost_max() {
    let deck = cards_of(&[10, 2]);
    assert_eq!(Some(10), deck.less_than(10));
    assert_eq!(Some(10), deck.less_than(11));
    assert_eq!(Some(10), deck.less_than(u32::MAX));
    assert_eq!(Some(2), deck.less_than(9));
}

#[test]
fn less_than_finds_nothing_without_a_fitting_card() {
    let deck = cards_of(&[4, 5]);
    assert_eq!(None, deck.less_than(0));
    assert_eq!(None, deck.less_than(3));
    assert_eq!(Some(4), deck.less_than(4));
    assert_eq!(None, Cards::new().less_than(10));
}

#[test]
fn play_spends_the_whole_budget_where_cards_fit() {
    let mut hand = cards_of(&[1, 2, 3, 4]);
    assert_eq!(0, hand.play(7));
    assert_eq!(vec![1, 1, 0, 0, 0, 0, 0, 0, 0, 0], counts(&hand));
}

#[test]
fn play_is_greedy_and_not_optimal() {
    let mut hand = cards_of(&[4, 3, 3]);
    assert_eq!(2, hand.play(6));
    assert_eq!(vec![0, 0, 2, 0, 0, 0, 0, 0, 0, 0], counts(&hand));
}

#[test]
fn play_with_two_threes_against_four() {
    let mut hand = cards_of(&[3, 3]);
    assert_eq!(1, hand.play(4));
    assert_eq!(1, hand.size());
}

#[test]
fn play_of_nothing_leaves_the_hand() {
    let mut hand = cards_of(&[1, 1]);
    assert_eq!(0, hand.play(0));
    assert_eq!(2, hand.size());
}

#[test]
fn play_leaves_what_no_card_fits() {
    let mut hand = cards_of(&[5, 9]);
    assert_eq!(4, hand.play(4));
    assert_eq!(2, hand.size());
}

#[test]
fn play_above_cost_max() {
    let mut hand = cards_of(&[10, 10, 5, 1]);
    assert_eq!(0, hand.play(25));
    assert_eq!(vec![1, 0, 0, 0, 0, 0, 0, 0, 0, 0], counts(&hand));
}

#[test]
fn random_add_from_default_seed() {
    let mut rng = XorRand::new();
    let mut deck = Cards::new();
    deck.random_add(12, &mut rng);
    assert_eq!(12, deck.size());
    assert_eq!(vec![0, 2, 1, 2, 3, 2, 0, 1, 0, 1], counts(&deck));
    assert_eq!(1232804024, rng.state());
}

#[test]
fn random_change_keeps_the_size() {
    let mut rng = XorRand::new();
    let deck = cards_of(&[1, 2, 3, 4, 5, 6]);
    let changed = deck.random_change(3, &mut rng);
    assert_eq!(6, changed.size());
    assert_eq!(vec![0, 2, 1, 0, 1, 1, 0, 0, 0, 1], counts(&changed));
    assert_eq!(vec![1, 1, 1, 1, 1, 1, 0, 0, 0, 0], counts(&deck));
    assert_eq!(1984867804, rng.state());
}

#[test]
fn random_change_of_nothing_is_a_copy() {
    let mut rng = XorRand::new();
    let deck = cards_of(&[8, 8]);
    assert!(deck.random_change(0, &mut rng).same_as(&deck));
    assert_eq!(9, rng.state());
}

#[test]
fn random_exchange_keeps_both_sizes_and_all_cards() {
    let mut rng = XorRand::new();
    let mut a = cards_of(&[1, 2, 3]);
    let mut b = cards_of(&[7, 8, 9, 10]);
    a.random_exchange(&mut b, 3, &mut rng);
    assert_eq!(vec![0, 0, 1, 0, 0, 0, 0, 0, 1, 1], counts(&a));
    assert_eq!(vec![1, 1, 0, 0, 0, 0, 1, 1, 0, 0], counts(&b));
    assert_eq!(3, a.size());
    assert_eq!(4, b.size());
    for cost in 1..=COST_MAX {
        let was = if cost <= 3 || cost >= 7 { 1 } else { 0 };
        assert_eq!(was, a.count(cost) + b.count(cost));
    }
    assert_eq!(1984867804, rng.state());
}

#[test]
fn split_takes_exactly_n_cards() {
    let mut rng = XorRand::new();
    let mut deck = cards_of(&[1, 2, 3, 4, 5, 6, 7, 8]);
    let before = counts(&deck);
    let hand = deck.split(3, &mut rng);
    assert_eq!(3, hand.size());
    assert_eq!(5, deck.size());
    assert_eq!(vec![1, 1, 1, 0, 0, 0, 0, 0, 0, 0], counts(&hand));
    assert_eq!(vec![0, 0, 0, 1, 1, 1, 1, 1, 0, 0], counts(&deck));
    for cost in 1..=COST_MAX {
        assert_eq!(before[(cost - 1) as usize], deck.count(cost) + hand.count(cost));
    }
    assert_eq!(1001376492, rng.state());
}

#[test]
fn split_of_all_cards_empties_the_deck() {
    let mut rng = XorRand::from_seed(5);
    let mut deck = cards_of(&[2, 2, 9]);
    let all = deck.split(3, &mut rng);
    assert_eq!(0, deck.size());
    assert!(all.same_as(&cards_of(&[2, 2, 9])));
    let mut none_left = Cards::new();
    assert_eq!(0, none_left.split(0, &mut rng).size());
}
