use wordsmith::auction::{decide_bid, resolve_auction};
use wordsmith::dictionary::{find_best_playable, is_valid_word, Dictionary};
use wordsmith::letters::{default_bag, length_multiplier, letter_value, word_reward};
use wordsmith::types::{AuctionType, BotStrategy, Identity, PendingBid, Timestamp};

fn words(list: &[&str]) -> Vec<String> {
    list.iter().map(|w| w.to_string()).collect()
}

fn sample_dictionary() -> Dictionary {
    Dictionary::from_words(words(&["AT", "CAT", "CATS", "DOG", "DOGS", "QUIZ", "TA", "ZA"])).unwrap()
}

fn bid(id: u64, bidder: u128, amount: i64) -> PendingBid {
    PendingBid {
        id,
        auction_id: 1,
        bidder: Identity { high: 0, low: bidder },
        amount,
        submitted_at: Timestamp { micros_since_unix_epoch: 0 },
    }
}

#[test]
fn letter_values_follow_scrabble() {
    assert_eq!(letter_value('A'), 1);
    assert_eq!(letter_value('R'), 1);
    assert_eq!(letter_value('D'), 2);
    assert_eq!(letter_value('M'), 3);
    assert_eq!(letter_value('W'), 4);
    assert_eq!(letter_value('K'), 5);
    assert_eq!(letter_value('X'), 8);
    assert_eq!(letter_value('Z'), 10);
    assert_eq!(letter_value('a'), 0);
    assert_eq!(letter_value('?'), 0);
}

#[test]
fn length_multiplier_ramps_from_one_to_three() {
    assert_eq!(length_multiplier(0), (1, 1));
    assert_eq!(length_multiplier(3), (1, 1));
    assert_eq!(length_multiplier(4), (3, 2));
    assert_eq!(length_multiplier(5), (2, 1));
    assert_eq!(length_multiplier(6), (5, 2));
    assert_eq!(length_multiplier(7), (3, 1));
    assert_eq!(length_multiplier(40), (3, 1));
}

#[test]
fn default_bag_holds_98_tiles_of_26_letters() {
    let bag = default_bag();
    assert_eq!(bag.len(), 26);
    let total: u32 = bag.iter().map(|(_, n)| *n).sum();
    assert_eq!(total, 98);
    assert_eq!(bag[0], ('A', 9));
    assert_eq!(bag[4], ('E', 12));
    assert_eq!(bag[25], ('Z', 1));
}

#[test]
fn word_reward_multiplies_base_score() {
    assert_eq!(word_reward("CAT"), (5, 0, 5));
    assert_eq!(word_reward("CATS"), (6, 3, 9));
    assert_eq!(word_reward("QUIZ"), (22, 11, 33));
    assert_eq!(word_reward("DOGES"), (7, 7, 14));
    assert_eq!(word_reward("CATTLES"), (9, 18, 27));
}

#[test]
fn dictionary_accepts_only_sorted_lists() {
    assert!(Dictionary::from_words(words(&["CAT", "AT"])).is_none());
    assert!(Dictionary::from_words(words(&["AT", "AT"])).is_some());
    assert!(Dictionary::new(words(&["AT", "CAT"]), words(&["CAT", "AT"])).is_some());
    assert!(Dictionary::new(words(&["AT", "CAT"]), words(&["AT", "CAT"])).is_none());
    assert!(Dictionary::new(words(&["AT", "CAT"]), words(&["CAT"])).is_none());
}

#[test]
fn valid_words_are_looked_up_upper_cased() {
    let d = sample_dictionary();
    assert!(is_valid_word(&d, "CAT"));
    assert!(is_valid_word(&d, "cat"));
    assert!(is_valid_word(&d, "QuIz"));
    assert!(is_valid_word(&d, "za"));
    assert!(!is_valid_word(&d, "COW"));
    assert!(!is_valid_word(&d, "A"));
    assert!(!is_valid_word(&d, "C4T"));
    assert!(!is_valid_word(&d, ""));
}

#[test]
fn best_playable_is_the_longest_word() {
    let d = sample_dictionary();
    let rack = vec![('C', 1), ('A', 1), ('T', 1), ('S', 1)];
    assert_eq!(find_best_playable(&d, &rack, 3), Some("CATS".to_string()));
    let rack = vec![('C', 1), ('A', 1), ('T', 1), ('D', 1), ('O', 1), ('G', 1)];
    assert_eq!(find_best_playable(&d, &rack, 3), Some("CAT".to_string()));
    assert_eq!(find_best_playable(&d, &rack, 4), None);
    let rack = vec![('A', 1), ('T', 1)];
    assert_eq!(find_best_playable(&d, &rack, 3), None);
    assert_eq!(find_best_playable(&d, &rack, 2), Some("AT".to_string()));
}

#[test]
fn best_playable_counts_letters_and_ignores_lower_case() {
    let d = sample_dictionary();
    let rack = vec![('c', 1), ('a', 1), ('t', 1)];
    assert_eq!(find_best_playable(&d, &rack, 2), None);
    let rack = vec![('Q', 1), ('U', 1), ('I', 1), ('Z', 1), ('A', 2)];
    assert_eq!(find_best_playable(&d, &rack, 3), Some("QUIZ".to_string()));
    let rack = vec![('Z', 1), ('A', 1), ('A', u32::MAX)];
    assert_eq!(find_best_playable(&d, &rack, 2), Some("ZA".to_string()));
}

#[test]
fn highest_bid_wins_and_ties_go_to_the_earlier_bid() {
    let bids = vec![bid(1, 1, 5), bid(2, 2, 7), bid(3, 3, 7), bid(4, 4, 0)];
    let (winner, top, paid) = resolve_auction(AuctionType::FirstPrice, &bids);
    assert_eq!(winner, Some(Identity { high: 0, low: 2 }));
    assert_eq!(top, 7);
    assert_eq!(paid, 7);
}

#[test]
fn vickrey_winner_pays_the_second_price() {
    let bids = vec![bid(1, 1, 9), bid(2, 2, 4), bid(3, 3, 6)];
    let (winner, top, paid) = resolve_auction(AuctionType::Vickrey, &bids);
    assert_eq!(winner, Some(Identity { high: 0, low: 1 }));
    assert_eq!(top, 9);
    assert_eq!(paid, 6);
    let single = vec![bid(1, 5, 8)];
    assert_eq!(resolve_auction(AuctionType::Vickrey, &single), (Some(Identity { high: 0, low: 5 }), 8, 1));
    assert_eq!(resolve_auction(AuctionType::FirstPrice, &single), (Some(Identity { high: 0, low: 5 }), 8, 8));
}

#[test]
fn auction_without_positive_bids_has_no_winner() {
    let bids = vec![bid(1, 1, 0)];
    assert_eq!(resolve_auction(AuctionType::FirstPrice, &bids), (None, 0, 0));
    assert_eq!(resolve_auction(AuctionType::Vickrey, &Vec::new()), (None, 0, 0));
}

#[test]
fn simulated_strategies_bid_by_letter_value() {
    assert_eq!(decide_bid(&BotStrategy::Human, "Q", 100), 0);
    assert_eq!(decide_bid(&BotStrategy::Cheapskate, "A", 100), 1);
    assert_eq!(decide_bid(&BotStrategy::Cheapskate, "Q", 100), 9);
    assert_eq!(decide_bid(&BotStrategy::ValueBidder, "Q", 100), 10);
    assert_eq!(decide_bid(&BotStrategy::ValueBidder, "Q", 5), 5);
    assert_eq!(decide_bid(&BotStrategy::Aggressive, "E", 100), 5);
    assert_eq!(decide_bid(&BotStrategy::Aggressive, "K", 100), 7);
    assert_eq!(decide_bid(&BotStrategy::Aggressive, "K", -3), 0);
    assert_eq!(decide_bid(&BotStrategy::ValueBidder, "", 100), 1);
}

#[test]
fn a_bigger_rack_never_finds_a_shorter_word() {
    let d = sample_dictionary();
    let small = vec![('C', 1), ('A', 1), ('T', 1)];
    let big = vec![('C', 1), ('A', 1), ('T', 1), ('S', 1)];
    let a = find_best_playable(&d, &small, 2).unwrap();
    let b = find_best_playable(&d, &big, 2).unwrap();
    assert!(b.len() >= a.len());
    assert_eq!((a.as_str(), b.as_str()), ("CAT", "CATS"));
}
