use rand::rngs::StdRng;
use rand::SeedableRng;
use wordsmith::bidding::submit_bid;
use wordsmith::bots::{client_connected, client_disconnected, init, register_bot, spawn_simulated_bot};
use wordsmith::db::Db;
use wordsmith::dictionary::Dictionary;
use wordsmith::matchplay::{start_match, start_match_for, STARTING_BALANCE};
use wordsmith::play::submit_word;
use wordsmith::stats::my_rack;
use wordsmith::tick::{auction_tick, TickOutcome};
use wordsmith::types::{
    AuctionStatus, AuctionType, BotStrategy, GameError, Holding, Identity, MatchStatus, ReducerContext, Timestamp,
};

fn id(n: u128) -> Identity {
    Identity { high: 0, low: n }
}

fn ctx(sender: u128, micros: i64) -> ReducerContext {
    ReducerContext { sender: id(sender), timestamp: Timestamp { micros_since_unix_epoch: micros } }
}

fn dictionary() -> Dictionary {
    let words = ["AT", "CAT", "CATS", "DOG", "DOGS", "QUIZ", "TA", "ZA"];
    Dictionary::from_words(words.iter().map(|w| w.to_string()).collect()).unwrap()
}

fn rng() -> StdRng {
    StdRng::seed_from_u64(7)
}

/// A database with two human bots (1 and 2) in a running first-price match.
fn match_of_two(auction_type: AuctionType) -> (Db, StdRng) {
    let mut db = Db::new();
    let mut r = rng();
    register_bot(&ctx(1, 0), &mut db, "alice".to_string()).unwrap();
    register_bot(&ctx(2, 0), &mut db, "bob".to_string()).unwrap();
    start_match(&ctx(1, 1_000), &mut db, &mut r, auction_type).unwrap();
    (db, r)
}

fn give(db: &mut Db, match_id: u64, bot: u128, letter: &str, count: u32) {
    let hid = db.next.holding;
    db.holding.push(Holding { id: hid, match_id, bot: id(bot), letter: letter.to_string(), count });
    db.next.holding = hid + 1;
}

#[test]
fn register_bot_trims_and_stores_the_name() {
    let mut db = Db::new();
    init(&ctx(1, 0), &mut db);
    assert_eq!(register_bot(&ctx(1, 5), &mut db, "  alice ".to_string()), Ok(()));
    assert_eq!(db.bot.len(), 1);
    assert_eq!(db.bot[0].name, "alice");
    assert_eq!(db.bot[0].identity, id(1));
    assert!(db.bot[0].connected);
    assert!(!db.bot[0].is_simulated);
    assert_eq!(db.bot[0].strategy, BotStrategy::Human);
    assert_eq!(db.bot[0].registered_at, Timestamp { micros_since_unix_epoch: 5 });
}

#[test]
fn register_bot_refusals() {
    let mut db = Db::new();
    assert_eq!(register_bot(&ctx(1, 0), &mut db, "   ".to_string()), Err(GameError::InvalidName));
    assert_eq!(register_bot(&ctx(1, 0), &mut db, "x".repeat(33)), Err(GameError::InvalidName));
    assert_eq!(register_bot(&ctx(1, 0), &mut db, "x".repeat(32)), Ok(()));
    assert_eq!(register_bot(&ctx(1, 0), &mut db, "other".to_string()), Err(GameError::AlreadyRegistered));
    assert_eq!(register_bot(&ctx(2, 0), &mut db, "x".repeat(32)), Err(GameError::NameTaken));
    assert_eq!(db.bot.len(), 1);
}

#[test]
fn spawn_simulated_bot_refusals_and_success() {
    let mut db = Db::new();
    register_bot(&ctx(1, 0), &mut db, "alice".to_string()).unwrap();
    assert_eq!(spawn_simulated_bot(&ctx(1, 0), &mut db, "".to_string(), BotStrategy::Aggressive, id(50)), Err(GameError::InvalidName));
    assert_eq!(spawn_simulated_bot(&ctx(1, 0), &mut db, "sim".to_string(), BotStrategy::Human, id(50)), Err(GameError::HumanStrategy));
    assert_eq!(spawn_simulated_bot(&ctx(1, 0), &mut db, "alice".to_string(), BotStrategy::Aggressive, id(50)), Err(GameError::NameTaken));
    assert_eq!(spawn_simulated_bot(&ctx(1, 0), &mut db, "sim".to_string(), BotStrategy::Aggressive, id(1)), Err(GameError::SimulatedBotExists));
    assert_eq!(spawn_simulated_bot(&ctx(1, 0), &mut db, " sim ".to_string(), BotStrategy::Cheapskate, id(50)), Ok(()));
    assert_eq!(db.bot.len(), 2);
    assert_eq!(db.bot[1].name, "sim");
    assert!(db.bot[1].is_simulated);
    assert_eq!(db.bot[1].strategy, BotStrategy::Cheapskate);
}

#[test]
fn connection_events_toggle_the_flag() {
    let mut db = Db::new();
    register_bot(&ctx(1, 0), &mut db, "alice".to_string()).unwrap();
    register_bot(&ctx(2, 0), &mut db, "bob".to_string()).unwrap();
    client_disconnected(&ctx(1, 0), &mut db);
    assert!(!db.bot[0].connected);
    assert!(db.bot[1].connected);
    client_connected(&ctx(1, 0), &mut db);
    assert!(db.bot[0].connected);
    client_connected(&ctx(9, 0), &mut db);
    assert_eq!(db.bot.len(), 2);
}

#[test]
fn start_match_needs_participants() {
    let mut db = Db::new();
    let mut r = rng();
    assert_eq!(start_match(&ctx(1, 0), &mut db, &mut r, AuctionType::FirstPrice), Err(GameError::NoParticipants));
    assert!(db.match_state.is_empty());
}

#[test]
fn start_match_for_unknown_bot_changes_nothing() {
    let mut db = Db::new();
    let mut r = rng();
    register_bot(&ctx(1, 0), &mut db, "alice".to_string()).unwrap();
    let roster = vec![id(1), id(3)];
    assert_eq!(start_match_for(&ctx(1, 0), &mut db, &mut r, AuctionType::FirstPrice, roster), Err(GameError::UnknownBot(id(3))));
    assert!(db.match_state.is_empty());
    assert!(db.match_participant.is_empty());
    assert!(db.bag_letter.is_empty());
}

#[test]
fn start_match_sets_up_bag_participants_and_first_auction() {
    let (db, _) = match_of_two(AuctionType::FirstPrice);
    assert_eq!(db.match_state.len(), 1);
    let m = db.match_state[0];
    assert_eq!(m.id, 1);
    assert_eq!(m.status, MatchStatus::Running);
    assert_eq!(m.current_round, 1);
    assert_eq!(m.bag_total, 97);
    assert_eq!(m.current_auction_id, Some(1));
    assert_eq!(db.match_participant.len(), 2);
    for p in &db.match_participant {
        assert_eq!(p.balance, STARTING_BALANCE);
        assert_eq!(p.balance, 100);
        assert_eq!(p.score, 0);
    }
    assert_eq!(db.bag_letter.len(), 26);
    let tiles: u32 = db.bag_letter.iter().map(|b| b.remaining).sum();
    assert_eq!(tiles, 97);
    assert_eq!(db.auction.len(), 1);
    assert_eq!(db.auction[0].status, AuctionStatus::Open);
    assert_eq!(db.auction[0].closes_at, Timestamp { micros_since_unix_epoch: 1_001_000 });
    assert_eq!(db.auction_schedule.len(), 1);
    assert_eq!(db.auction_schedule[0].match_id, 1);
}

#[test]
fn submit_bid_refusals() {
    let (mut db, _) = match_of_two(AuctionType::FirstPrice);
    assert_eq!(submit_bid(&ctx(1, 2_000), &mut db, 1, -1), Err(GameError::NegativeBid));
    assert_eq!(submit_bid(&ctx(1, 2_000), &mut db, 9, 5), Err(GameError::UnknownAuction));
    assert_eq!(submit_bid(&ctx(1, 1_001_000), &mut db, 1, 5), Err(GameError::AuctionExpired));
    assert_eq!(submit_bid(&ctx(7, 2_000), &mut db, 1, 5), Err(GameError::NotInMatch));
    assert_eq!(submit_bid(&ctx(1, 2_000), &mut db, 1, 101), Err(GameError::InsufficientBalance));
    assert!(db.pending_bid.is_empty());
    db.auction[0].status = AuctionStatus::Closed;
    assert_eq!(submit_bid(&ctx(1, 2_000), &mut db, 1, 5), Err(GameError::AuctionClosed));
}

#[test]
fn a_new_bid_replaces_the_earlier_one() {
    let (mut db, _) = match_of_two(AuctionType::FirstPrice);
    assert_eq!(submit_bid(&ctx(1, 2_000), &mut db, 1, 5), Ok(()));
    assert_eq!(submit_bid(&ctx(2, 3_000), &mut db, 1, 6), Ok(()));
    assert_eq!(submit_bid(&ctx(1, 4_000), &mut db, 1, 8), Ok(()));
    assert_eq!(db.pending_bid.len(), 2);
    let mine: Vec<_> = db.pending_bid.iter().filter(|b| b.bidder == id(1)).collect();
    assert_eq!(mine.len(), 1);
    assert_eq!(mine[0].amount, 8);
    assert_eq!(mine[0].submitted_at, Timestamp { micros_since_unix_epoch: 4_000 });
}

#[test]
fn tick_awards_the_letter_to_the_highest_bidder() {
    let (mut db, mut r) = match_of_two(AuctionType::FirstPrice);
    let d = dictionary();
    let letter = db.auction[0].letter.clone();
    submit_bid(&ctx(1, 2_000), &mut db, 1, 10).unwrap();
    submit_bid(&ctx(2, 2_500), &mut db, 1, 4).unwrap();
    let job = db.auction_schedule[0];
    let out = auction_tick(&ctx(0, 1_001_000), &mut db, &mut r, &d, job);
    assert_eq!(out, TickOutcome::NextAuction);
    assert_eq!(db.match_participant[0].balance, 90);
    assert_eq!(db.match_participant[1].balance, 100);
    assert_eq!(db.holding.len(), 1);
    assert_eq!(db.holding[0].bot, id(1));
    assert_eq!(db.holding[0].letter, letter);
    assert_eq!(db.holding[0].count, 1);
    assert_eq!(db.auction_result.len(), 1);
    assert_eq!(db.auction_result[0].winner, Some(id(1)));
    assert_eq!(db.auction_result[0].top_bid, 10);
    assert_eq!(db.auction_result[0].paid, 10);
    assert_eq!(db.auction[0].status, AuctionStatus::Closed);
    assert!(db.pending_bid.is_empty());
    assert_eq!(db.auction.len(), 2);
    assert_eq!(db.match_state[0].current_auction_id, Some(2));
    assert_eq!(db.match_state[0].current_round, 2);
    assert_eq!(db.match_state[0].bag_total, 96);
    assert_eq!(db.auction_schedule.len(), 2);
}

#[test]
fn tick_with_vickrey_charges_the_second_bid() {
    let (mut db, mut r) = match_of_two(AuctionType::Vickrey);
    let d = dictionary();
    submit_bid(&ctx(1, 2_000), &mut db, 1, 10).unwrap();
    submit_bid(&ctx(2, 2_500), &mut db, 1, 4).unwrap();
    let job = db.auction_schedule[0];
    auction_tick(&ctx(0, 1_001_000), &mut db, &mut r, &d, job);
    assert_eq!(db.match_participant[0].balance, 96);
    assert_eq!(db.auction_result[0].top_bid, 10);
    assert_eq!(db.auction_result[0].paid, 4);
}

#[test]
fn unsold_letter_goes_back_to_the_bag() {
    let (mut db, mut r) = match_of_two(AuctionType::FirstPrice);
    let d = dictionary();
    let job = db.auction_schedule[0];
    let out = auction_tick(&ctx(0, 1_001_000), &mut db, &mut r, &d, job);
    assert_eq!(out, TickOutcome::NextAuction);
    assert_eq!(db.auction_result[0].winner, None);
    assert_eq!(db.auction_result[0].paid, 0);
    assert!(db.holding.is_empty());
    assert_eq!(db.match_state[0].bag_total, 97);
    let tiles: u32 = db.bag_letter.iter().map(|b| b.remaining).sum();
    assert_eq!(tiles, 97);
}

#[test]
fn tick_on_a_stopped_match_is_skipped() {
    let (mut db, mut r) = match_of_two(AuctionType::FirstPrice);
    let d = dictionary();
    let mut job = db.auction_schedule[0];
    job.match_id = 42;
    assert_eq!(auction_tick(&ctx(0, 1_001_000), &mut db, &mut r, &d, job), TickOutcome::Skipped);
    let job = db.auction_schedule[0];
    db.match_state[0].status = MatchStatus::Ended;
    assert_eq!(auction_tick(&ctx(0, 1_001_000), &mut db, &mut r, &d, job), TickOutcome::Skipped);
    assert!(db.auction_result.is_empty());
}

#[test]
fn a_second_tick_on_a_settled_auction_is_skipped() {
    let (mut db, mut r) = match_of_two(AuctionType::FirstPrice);
    let d = dictionary();
    let job = db.auction_schedule[0];
    auction_tick(&ctx(0, 1_001_000), &mut db, &mut r, &d, job);
    db.match_state[0].current_auction_id = Some(1);
    assert_eq!(auction_tick(&ctx(0, 1_002_000), &mut db, &mut r, &d, job), TickOutcome::Skipped);
    assert_eq!(db.auction_result.len(), 1);
}

#[test]
fn match_ends_when_the_bag_is_empty() {
    let (mut db, mut r) = match_of_two(AuctionType::FirstPrice);
    let d = dictionary();
    for b in db.bag_letter.iter_mut() {
        b.remaining = 0;
    }
    db.match_state[0].bag_total = 0;
    submit_bid(&ctx(2, 2_000), &mut db, 1, 3).unwrap();
    let job = db.auction_schedule[0];
    let out = auction_tick(&ctx(0, 1_001_000), &mut db, &mut r, &d, job);
    assert_eq!(out, TickOutcome::MatchEnded);
    let m = db.match_state[0];
    assert_eq!(m.status, MatchStatus::Ended);
    assert_eq!(m.current_auction_id, None);
    assert_eq!(m.ended_at, Some(Timestamp { micros_since_unix_epoch: 1_001_000 }));
    assert_eq!(db.match_participant[1].balance, 97);
    assert_eq!(db.auction.len(), 1);
}

#[test]
fn simulated_winner_plays_its_best_word() {
    let mut db = Db::new();
    let mut r = rng();
    let d = dictionary();
    spawn_simulated_bot(&ctx(1, 0), &mut db, "sim".to_string(), BotStrategy::Aggressive, id(50)).unwrap();
    start_match(&ctx(1, 1_000), &mut db, &mut r, AuctionType::FirstPrice).unwrap();
    // The simulated bot bid on the first letter as the auction opened.
    assert_eq!(db.pending_bid.len(), 1);
    let letter = db.auction[0].letter.clone();
    give(&mut db, 1, 50, "Q", 1);
    give(&mut db, 1, 50, "U", 1);
    give(&mut db, 1, 50, "I", 1);
    give(&mut db, 1, 50, "Z", 1);
    let balance_before = db.match_participant[0].balance;
    let paid = db.pending_bid[0].amount;
    let job = db.auction_schedule[0];
    auction_tick(&ctx(0, 1_001_000), &mut db, &mut r, &d, job);
    assert_eq!(db.word_play.len(), 1);
    assert_eq!(db.word_play[0].word, "QUIZ");
    assert_eq!(db.word_play[0].total_reward, 33);
    assert_eq!(db.match_participant[0].score, 33);
    assert_eq!(db.match_participant[0].balance, balance_before - paid + 33);
    let left: u32 = db.holding.iter().map(|h| h.count).sum();
    assert_eq!(left, 1);
    assert!(db.holding.iter().all(|h| h.letter == letter));
}

#[test]
fn submit_word_refusals() {
    let (mut db, _) = match_of_two(AuctionType::FirstPrice);
    let d = dictionary();
    assert_eq!(submit_word(&ctx(1, 0), &mut db, &d, 9, "CAT".to_string()), Err(GameError::UnknownMatch));
    assert_eq!(submit_word(&ctx(7, 0), &mut db, &d, 1, "CAT".to_string()), Err(GameError::NotInMatch));
    assert_eq!(submit_word(&ctx(1, 0), &mut db, &d, 1, "a".to_string()), Err(GameError::WordTooShort));
    assert_eq!(submit_word(&ctx(1, 0), &mut db, &d, 1, "c-t".to_string()), Err(GameError::WordNotAlphabetic));
    assert_eq!(submit_word(&ctx(1, 0), &mut db, &d, 1, "cow".to_string()), Err(GameError::NotInDictionary("COW".to_string())));
    give(&mut db, 1, 1, "C", 1);
    give(&mut db, 1, 1, "A", 1);
    assert_eq!(submit_word(&ctx(1, 0), &mut db, &d, 1, "cat".to_string()), Err(GameError::NotEnoughLetters('T', 1, 0)));
    db.match_state[0].status = MatchStatus::Ended;
    assert_eq!(submit_word(&ctx(1, 0), &mut db, &d, 1, "CAT".to_string()), Err(GameError::MatchNotRunning));
    assert!(db.word_play.is_empty());
}

#[test]
fn playing_a_word_spends_letters_and_pays_the_reward() {
    let (mut db, _) = match_of_two(AuctionType::FirstPrice);
    let d = dictionary();
    give(&mut db, 1, 1, "C", 1);
    give(&mut db, 1, 1, "A", 2);
    give(&mut db, 1, 1, "T", 1);
    give(&mut db, 1, 1, "S", 1);
    assert_eq!(submit_word(&ctx(1, 77), &mut db, &d, 1, "cats".to_string()), Ok(()));
    assert_eq!(db.match_participant[0].balance, 109);
    assert_eq!(db.match_participant[0].score, 9);
    assert_eq!(db.holding.len(), 1);
    assert_eq!(db.holding[0].letter, "A");
    assert_eq!(db.holding[0].count, 1);
    let w = &db.word_play[0];
    assert_eq!(w.word, "CATS");
    assert_eq!((w.base_score, w.bonus, w.total_reward), (6, 3, 9));
    assert_eq!(w.played_at, Timestamp { micros_since_unix_epoch: 77 });
    assert_eq!(my_rack(&ctx(1, 0), &db).len(), 1);
    assert_eq!(my_rack(&ctx(2, 0), &db).len(), 0);
}

#[test]
fn winner_who_cannot_pay_gets_nothing() {
    let (mut db, mut r) = match_of_two(AuctionType::FirstPrice);
    let d = dictionary();
    submit_bid(&ctx(1, 2_000), &mut db, 1, 50).unwrap();
    db.match_participant[0].balance = 10;
    let job = db.auction_schedule[0];
    assert_eq!(auction_tick(&ctx(0, 1_001_000), &mut db, &mut r, &d, job), TickOutcome::NextAuction);
    assert_eq!(db.match_participant[0].balance, 10);
    assert!(db.holding.is_empty());
    assert_eq!(db.auction_result[0].winner, Some(id(1)));
    assert_eq!(db.auction_result[0].paid, 50);
    // The letter is neither credited nor returned: the bag lost it.
    assert_eq!(db.match_state[0].bag_total, 96);
}

#[test]
fn a_bid_of_the_whole_balance_leaves_zero() {
    let (mut db, mut r) = match_of_two(AuctionType::FirstPrice);
    let d = dictionary();
    submit_bid(&ctx(2, 2_000), &mut db, 1, 100).unwrap();
    let job = db.auction_schedule[0];
    auction_tick(&ctx(0, 1_001_000), &mut db, &mut r, &d, job);
    assert_eq!(db.match_participant[1].balance, 0);
    assert_eq!(submit_bid(&ctx(2, 1_002_000), &mut db, 2, 1), Err(GameError::InsufficientBalance));
    assert_eq!(submit_bid(&ctx(2, 1_002_000), &mut db, 2, 0), Ok(()));
}

#[test]
fn bag_rows_hold_the_letters_a_to_z() {
    let (db, _) = match_of_two(AuctionType::FirstPrice);
    let letters: Vec<&str> = db.bag_letter.iter().map(|b| b.letter.as_str()).collect();
    assert_eq!(letters[0], "A");
    assert_eq!(letters[1], "B");
    assert_eq!(letters[25], "Z");
    assert!(db.bag_letter.iter().all(|b| b.match_id == 1));
}

#[test]
fn returning_a_drawn_letter_restores_the_bag() {
    let (mut db, mut r) = match_of_two(AuctionType::FirstPrice);
    let before: Vec<(u64, String, u32)> = db.bag_letter.iter().map(|b| (b.id, b.letter.clone(), b.remaining)).collect();
    let total = db.match_state[0].bag_total;
    let l = wordsmith::bag::draw_letter(&mut db, &mut r, 1).unwrap();
    assert_eq!(db.match_state[0].bag_total, total - 1);
    wordsmith::bag::return_to_bag(&mut db, 1, &l);
    let after: Vec<(u64, String, u32)> = db.bag_letter.iter().map(|b| (b.id, b.letter.clone(), b.remaining)).collect();
    assert_eq!(after, before);
    assert_eq!(db.match_state[0].bag_total, total);
}

#[test]
fn bids_differing_in_amount_differ_only_there() {
    let (mut a, _) = match_of_two(AuctionType::FirstPrice);
    let (mut b, _) = match_of_two(AuctionType::FirstPrice);
    submit_bid(&ctx(1, 2_000), &mut a, 1, 3).unwrap();
    submit_bid(&ctx(1, 2_000), &mut b, 1, 9).unwrap();
    assert_eq!(a.pending_bid.len(), b.pending_bid.len());
    let (x, y) = (a.pending_bid[0], b.pending_bid[0]);
    assert_eq!((x.id, x.auction_id, x.bidder, x.submitted_at), (y.id, y.auction_id, y.bidder, y.submitted_at));
    assert_eq!((x.amount, y.amount), (3, 9));
    assert_eq!(a.match_participant, b.match_participant);
}
