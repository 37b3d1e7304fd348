use rand::rngs::StdRng;
use rand::SeedableRng;
use wordsmith::bots::register_bot;
use wordsmith::db::Db;
use wordsmith::matchmaker::{matchmaker_tick, set_matchmaker_enabled};
use wordsmith::matchplay::start_match_for;
use wordsmith::stats::{get_or_init_stats, placements, record_match_stats, INITIAL_RATING};
use wordsmith::tournament::{on_match_ended, start_tournament};
use wordsmith::types::{
    AuctionType, GameError, Identity, MatchStatus, ReducerContext, Timestamp, TournamentPhase, TournamentStatus,
};

fn id(n: u128) -> Identity {
    Identity { high: 0, low: n }
}

fn ctx(sender: u128, micros: i64) -> ReducerContext {
    ReducerContext { sender: id(sender), timestamp: Timestamp { micros_since_unix_epoch: micros } }
}

fn with_bots(n: u128) -> Db {
    let mut db = Db::new();
    for k in 1..=n {
        register_bot(&ctx(k, 0), &mut db, format!("bot{}", k)).unwrap();
    }
    db
}

/// Ends match `match_id`, giving each participant the score of its bot's
/// number, and settles its tournament side.
fn finish(db: &mut Db, rng: &mut StdRng, match_id: u64, at: i64) {
    for p in db.match_participant.iter_mut() {
        if p.match_id == match_id {
            p.score = p.bot.low as i64;
        }
    }
    for m in db.match_state.iter_mut() {
        if m.id == match_id {
            m.status = MatchStatus::Ended;
        }
    }
    on_match_ended(&ctx(0, at), db, rng, match_id);
}

fn points_of(db: &Db, bot: u128) -> i32 {
    db.tournament_entry.iter().find(|e| e.bot == id(bot)).unwrap().swiss_points
}

#[test]
fn start_tournament_refusals() {
    let mut db = with_bots(3);
    let mut r = StdRng::seed_from_u64(1);
    let c = ctx(0, 0);
    assert_eq!(start_tournament(&c, &mut db, &mut r, 1, 2, 1, AuctionType::FirstPrice), Err(GameError::TournamentMatchSize));
    assert_eq!(start_tournament(&c, &mut db, &mut r, 0, 2, 2, AuctionType::FirstPrice), Err(GameError::NoSwissRounds));
    assert_eq!(start_tournament(&c, &mut db, &mut r, 1, 1, 2, AuctionType::FirstPrice), Err(GameError::TopCutTooSmall));
    assert_eq!(start_tournament(&c, &mut db, &mut r, 1, 2, 4, AuctionType::FirstPrice), Err(GameError::NotEnoughBots(4)));
    assert_eq!(start_tournament(&c, &mut db, &mut r, 1, 2, 2, AuctionType::FirstPrice), Err(GameError::OddBotCount));
    assert_eq!(start_tournament(&c, &mut db, &mut r, 1, 2, 3, AuctionType::FirstPrice), Err(GameError::OddBotCount));
    assert!(db.tournament.is_empty());
    assert!(db.match_state.is_empty());
}

#[test]
fn tournament_runs_swiss_then_bracket_to_the_end() {
    let mut db = with_bots(4);
    let mut r = StdRng::seed_from_u64(3);
    assert_eq!(start_tournament(&ctx(0, 0), &mut db, &mut r, 1, 2, 2, AuctionType::Vickrey), Ok(()));
    assert_eq!(db.tournament.len(), 1);
    assert_eq!(db.tournament[0].status, TournamentStatus::Swiss);
    assert_eq!(db.tournament[0].current_round, 1);
    assert_eq!(db.tournament_entry.len(), 4);
    assert_eq!(db.match_state.len(), 2);
    assert_eq!(db.tournament_match.len(), 2);
    assert!(db.tournament_match.iter().all(|m| m.round == 1 && m.phase == TournamentPhase::Swiss));
    assert!(db.match_state.iter().all(|m| m.auction_type == AuctionType::Vickrey));

    // Round 1: the higher-numbered bot of each pair wins.
    finish(&mut db, &mut r, 1, 10);
    assert_eq!(db.tournament[0].status, TournamentStatus::Swiss);
    let first: Vec<u128> = db.match_participant.iter().filter(|p| p.match_id == 1).map(|p| p.bot.low).collect();
    let (lo, hi) = if first[0] < first[1] { (first[0], first[1]) } else { (first[1], first[0]) };
    assert_eq!(points_of(&db, hi), 2);
    assert_eq!(points_of(&db, lo), 1);
    finish(&mut db, &mut r, 2, 20);

    // The last Swiss round is done: the top two go to the bracket.
    assert_eq!(db.tournament[0].status, TournamentStatus::Bracket);
    assert_eq!(db.tournament[0].current_round, 1);
    let active: Vec<u128> = db.tournament_entry.iter().filter(|e| !e.eliminated).map(|e| e.bot.low).collect();
    assert_eq!(active.len(), 2);
    assert_eq!(db.match_state.len(), 3);
    let final_link = db.tournament_match[2];
    assert_eq!(final_link.phase, TournamentPhase::Bracket);
    assert_eq!(final_link.round, 1);
    let finalists: Vec<u128> = db.match_participant.iter().filter(|p| p.match_id == final_link.match_id).map(|p| p.bot.low).collect();
    assert_eq!(finalists.len(), 2);

    // The final: the loser is eliminated and the tournament ends.
    finish(&mut db, &mut r, final_link.match_id, 30);
    let winner = finalists.iter().max().unwrap();
    let still_in: Vec<u128> = db.tournament_entry.iter().filter(|e| !e.eliminated).map(|e| e.bot.low).collect();
    assert_eq!(still_in, vec![*winner]);
    assert_eq!(db.tournament[0].status, TournamentStatus::Ended);
    assert_eq!(db.tournament[0].ended_at, Some(Timestamp { micros_since_unix_epoch: 30 }));
}

#[test]
fn match_outside_tournaments_changes_no_entry() {
    let mut db = with_bots(2);
    let mut r = StdRng::seed_from_u64(5);
    start_match_for(&ctx(0, 0), &mut db, &mut r, AuctionType::FirstPrice, vec![id(1), id(2)]).unwrap();
    finish(&mut db, &mut r, 1, 5);
    assert!(db.tournament_entry.is_empty());
    assert!(db.tournament.is_empty());
}

#[test]
fn matchmaker_settings_refusals() {
    let mut db = Db::new();
    let c = ctx(0, 0);
    assert_eq!(set_matchmaker_enabled(&c, &mut db, true, 1, 4, 5000, AuctionType::FirstPrice), Err(GameError::MatchSizeRange));
    assert_eq!(set_matchmaker_enabled(&c, &mut db, true, 3, 2, 5000, AuctionType::FirstPrice), Err(GameError::MatchSizeRange));
    assert_eq!(set_matchmaker_enabled(&c, &mut db, true, 2, 4, 999, AuctionType::FirstPrice), Err(GameError::IntervalTooShort));
    assert!(db.matchmaker_config.is_empty());
    assert!(db.matchmaker_schedule.is_empty());
}

#[test]
fn enabling_the_matchmaker_schedules_one_tick() {
    let mut db = Db::new();
    assert_eq!(set_matchmaker_enabled(&ctx(0, 1_000), &mut db, true, 2, 3, 5000, AuctionType::Vickrey), Ok(()));
    assert_eq!(db.matchmaker_config.len(), 1);
    let cfg = db.matchmaker_config[0];
    assert_eq!((cfg.id, cfg.enabled, cfg.match_size_min, cfg.match_size_max, cfg.interval_ms), (0, true, 2, 3, 5000));
    assert_eq!(db.matchmaker_schedule.len(), 1);
    assert_eq!(db.matchmaker_schedule[0].scheduled_at, Timestamp { micros_since_unix_epoch: 5_001_000 });
    assert_eq!(set_matchmaker_enabled(&ctx(0, 2_000), &mut db, true, 2, 2, 1000, AuctionType::FirstPrice), Ok(()));
    assert_eq!(db.matchmaker_config.len(), 1);
    assert_eq!(db.matchmaker_config[0].match_size_max, 2);
    assert_eq!(db.matchmaker_schedule.len(), 1);
    assert_eq!(set_matchmaker_enabled(&ctx(0, 3_000), &mut db, false, 2, 2, 1000, AuctionType::FirstPrice), Ok(()));
    assert!(!db.matchmaker_config[0].enabled);
}

#[test]
fn matchmaker_tick_matches_free_bots_only() {
    let mut db = with_bots(3);
    let mut r = StdRng::seed_from_u64(11);
    set_matchmaker_enabled(&ctx(0, 0), &mut db, true, 2, 2, 1000, AuctionType::FirstPrice).unwrap();
    let job = db.matchmaker_schedule[0];
    matchmaker_tick(&ctx(0, 1_000_000), &mut db, &mut r, job);
    assert_eq!(db.match_state.len(), 1);
    assert_eq!(db.match_participant.len(), 2);
    assert_eq!(db.matchmaker_schedule.len(), 2);
    assert_eq!(db.matchmaker_schedule[1].scheduled_at, Timestamp { micros_since_unix_epoch: 2_000_000 });
    // Two bots are now busy, so one is free: fewer than the minimum.
    matchmaker_tick(&ctx(0, 2_000_000), &mut db, &mut r, job);
    assert_eq!(db.match_state.len(), 1);
    assert_eq!(db.matchmaker_schedule.len(), 3);
}

#[test]
fn disabled_matchmaker_tick_does_nothing() {
    let mut db = with_bots(3);
    let mut r = StdRng::seed_from_u64(11);
    set_matchmaker_enabled(&ctx(0, 0), &mut db, false, 2, 2, 1000, AuctionType::FirstPrice).unwrap();
    assert!(db.matchmaker_schedule.is_empty());
    let job = wordsmith::types::MatchmakerSchedule { scheduled_id: 1, scheduled_at: Timestamp { micros_since_unix_epoch: 0 } };
    matchmaker_tick(&ctx(0, 1_000_000), &mut db, &mut r, job);
    assert!(db.match_state.is_empty());
    assert!(db.matchmaker_schedule.is_empty());
}

#[test]
fn stats_start_fresh() {
    let db = with_bots(1);
    let s = get_or_init_stats(&db, id(1));
    assert_eq!(s.bot, id(1));
    assert_eq!(s.rating, INITIAL_RATING);
    assert_eq!(s.rating, 1000);
    assert_eq!((s.matches_played, s.wins, s.total_score, s.last_played), (0, 0, 0, None));
}

#[test]
fn placements_order_by_score_with_ties_in_table_order() {
    let mut db = with_bots(3);
    let mut r = StdRng::seed_from_u64(2);
    start_match_for(&ctx(0, 0), &mut db, &mut r, AuctionType::FirstPrice, vec![id(1), id(2), id(3)]).unwrap();
    db.match_participant[0].score = 5;
    db.match_participant[1].score = 9;
    db.match_participant[2].score = 5;
    let order: Vec<u128> = placements(&db, 1).iter().map(|p| p.bot.low).collect();
    assert_eq!(order, vec![2, 1, 3]);
}

#[test]
fn recording_a_match_updates_counters_and_ratings() {
    let mut db = with_bots(2);
    let mut r = StdRng::seed_from_u64(2);
    start_match_for(&ctx(0, 0), &mut db, &mut r, AuctionType::FirstPrice, vec![id(1), id(2)]).unwrap();
    db.match_participant[0].score = 4;
    db.match_participant[1].score = 12;
    record_match_stats(&ctx(0, 99), &mut db, 1, &vec![1016, -5]);
    let winner = get_or_init_stats(&db, id(2));
    assert_eq!((winner.rating, winner.matches_played, winner.wins, winner.total_score), (1016, 1, 1, 12));
    assert_eq!(winner.last_played, Some(Timestamp { micros_since_unix_epoch: 99 }));
    let loser = get_or_init_stats(&db, id(1));
    assert_eq!((loser.rating, loser.matches_played, loser.wins, loser.total_score), (0, 1, 0, 4));
    record_match_stats(&ctx(0, 100), &mut db, 1, &vec![1020, 990]);
    let winner = get_or_init_stats(&db, id(2));
    assert_eq!((winner.rating, winner.matches_played, winner.wins, winner.total_score), (1020, 2, 2, 24));
    assert_eq!(db.bot_stats.len(), 2);
}

#[test]
fn recording_a_solo_match_changes_nothing() {
    let mut db = with_bots(1);
    let mut r = StdRng::seed_from_u64(2);
    start_match_for(&ctx(0, 0), &mut db, &mut r, AuctionType::FirstPrice, vec![id(1)]).unwrap();
    record_match_stats(&ctx(0, 99), &mut db, 1, &vec![1200]);
    assert!(db.bot_stats.is_empty());
}

#[test]
fn rounds_of_an_unknown_tournament_are_refused() {
    let mut db = with_bots(2);
    let mut r = StdRng::seed_from_u64(4);
    assert_eq!(wordsmith::tournament::start_swiss_round(&ctx(0, 0), &mut db, &mut r, 9, 1), Err(GameError::UnknownTournament));
    assert_eq!(wordsmith::tournament::start_bracket_round(&ctx(0, 0), &mut db, &mut r, 9), Err(GameError::UnknownTournament));
    assert!(db.match_state.is_empty());
}

#[test]
fn second_swiss_round_pairs_by_points() {
    let mut db = with_bots(4);
    let mut r = StdRng::seed_from_u64(8);
    start_tournament(&ctx(0, 0), &mut db, &mut r, 2, 2, 2, AuctionType::FirstPrice).unwrap();
    finish(&mut db, &mut r, 1, 10);
    finish(&mut db, &mut r, 2, 20);
    // Round 2 pairs the two round winners, then the two losers.
    assert_eq!(db.tournament[0].status, TournamentStatus::Swiss);
    assert_eq!(db.tournament[0].current_round, 2);
    assert_eq!(db.match_state.len(), 4);
    let winners: Vec<u128> = db.match_participant.iter().filter(|p| p.match_id == 3).map(|p| p.bot.low).collect();
    assert!(winners.iter().all(|b| points_of(&db, *b) == 2));
    let losers: Vec<u128> = db.match_participant.iter().filter(|p| p.match_id == 4).map(|p| p.bot.low).collect();
    assert!(losers.iter().all(|b| points_of(&db, *b) == 1));
}
