//! The continuous matchmaker: its settings, and the tick that starts a
//! match among the bots that are free.
use vstd::prelude::*;
use rand::rngs::StdRng;
use crate::types::{
    AuctionType, GameError, Identity, MatchmakerConfig, MatchmakerSchedule, MatchStatus, ReducerContext, Timestamp,
};
use crate::db::{Db, DbView, Sequences, Row, has_id, row_with_id, find_index, insert_row, lemma_row_with_id_at, lemma_insert_ids};
use crate::matchplay::{
    add_millis, all_bot_identities, bot_identities, can_add_millis, later_by, start_match_with, start_match_with_outcome,
    start_room,
};
use crate::rng::shuffle;
use crate::bag::draw_outcome;
use crate::matchplay::{match_rows_outcome, new_match, new_participants, open_auction_outcome, unknown_bot};
use crate::db::lemma_find_first_none;

verus! {

/// The matchmaker's settings row as written by its reducer.
pub open spec fn config_row(enabled: bool, match_size_min: u32, match_size_max: u32, interval_ms: u64, auction_type: AuctionType) -> MatchmakerConfig {
    MatchmakerConfig { id: 0, enabled, match_size_min, match_size_max, interval_ms, auction_type }
}

/// The settings table with the row of id 0 replaced by `row`, or `row`
/// added when there is none.
pub open spec fn set_config(configs: Seq<MatchmakerConfig>, row: MatchmakerConfig) -> Seq<MatchmakerConfig> {
    if exists|i: int| 0 <= i < configs.len() && (#[trigger] configs[i]).id == 0 {
        configs.map_values(|c: MatchmakerConfig| if c.id == 0 { row } else { c })
    } else {
        configs.push(row)
    }
}

/// The tables with one more matchmaker tick, `interval_ms` after `at`.
pub open spec fn with_tick(db: DbView, at: Timestamp, interval_ms: u64) -> DbView {
    DbView {
        matchmaker_schedule: db.matchmaker_schedule.push(MatchmakerSchedule {
            scheduled_id: db.next.matchmaker_schedule,
            scheduled_at: later_by(at, interval_ms as int),
        }),
        next: Sequences { matchmaker_schedule: (db.next.matchmaker_schedule + 1) as u64, ..db.next },
        ..db
    }
}

/// Changing the matchmaker's settings: refused unless matches have at
/// least two bots and the maximum is at least the minimum, and the interval
/// is at least a second; otherwise the settings are stored and, when the
/// matchmaker is enabled and no tick is pending, its first tick is
/// scheduled one interval ahead.
pub open spec fn settings_outcome(
    old_db: DbView,
    new_db: DbView,
    at: Timestamp,
    enabled: bool,
    match_size_min: u32,
    match_size_max: u32,
    interval_ms: u64,
    auction_type: AuctionType,
    r: Result<(), GameError>,
) -> bool {
    if match_size_min < 2 || match_size_max < match_size_min {
        r == Err::<(), GameError>(GameError::MatchSizeRange) && new_db == old_db
    } else if interval_ms < 1000 {
        r == Err::<(), GameError>(GameError::IntervalTooShort) && new_db == old_db
    } else {
        let d1 = DbView {
            matchmaker_config: set_config(old_db.matchmaker_config, config_row(enabled, match_size_min, match_size_max, interval_ms, auction_type)),
            ..old_db
        };
        &&& r is Ok
        &&& new_db == if enabled && old_db.matchmaker_schedule.len() == 0 { with_tick(d1, at, interval_ms) } else { d1 }
    }
}

/// Whether a matchmaker tick is pending.
fn is_matchmaker_scheduled(db: &Db) -> (b: bool)
    ensures
        b == (db@.matchmaker_schedule.len() > 0),
{
    db.matchmaker_schedule.len() > 0
}

/// The position of the settings row (id 0), if any.
fn find_config(db: &Db) -> (r: Option<usize>)
    ensures
        match r {
            Some(i) => i < db@.matchmaker_config.len() && db@.matchmaker_config[i as int].id == 0,
            None => forall|i: int| 0 <= i < db@.matchmaker_config.len() ==> (#[trigger] db@.matchmaker_config[i]).id != 0,
        },
{
    let n = db.matchmaker_config.len();
    let mut i: usize = 0;
    while i < n
        invariant
            n == db@.matchmaker_config.len(),
            i <= n,
            forall|k: int| 0 <= k < i ==> (#[trigger] db@.matchmaker_config[k]).id != 0,
        decreases n - i,
    {
        if db.matchmaker_config[i].id == 0 {
            return Some(i);
        }
        i = i + 1;
    }
    None
}

/// Turns the matchmaker on or off and sets its match sizes, interval and
/// auction kind.
pub fn set_matchmaker_enabled(
    ctx: &ReducerContext,
    db: &mut Db,
    enabled: bool,
    match_size_min: u32,
    match_size_max: u32,
    interval_ms: u64,
    auction_type: AuctionType,
) -> (r: Result<(), GameError>)
    requires
        old(db)@.wf(),
        old(db)@.next.matchmaker_schedule < u64::MAX,
        enabled && old(db)@.matchmaker_schedule.len() == 0 ==> can_add_millis(ctx.timestamp, interval_ms as int),
    ensures
        settings_outcome(old(db)@, final(db)@, ctx.timestamp, enabled, match_size_min, match_size_max, interval_ms, auction_type, r),
        final(db)@.wf(),
{
    if match_size_min < 2 || match_size_max < match_size_min {
        return Err(GameError::MatchSizeRange);
    }
    if interval_ms < 1000 {
        return Err(GameError::IntervalTooShort);
    }
    let ghost old_db = db@;
    let row = MatchmakerConfig { id: 0, enabled, match_size_min, match_size_max, interval_ms, auction_type };
    match find_config(db) {
        Some(i) => {
            db.matchmaker_config.set(i, row);
            proof {
                let cs = old_db.matchmaker_config;
                assert forall|k: int| 0 <= k < cs.len() implies (#[trigger] db@.matchmaker_config[k]) == (if cs[k].id == 0 { row } else { cs[k] }) by {
                    if k != i && cs[k].id == 0 {
                        if k < i { assert(cs[k].id != cs[i as int].id); } else { assert(cs[i as int].id != cs[k].id); }
                    }
                }
                assert(db@.matchmaker_config =~= set_config(cs, row));
            }
        },
        None => {
            db.matchmaker_config.push(row);
            proof {
                assert(db@.matchmaker_config =~= set_config(old_db.matchmaker_config, row));
            }
        },
    }
    let ghost d1 = db@;
    if enabled && !is_matchmaker_scheduled(db) {
        let at = add_millis(ctx.timestamp, interval_ms);
        let job = MatchmakerSchedule { scheduled_id: 0, scheduled_at: at };
        proof {
            lemma_insert_ids(db@.matchmaker_schedule, db@.next.matchmaker_schedule, job);
        }
        insert_row(&mut db.matchmaker_schedule, &mut db.next.matchmaker_schedule, job);
        proof {
            assert(db@ == with_tick(d1, ctx.timestamp, interval_ms));
        }
    }
    Ok(())
}

/// The bot takes part in a running match.
pub open spec fn is_busy(db: DbView, bot: Identity) -> bool {
    exists|k: int| #![trigger db.match_participant[k]] 0 <= k < db.match_participant.len() && db.match_participant[k].bot == bot
        && has_id(db.match_state, db.match_participant[k].match_id)
        && row_with_id(db.match_state, db.match_participant[k].match_id).status == MatchStatus::Running
}

pub open spec fn is_free(db: DbView) -> spec_fn(Identity) -> bool {
    |id: Identity| !is_busy(db, id)
}

/// The registered bots that take part in no running match, in table order.
pub open spec fn free_bots(db: DbView) -> Seq<Identity> {
    bot_identities(db.bot).filter(is_free(db))
}

/// Whether the bot takes part in a running match.
fn bot_is_busy(db: &Db, bot: Identity) -> (b: bool)
    requires
        db@.wf(),
    ensures
        b == is_busy(db@, bot),
{
    let n = db.match_participant.len();
    let mut k: usize = 0;
    while k < n
        invariant
            n == db@.match_participant.len(),
            k <= n,
            db@.wf(),
            forall|j: int| 0 <= j < k ==> !(#[trigger] db@.match_participant[j].bot == bot
                && has_id(db@.match_state, db@.match_participant[j].match_id)
                && row_with_id(db@.match_state, db@.match_participant[j].match_id).status == MatchStatus::Running),
        decreases n - k,
    {
        let p = db.match_participant[k];
        if p.bot == bot {
            match find_index(&db.match_state, p.match_id) {
                Some(mi) => {
                    proof {
                        lemma_row_with_id_at(db@.match_state, mi as int);
                    }
                    if db.match_state[mi].status == MatchStatus::Running {
                        return true;
                    }
                },
                None => {},
            }
        }
        k = k + 1;
    }
    false
}

/// The registered bots that take part in no running match, in table order.
fn free_bots_exec(db: &Db) -> (r: Vec<Identity>)
    requires
        db@.wf(),
    ensures
        r@ == free_bots(db@),
{
    let all = all_bot_identities(db);
    let ghost s = all@;
    let mut out: Vec<Identity> = Vec::new();
    let n = all.len();
    let mut i: usize = 0;
    proof {
        reveal(Seq::filter);
        assert(s.take(0) =~= Seq::<Identity>::empty());
    }
    while i < n
        invariant
            n == s.len(),
            s == all@,
            s == bot_identities(db@.bot),
            db@.wf(),
            i <= n,
            out@ == s.take(i as int).filter(is_free(db@)),
        decreases n - i,
    {
        let id = all[i];
        if !bot_is_busy(db, id) {
            out.push(id);
        }
        proof {
            reveal(Seq::filter);
            assert(s.take(i + 1).drop_last() =~= s.take(i as int));
        }
        i = i + 1;
    }
    proof {
        assert(s.take(n as int) =~= s);
    }
    out
}

/// The settings row (id 0), if any.
pub open spec fn config_of(db: DbView) -> Option<MatchmakerConfig> {
    if exists|i: int| 0 <= i < db.matchmaker_config.len() && (#[trigger] db.matchmaker_config[i]).id == 0 {
        Some(db.matchmaker_config[choose|i: int| 0 <= i < db.matchmaker_config.len() && (#[trigger] db.matchmaker_config[i]).id == 0])
    } else {
        None
    }
}

/// The number of bots in a matchmade match: all free ones, up to the
/// maximum.
pub open spec fn roster_size(match_size_max: u32, free: int) -> int {
    if match_size_max < free { match_size_max as int } else { free }
}

/// A matchmaker tick: with the matchmaker enabled and at least the minimum
/// number of free bots, a match is started among up to the maximum of them,
/// taken in an order drawn at random (a failure to start it keeps what was
/// done); either way the next tick is scheduled one interval ahead. With no
/// settings, or the matchmaker disabled, nothing changes.
pub open spec fn matchmaker_tick_outcome(old_db: DbView, new_db: DbView, at: Timestamp) -> bool {
    match config_of(old_db) {
        None => new_db == old_db,
        Some(c) => if !c.enabled {
            new_db == old_db
        } else {
            let free = free_bots(old_db);
            if free.len() >= c.match_size_min {
                exists|order: Seq<Identity>, d1: DbView, rr: Result<u64, GameError>|
                    #[trigger] start_match_with_outcome(old_db, d1, at, c.auction_type, order.take(roster_size(c.match_size_max, free.len() as int)), rr)
                    && order.to_multiset() == free.to_multiset()
                    && new_db == with_tick(d1, at, c.interval_ms)
            } else {
                new_db == with_tick(old_db, at, c.interval_ms)
            }
        },
    }
}

/// The room that a matchmaker tick needs.
pub open spec fn matchmaker_room(db: DbView, at: Timestamp) -> bool {
    &&& start_room(db, db.bot.len() as int, at)
    &&& db.next.matchmaker_schedule < u64::MAX
    &&& config_of(db) matches Some(c) ==> can_add_millis(at, c.interval_ms as int)
}

/// Starts a match among free bots when the matchmaker is enabled, and
/// schedules the next tick.
pub fn matchmaker_tick(ctx: &ReducerContext, db: &mut Db, rng: &mut StdRng, job: MatchmakerSchedule)
    requires
        old(db)@.wf(),
        matchmaker_room(old(db)@, ctx.timestamp),
    ensures
        matchmaker_tick_outcome(old(db)@, final(db)@, ctx.timestamp),
        final(db)@.wf(),
{
    let ghost old_db = db@;
    let ci = match find_config(db) {
        Some(ci) => ci,
        None => {
            return;
        },
    };
    let cfg = db.matchmaker_config[ci];
    proof {
        let cs = old_db.matchmaker_config;
        let c = choose|i: int| 0 <= i < cs.len() && (#[trigger] cs[i]).id == 0;
        if c != ci {
            if c < ci { assert(cs[c].id != cs[ci as int].id); } else { assert(cs[ci as int].id != cs[c].id); }
        }
        assert(config_of(old_db) == Some(cfg));
    }
    if !cfg.enabled {
        return;
    }
    let mut available = free_bots_exec(db);
    let ghost free = available@;
    proof {
        bot_identities(db@.bot).lemma_filter_len(is_free(db@));
    }
    let ghost d1: DbView;
    let ghost order_g: Seq<Identity> = Seq::empty();
    let ghost rr_g: Result<u64, GameError> = Err(GameError::NoParticipants);
    let ghost take_g: int = 0;
    if available.len() >= cfg.match_size_min as usize {
        let take: usize = if (cfg.match_size_max as usize) < available.len() { cfg.match_size_max as usize } else { available.len() };
        shuffle(&mut available, rng);
        let ghost order = available@;
        let mut roster: Vec<Identity> = Vec::new();
        let mut q: usize = 0;
        while q < take
            invariant
                q <= take,
                take <= available@.len(),
                roster@ == available@.take(q as int),
            decreases take - q,
        {
            roster.push(available[q]);
            proof {
                assert(available@.take(q + 1) =~= available@.take(q as int).push(available@[q as int]));
            }
            q = q + 1;
        }
        let rr = start_match_with(ctx, db, rng, cfg.auction_type, &roster);
        proof {
            d1 = db@;
            order_g = order;
            rr_g = rr;
            take_g = take as int;
            assert(start_match_with_outcome(old_db, d1, ctx.timestamp, cfg.auction_type, order.take(take as int), rr));
        }
    } else {
        proof {
            d1 = db@;
        }
    }
    let at = add_millis(ctx.timestamp, cfg.interval_ms);
    let next_job = MatchmakerSchedule { scheduled_id: 0, scheduled_at: at };
    proof {
        lemma_insert_ids(db@.matchmaker_schedule, db@.next.matchmaker_schedule, next_job);
    }
    insert_row(&mut db.matchmaker_schedule, &mut db.next.matchmaker_schedule, next_job);
    proof {
        assert(db@ == with_tick(d1, ctx.timestamp, cfg.interval_ms));
        if free.len() >= cfg.match_size_min {
            assert(take_g == roster_size(cfg.match_size_max, free.len() as int));
            assert(start_match_with_outcome(old_db, d1, ctx.timestamp, cfg.auction_type, order_g.take(roster_size(cfg.match_size_max, free.len() as int)), rr_g));
            assert(order_g.to_multiset() == free.to_multiset());
        }
    }
}

/// A matchmaker tick that finds at least the minimum of free bots starts
/// one match of the free bots, as many as there are up to the maximum:
/// exactly that many participant rows are added, each for a free bot, in
/// one new match, and the next tick is scheduled.
pub proof fn lemma_matchmaker_match_size(old_db: DbView, new_db: DbView, at: Timestamp)
    requires
        old_db.wf(),
        matchmaker_tick_outcome(old_db, new_db, at),
        config_of(old_db) matches Some(c) && c.enabled && free_bots(old_db).len() >= c.match_size_min
            && c.match_size_max > 0 && free_bots(old_db).len() > 0,
    ensures
        ({
            let c = config_of(old_db)->0;
            let free = free_bots(old_db);
            let size = if c.match_size_max < free.len() { c.match_size_max as int } else { free.len() as int };
            &&& new_db.match_state.len() == old_db.match_state.len() + 1
            &&& new_db.match_participant.len() == old_db.match_participant.len() + size
            &&& forall|k: int| old_db.match_participant.len() <= k < new_db.match_participant.len() ==> {
                &&& (#[trigger] new_db.match_participant[k]).match_id == old_db.next.match_state
                &&& free.contains(new_db.match_participant[k].bot)
            }
            &&& new_db.matchmaker_schedule.len() == old_db.matchmaker_schedule.len() + 1
        }),
{
    broadcast use vstd::seq_lib::group_to_multiset_ensures;
    let c = config_of(old_db)->0;
    let free = free_bots(old_db);
    let n = roster_size(c.match_size_max, free.len() as int);
    let (order, d1, rr) = choose|order: Seq<Identity>, d1: DbView, rr: Result<u64, GameError>|
        #[trigger] start_match_with_outcome(old_db, d1, at, c.auction_type, order.take(roster_size(c.match_size_max, free.len() as int)), rr)
        && order.to_multiset() == free.to_multiset()
        && new_db == with_tick(d1, at, c.interval_ms);
    order.to_multiset_ensures();
    free.to_multiset_ensures();
    assert(order.len() == free.len());
    let roster = order.take(n);
    assert forall|q: int| 0 <= q < roster.len() implies free.contains(#[trigger] roster[q]) by {
        assert(roster[q] == order[q]);
        assert(order.contains(order[q]));
        assert(order.to_multiset().count(order[q]) > 0);
    }
    assert forall|q: int| 0 <= q < roster.len() implies !unknown_bot(old_db.bot)(#[trigger] roster[q]) by {
        assert(free.contains(roster[q]));
        bot_identities(old_db.bot).lemma_filter_contains_rev(is_free(old_db), roster[q]);
        let j = choose|j: int| 0 <= j < bot_identities(old_db.bot).len() && bot_identities(old_db.bot)[j] == roster[q];
        assert(old_db.bot[j].identity == roster[q]);
    }
    lemma_find_first_none(roster, unknown_bot(old_db.bot));
    let mid = old_db.next.match_state;
    let (da, db, idx, l) = choose|da: DbView, db: DbView, idx: int, l: String|
        #![trigger match_rows_outcome(old_db, da, at, c.auction_type, roster, mid), draw_outcome(da, db, new_match(mid, at, c.auction_type), idx, Some(l))]
        {
            &&& match_rows_outcome(old_db, da, at, c.auction_type, roster, mid)
            &&& 0 <= idx < 98
            &&& draw_outcome(da, db, new_match(mid, at, c.auction_type), idx, Some(l))
            &&& open_auction_outcome(db, d1, at, mid, l@, false)
        };
    assert(da.match_participant == old_db.match_participant + new_participants(old_db.next.match_participant, mid, roster));
    assert(db.match_participant == da.match_participant);
    assert(db.match_state.len() == da.match_state.len());
    assert forall|k: int| old_db.match_participant.len() <= k < new_db.match_participant.len() implies {
        &&& (#[trigger] new_db.match_participant[k]).match_id == old_db.next.match_state
        &&& free.contains(new_db.match_participant[k].bot)
    } by {
        let q = k - old_db.match_participant.len();
        assert(new_db.match_participant[k] == new_participants(old_db.next.match_participant, mid, roster)[q]);
        assert(free.contains(roster[q]));
    }
}

} // verus!
