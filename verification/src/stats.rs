//! Bots' ratings and counters across matches, and the racks that callers
//! see.
use vstd::prelude::*;
use crate::types::{BotStats, Holding, Identity, MatchParticipant, ReducerContext, Timestamp};
use crate::db::{Db, DbView};
use crate::matchplay::{in_match, participants_of};
use crate::sorting::{sort_ranked, stable_sort};

verus! {

/// The rating a bot starts with.
pub const INITIAL_RATING: i32 = 1000;

/// The stats of a bot that has played no match yet.
pub open spec fn fresh_stats(bot: Identity) -> BotStats {
    BotStats { bot, rating: INITIAL_RATING, matches_played: 0, wins: 0, total_score: 0, last_played: None }
}

pub open spec fn has_stats(stats: Seq<BotStats>, bot: Identity) -> bool {
    exists|i: int| 0 <= i < stats.len() && (#[trigger] stats[i]).bot == bot
}

/// The bot's stats row, or fresh stats when it has none.
pub open spec fn stats_of(stats: Seq<BotStats>, bot: Identity) -> BotStats {
    if has_stats(stats, bot) {
        stats[choose|i: int| 0 <= i < stats.len() && (#[trigger] stats[i]).bot == bot]
    } else {
        fresh_stats(bot)
    }
}

/// The bot's stats, or fresh stats when it has none yet.
pub fn get_or_init_stats(db: &Db, bot: Identity) -> (s: BotStats)
    requires
        db@.wf(),
    ensures
        s == stats_of(db@.bot_stats, bot),
{
    let n = db.bot_stats.len();
    let mut i: usize = 0;
    while i < n
        invariant
            n == db@.bot_stats.len(),
            i <= n,
            db@.wf(),
            forall|k: int| 0 <= k < i ==> (#[trigger] db@.bot_stats[k]).bot != bot,
        decreases n - i,
    {
        if db.bot_stats[i].bot == bot {
            proof {
                let bs = db@.bot_stats;
                let c = choose|k: int| 0 <= k < bs.len() && (#[trigger] bs[k]).bot == bot;
                if c != i {
                    if c < i { assert(bs[c].bot != bs[i as int].bot); } else { assert(bs[i as int].bot != bs[c].bot); }
                }
            }
            return db.bot_stats[i];
        }
        i = i + 1;
    }
    BotStats { bot, rating: INITIAL_RATING, matches_played: 0, wins: 0, total_score: 0, last_played: None }
}

/// The participants of a match by final placement: highest score first,
/// ties in table order.
pub open spec fn placement_order(db: DbView, match_id: u64) -> Seq<MatchParticipant> {
    sort_ranked(db.match_participant.filter(in_match(match_id)))
}

/// The participants of a match by final placement.
pub fn placements(db: &Db, match_id: u64) -> (r: Vec<MatchParticipant>)
    ensures
        r@ == placement_order(db@, match_id),
{
    stable_sort(participants_of(db, match_id))
}

/// A rating as stored: never below 0.
pub open spec fn floor_rating(r: i32) -> i32 {
    if r < 0 { 0 } else { r }
}

/// One participant's stats after the match: the new rating, one more match
/// played, a win for first place, the match score added, and the time.
pub open spec fn stats_after(old: BotStats, p: MatchParticipant, rating: i32, win: bool, at: Timestamp) -> BotStats {
    BotStats {
        rating: floor_rating(rating),
        matches_played: (old.matches_played + 1) as u32,
        wins: (old.wins + if win { 1int } else { 0int }) as u32,
        total_score: (old.total_score + p.score) as i64,
        last_played: Some(at),
        ..old
    }
}

/// The stats table after recording one participant: its row is replaced,
/// or added when it had none.
pub open spec fn record_step(stats: Seq<BotStats>, p: MatchParticipant, rating: i32, win: bool, at: Timestamp) -> Seq<BotStats> {
    let row = stats_after(stats_of(stats, p.bot), p, rating, win, at);
    if has_stats(stats, p.bot) {
        stats.map_values(|s: BotStats| if s.bot == p.bot { row } else { s })
    } else {
        stats.push(row)
    }
}

/// The stats table after recording the first `k` placements.
pub open spec fn record_all(stats: Seq<BotStats>, placed: Seq<MatchParticipant>, ratings: Seq<i32>, at: Timestamp, k: int) -> Seq<BotStats>
    decreases k,
{
    if k <= 0 {
        stats
    } else {
        record_step(record_all(stats, placed, ratings, at, k - 1), placed[k - 1], ratings[k - 1], k - 1 == 0, at)
    }
}

/// Recording the first `k` placements, in turn, overflows no counter: each
/// participant's matches, wins and total score still fit their types.
pub open spec fn record_fits(stats: Seq<BotStats>, placed: Seq<MatchParticipant>, ratings: Seq<i32>, at: Timestamp, k: int) -> bool
    decreases k,
{
    if k <= 0 {
        true
    } else {
        let e = stats_of(record_all(stats, placed, ratings, at, k - 1), placed[k - 1].bot);
        &&& record_fits(stats, placed, ratings, at, k - 1)
        &&& e.matches_played + 1 <= u32::MAX
        &&& e.wins + (if k - 1 == 0 { 1int } else { 0int }) <= u32::MAX
        &&& i64::MIN <= e.total_score + placed[k - 1].score <= i64::MAX
    }
}

proof fn lemma_record_fits_prefix(stats: Seq<BotStats>, placed: Seq<MatchParticipant>, ratings: Seq<i32>, at: Timestamp, j: int, k: int)
    requires
        0 <= j <= k,
        record_fits(stats, placed, ratings, at, k),
    ensures
        record_fits(stats, placed, ratings, at, j),
    decreases k - j,
{
    if j < k {
        lemma_record_fits_prefix(stats, placed, ratings, at, j, k - 1);
    }
}

/// The stats after a match: for each participant in placement order, the
/// new rating (of the same position in `new_ratings`, floored at 0), one
/// more match, a win for first place and the score. A match of fewer than
/// two participants changes nothing.
pub open spec fn match_stats_outcome(old_db: DbView, new_db: DbView, at: Timestamp, match_id: u64, new_ratings: Seq<i32>) -> bool {
    let placed = placement_order(old_db, match_id);
    if placed.len() < 2 {
        new_db == old_db
    } else {
        new_db == (DbView { bot_stats: record_all(old_db.bot_stats, placed, new_ratings, at, placed.len() as int), ..old_db })
    }
}

/// Records the end of a match in its participants' stats, with the new
/// ratings computed for them in placement order.
pub fn record_match_stats(ctx: &ReducerContext, db: &mut Db, match_id: u64, new_ratings: &Vec<i32>)
    requires
        old(db)@.wf(),
        new_ratings@.len() == placement_order(old(db)@, match_id).len(),
        placement_order(old(db)@, match_id).len() >= 2 ==> record_fits(
            old(db)@.bot_stats,
            placement_order(old(db)@, match_id),
            new_ratings@,
            ctx.timestamp,
            placement_order(old(db)@, match_id).len() as int,
        ),
    ensures
        match_stats_outcome(old(db)@, final(db)@, ctx.timestamp, match_id, new_ratings@),
        final(db)@.wf(),
{
    let ghost old_db = db@;
    let placed = placements(db, match_id);
    let n = placed.len();
    if n < 2 {
        return;
    }
    let ghost s0 = db@.bot_stats;
    let mut idx: usize = 0;
    while idx < n
        invariant
            idx <= n,
            n == placed@.len(),
            placed@ == placement_order(old_db, match_id),
            new_ratings@.len() == n,
            old_db == old(db)@,
            s0 == old_db.bot_stats,
            record_fits(s0, placed@, new_ratings@, ctx.timestamp, n as int),
            db@ == (DbView { bot_stats: record_all(s0, placed@, new_ratings@, ctx.timestamp, idx as int), ..old_db }),
            db@.wf(),
        decreases n - idx,
    {
        let p = placed[idx];
        let existing = get_or_init_stats(db, p.bot);
        let rating: i32 = if new_ratings[idx] < 0 { 0 } else { new_ratings[idx] };
        let win: u32 = if idx == 0 { 1 } else { 0 };
        proof {
            lemma_record_fits_prefix(s0, placed@, new_ratings@, ctx.timestamp, idx + 1, n as int);
            if has_stats(db@.bot_stats, p.bot) {
                let c = choose|k: int| 0 <= k < db@.bot_stats.len() && (#[trigger] db@.bot_stats[k]).bot == p.bot;
                assert(db@.bot_stats[c] == existing);
            }
        }
        let row = BotStats {
            bot: existing.bot,
            rating,
            matches_played: existing.matches_played + 1,
            wins: existing.wins + win,
            total_score: existing.total_score + p.score,
            last_played: Some(ctx.timestamp),
        };
        let ghost cur = db@.bot_stats;
        let sn = db.bot_stats.len();
        let mut i: usize = 0;
        let mut found = false;
        while i < sn
            invariant
                sn == db@.bot_stats.len(),
                i <= sn,
                cur.len() == sn,
                db@.bot_stats.len() == sn,
                found ==> has_stats(cur, p.bot),
                !found ==> forall|k: int| 0 <= k < i ==> (#[trigger] cur[k]).bot != p.bot,
                forall|k: int| 0 <= k < i ==> #[trigger] db@.bot_stats[k] == (if cur[k].bot == p.bot { row } else { cur[k] }),
                forall|k: int| i <= k < sn ==> #[trigger] db@.bot_stats[k] == cur[k],
                db@ == (DbView { bot_stats: db@.bot_stats, ..old_db }),
            decreases sn - i,
        {
            if db.bot_stats[i].bot == p.bot {
                db.bot_stats.set(i, row);
                found = true;
            }
            i = i + 1;
        }
        if !found {
            db.bot_stats.push(row);
        }
        proof {
            assert(row == stats_after(stats_of(cur, p.bot), p, new_ratings@[idx as int], idx == 0, ctx.timestamp));
            if found {
                assert(db@.bot_stats =~= cur.map_values(|s: BotStats| if s.bot == p.bot { row } else { s }));
            } else {
                assert(db@.bot_stats =~= cur.push(row));
            }
            assert(record_all(s0, placed@, new_ratings@, ctx.timestamp, idx + 1) == record_step(cur, p, new_ratings@[idx as int], idx == 0, ctx.timestamp));
            let bs = db@.bot_stats;
            assert forall|a: int, b: int| #![trigger bs[a], bs[b]] 0 <= a < b < bs.len() implies bs[a].bot != bs[b].bot by {
                if b < cur.len() {
                    assert(cur[a].bot != cur[b].bot);
                } else {
                    assert(cur[a].bot != p.bot);
                }
            }
        }
        idx = idx + 1;
    }
}

pub open spec fn held_by(bot: Identity) -> spec_fn(Holding) -> bool {
    |h: Holding| h.bot == bot
}

/// The caller's holdings in all matches, in table order.
pub fn my_rack(ctx: &ReducerContext, db: &Db) -> (r: Vec<Holding>)
    ensures
        r@ == db@.holding.filter(held_by(ctx.sender)),
{
    let ghost s = db@.holding;
    let mut out: Vec<Holding> = Vec::new();
    let n = db.holding.len();
    let mut i: usize = 0;
    proof {
        reveal(Seq::filter);
        assert(s.take(0) =~= Seq::<Holding>::empty());
    }
    while i < n
        invariant
            n == s.len(),
            s == db@.holding,
            i <= n,
            out@ == s.take(i as int).filter(held_by(ctx.sender)),
        decreases n - i,
    {
        let h = &db.holding[i];
        if h.bot == ctx.sender {
            out.push(h.copy());
        }
        proof {
            reveal(Seq::filter);
            assert(s.take(i + 1).drop_last() =~= s.take(i as int));
        }
        i = i + 1;
    }
    proof {
        assert(s.take(n as int) =~= s);
    }
    out
}

} // verus!
