//! Starting matches, opening auctions, and the simulated bots' bids.
use vstd::prelude::*;
use rand::rngs::StdRng;
use crate::types::{
    Auction, AuctionSchedule, AuctionStatus, AuctionType, BagLetter, Bot, GameError, Identity, Match,
    MatchParticipant, MatchStatus, PendingBid, ReducerContext, Timestamp,
};
use crate::db::{Db, DbView, Sequences, Row, has_id, row_with_id, replace_by_id, find_index, update_row, insert_row, lemma_row_with_id_at, lemma_insert_ids, is_first, find_first, lemma_find_first_at, lemma_find_first_none};
use crate::bots::{has_bot, bot_with_identity, find_bot_index, lemma_bot_at};
use crate::bidding::{without_bids_of, remove_bids_of, lemma_filter_ids, is_bid_of};
use crate::auction::{decide_bid, spec_decide_bid};
use crate::bag::{draw_letter, draw_outcome, draw_letter_outcome, lemma_replace_ids, in_bag, in_bag_of, bag_entries, bag_tiles, pick_index, lemma_draw_succeeds};
use crate::letters::{default_bag, spec_default_bag, bag_size, lemma_default_bag_shape};
use crate::text::letter_string;

verus! {

/// Each match starts every participant with this balance.
pub const STARTING_BALANCE: i64 = 100;

/// How long an auction stays open, in milliseconds.
pub const AUCTION_DURATION_MS: u64 = 1000;

/// The time `ms` milliseconds after `t`.
pub open spec fn later_by(t: Timestamp, ms: int) -> Timestamp {
    Timestamp { micros_since_unix_epoch: (t.micros_since_unix_epoch + ms * 1000) as i64 }
}

/// Whether `ms` milliseconds can be added to `t` without leaving the range
/// of timestamps.
pub open spec fn can_add_millis(t: Timestamp, ms: int) -> bool {
    t.micros_since_unix_epoch + ms * 1000 <= i64::MAX
}

/// `t` plus `ms` milliseconds.
pub fn add_millis(t: Timestamp, ms: u64) -> (r: Timestamp)
    requires
        can_add_millis(t, ms as int),
    ensures
        r == later_by(t, ms as int),
{
    let micros: i128 = t.micros_since_unix_epoch as i128 + (ms as i128) * 1000;
    Timestamp { micros_since_unix_epoch: micros as i64 }
}

pub open spec fn in_match(match_id: u64) -> spec_fn(MatchParticipant) -> bool {
    |p: MatchParticipant| p.match_id == match_id
}

/// The participant rows of a match, in table order.
pub fn participants_of(db: &Db, match_id: u64) -> (r: Vec<MatchParticipant>)
    ensures
        r@ == db@.match_participant.filter(in_match(match_id)),
{
    let ghost s = db@.match_participant;
    let mut out: Vec<MatchParticipant> = Vec::new();
    let n = db.match_participant.len();
    let mut i: usize = 0;
    proof {
        reveal(Seq::filter);
        assert(s.take(0) =~= Seq::<MatchParticipant>::empty());
    }
    while i < n
        invariant
            n == s.len(),
            s == db@.match_participant,
            i <= n,
            out@ == s.take(i as int).filter(in_match(match_id)),
        decreases n - i,
    {
        let p = db.match_participant[i];
        if p.match_id == match_id {
            out.push(p);
        }
        proof {
            reveal(Seq::filter);
            assert(s.take(i + 1).drop_last() =~= s.take(i as int));
        }
        i = i + 1;
    }
    proof {
        assert(s.take(n as int) =~= s);
    }
    out
}

/// One participant's turn at simulated bidding: a simulated bot with a
/// positive bid replaces its bids on the auction by that bid.
pub open spec fn sim_bid_step(
    bots: Seq<Bot>,
    p: MatchParticipant,
    auction_id: u64,
    letter: Seq<char>,
    at: Timestamp,
    state: (Seq<PendingBid>, u64),
) -> (Seq<PendingBid>, u64) {
    if has_bot(bots, p.bot) && bot_with_identity(bots, p.bot).is_simulated {
        let bot = bot_with_identity(bots, p.bot);
        let amount = spec_decide_bid(bot.strategy, letter, p.balance);
        if amount > 0 {
            (
                without_bids_of(state.0, auction_id, bot.identity).push(
                    PendingBid { id: state.1, auction_id, bidder: bot.identity, amount, submitted_at: at },
                ),
                (state.1 + 1) as u64,
            )
        } else {
            state
        }
    } else {
        state
    }
}

/// The bids (and next bid id) after each participant in turn has had its
/// simulated bid.
pub open spec fn sim_bids(
    bots: Seq<Bot>,
    ps: Seq<MatchParticipant>,
    auction_id: u64,
    letter: Seq<char>,
    at: Timestamp,
    state: (Seq<PendingBid>, u64),
) -> (Seq<PendingBid>, u64)
    decreases ps.len(),
{
    if ps.len() == 0 {
        state
    } else {
        sim_bid_step(bots, ps.last(), auction_id, letter, at, sim_bids(bots, ps.drop_last(), auction_id, letter, at, state))
    }
}

/// The outcome of the simulated bots' bidding on `auction`.
pub open spec fn simulate_bids_outcome(old_db: DbView, new_db: DbView, at: Timestamp, auction_id: u64, match_id: u64, letter: Seq<char>) -> bool {
    let r = sim_bids(old_db.bot, old_db.match_participant.filter(in_match(match_id)), auction_id, letter, at, (old_db.pending_bid, old_db.next.pending_bid));
    new_db == (DbView { pending_bid: r.0, next: Sequences { pending_bid: r.1, ..old_db.next }, ..old_db })
}

/// The simulated bots among the match's participants bid on the auction.
pub fn simulate_bids(ctx: &ReducerContext, db: &mut Db, auction: &Auction)
    requires
        old(db)@.wf(),
        old(db)@.next.pending_bid + old(db)@.match_participant.len() < u64::MAX,
    ensures
        simulate_bids_outcome(old(db)@, final(db)@, ctx.timestamp, auction.id, auction.match_id, auction.letter@),
        final(db)@.wf(),
        final(db)@.next.pending_bid <= old(db)@.next.pending_bid + old(db)@.match_participant.len(),
{
    let ghost old_db = db@;
    let participants = participants_of(db, auction.match_id);
    let ghost ps = participants@;
    proof {
        broadcast use vstd::seq_lib::group_filter_ensures;
    }
    let n = participants.len();
    let mut k: usize = 0;
    while k < n
        invariant
            n == ps.len(),
            participants@ == ps,
            ps.len() <= old_db.match_participant.len(),
            old_db == old(db)@,
            old_db.wf(),
            db@.wf(),
            k <= n,
            (db@.pending_bid, db@.next.pending_bid) == sim_bids(old_db.bot, ps.take(k as int), auction.id, auction.letter@, ctx.timestamp, (old_db.pending_bid, old_db.next.pending_bid)),
            db@ == (DbView { pending_bid: db@.pending_bid, next: Sequences { pending_bid: db@.next.pending_bid, ..old_db.next }, ..old_db }),
            db@.next.pending_bid <= old_db.next.pending_bid + k,
            old_db.next.pending_bid + old_db.match_participant.len() < u64::MAX,
        decreases n - k,
    {
        let p = participants[k];
        proof {
            assert(ps.take(k + 1).drop_last() =~= ps.take(k as int));
            assert(ps.take(k + 1).last() == p);
        }
        match find_bot_index(&db.bot, p.bot) {
            Some(bi) => {
                proof {
                    lemma_bot_at(db@.bot, bi as int);
                }
                if db.bot[bi].is_simulated {
                    let identity = db.bot[bi].identity;
                    let amount = decide_bid(&db.bot[bi].strategy, auction.letter.as_str(), p.balance);
                    if amount > 0 {
                        let ghost before = db@;
                        remove_bids_of(&mut db.pending_bid, auction.id, identity);
                        proof {
                            lemma_filter_ids(before.pending_bid, before.next.pending_bid, |b: PendingBid| !is_bid_of(b, auction.id, identity));
                        }
                        let row = PendingBid { id: 0, auction_id: auction.id, bidder: identity, amount, submitted_at: ctx.timestamp };
                        proof {
                            lemma_insert_ids(db@.pending_bid, db@.next.pending_bid, row);
                        }
                        insert_row(&mut db.pending_bid, &mut db.next.pending_bid, row);
                        proof {
                            assert(db@ =~= (DbView { pending_bid: db@.pending_bid, next: Sequences { pending_bid: db@.next.pending_bid, ..old_db.next }, ..old_db }));
                        }
                    }
                }
            },
            None => {},
        }
        k = k + 1;
    }
    proof {
        assert(ps.take(n as int) =~= ps);
        assert(db@ =~= (DbView { pending_bid: db@.pending_bid, next: Sequences { pending_bid: db@.next.pending_bid, ..old_db.next }, ..old_db }));
    }
}

/// A freshly started match: running, in round 1, with a full bag of 98
/// tiles and no auction yet.
pub open spec fn new_match(id: u64, at: Timestamp, auction_type: AuctionType) -> Match {
    Match {
        id,
        status: MatchStatus::Running,
        current_round: 1,
        current_auction_id: None,
        bag_total: 98,
        auction_type,
        created_at: at,
        started_at: Some(at),
        ended_at: None,
    }
}

/// The participant rows of a new match: one per roster entry, in order,
/// each with the starting balance and no score.
pub open spec fn new_participants(start: u64, match_id: u64, roster: Seq<Identity>) -> Seq<MatchParticipant> {
    Seq::new(
        roster.len(),
        |k: int| MatchParticipant { id: (start + k) as u64, match_id, bot: roster[k], balance: STARTING_BALANCE, score: 0 },
    )
}

/// The bag rows of a new match: one per letter of the starting bag, in
/// order, with consecutive ids from `start`.
pub open spec fn is_fresh_bag(rows: Seq<BagLetter>, start: u64, match_id: u64) -> bool {
    &&& rows.len() == 26
    &&& forall|k: int| 0 <= k < 26 ==> {
        &&& (#[trigger] rows[k]).id == start + k
        &&& rows[k].match_id == match_id
        &&& rows[k].letter@ == seq![spec_default_bag()[k].0]
        &&& rows[k].remaining == spec_default_bag()[k].1
    }
}

/// The rows that starting a match adds: the match, its participants and its
/// bag.
pub open spec fn match_rows_outcome(old_db: DbView, new_db: DbView, at: Timestamp, auction_type: AuctionType, roster: Seq<Identity>, match_id: u64) -> bool {
    &&& match_id == old_db.next.match_state
    &&& new_db.bag_letter.len() == old_db.bag_letter.len() + 26
    &&& new_db.bag_letter.take(old_db.bag_letter.len() as int) == old_db.bag_letter
    &&& is_fresh_bag(new_db.bag_letter.skip(old_db.bag_letter.len() as int), old_db.next.bag_letter, match_id)
    &&& new_db == (DbView {
        match_state: old_db.match_state.push(new_match(match_id, at, auction_type)),
        match_participant: old_db.match_participant + new_participants(old_db.next.match_participant, match_id, roster),
        bag_letter: new_db.bag_letter,
        next: Sequences {
            match_state: (match_id + 1) as u64,
            match_participant: (old_db.next.match_participant + roster.len()) as u64,
            bag_letter: (old_db.next.bag_letter + 26) as u64,
            ..old_db.next
        },
        ..old_db
    })
}

pub open spec fn unknown_bot(bots: Seq<Bot>) -> spec_fn(Identity) -> bool {
    |id: Identity| !has_bot(bots, id)
}

/// What starting a match leaves behind when roster entry `j` names no bot:
/// the match, and the participants before entry `j`.
pub open spec fn partial_match_outcome(old_db: DbView, new_db: DbView, at: Timestamp, auction_type: AuctionType, roster: Seq<Identity>, j: int) -> bool {
    let match_id = old_db.next.match_state;
    new_db == (DbView {
        match_state: old_db.match_state.push(new_match(match_id, at, auction_type)),
        match_participant: old_db.match_participant + new_participants(old_db.next.match_participant, match_id, roster.take(j)),
        next: Sequences {
            match_state: (match_id + 1) as u64,
            match_participant: (old_db.next.match_participant + j) as u64,
            ..old_db.next
        },
        ..old_db
    })
}

/// Inserts a new match, its participants and its bag; returns the match id,
/// or stops at the first roster entry that names no bot.
fn insert_match_rows(ctx: &ReducerContext, db: &mut Db, auction_type: AuctionType, roster: &Vec<Identity>) -> (r: Result<u64, GameError>)
    requires
        old(db)@.wf(),
        old(db)@.next.match_state < u64::MAX,
        old(db)@.next.match_participant + roster@.len() < u64::MAX,
        old(db)@.next.bag_letter + 26 < u64::MAX,
    ensures
        match find_first(roster@, unknown_bot(old(db)@.bot)) {
            Some(j) => r == Err::<u64, GameError>(GameError::UnknownBot(roster@[j])) && partial_match_outcome(old(db)@, final(db)@, ctx.timestamp, auction_type, roster@, j),
            None => r == Ok::<u64, GameError>(old(db)@.next.match_state) && match_rows_outcome(old(db)@, final(db)@, ctx.timestamp, auction_type, roster@, old(db)@.next.match_state),
        },
        final(db)@.wf(),
{
    let ghost old_db = db@;
    let bag = default_bag();
    proof {
        lemma_default_bag_shape();
    }
    let mut bag_total: u32 = 0;
    let mut b: usize = 0;
    proof {
        assert(spec_default_bag().take(0) =~= Seq::<(char, u32)>::empty());
    }
    while b < 26
        invariant
            bag@ == spec_default_bag(),
            bag@.len() == 26,
            bag_size(spec_default_bag()) == 98,
            b <= 26,
            bag_total == bag_size(bag@.take(b as int)),
            bag_total <= 98,
        decreases 26 - b,
    {
        proof {
            assert(bag@.take(b + 1).drop_last() =~= bag@.take(b as int));
            lemma_bag_size_prefix(bag@, b + 1);
        }
        bag_total = bag_total + bag[b].1;
        b = b + 1;
    }
    proof {
        assert(bag@.take(26) =~= bag@);
    }
    let row = Match {
        id: 0,
        status: MatchStatus::Running,
        current_round: 1,
        current_auction_id: None,
        bag_total,
        auction_type,
        created_at: ctx.timestamp,
        started_at: Some(ctx.timestamp),
        ended_at: None,
    };
    proof {
        lemma_insert_ids(db@.match_state, db@.next.match_state, row);
    }
    let match_id = insert_row(&mut db.match_state, &mut db.next.match_state, row);
    let ghost after_match = db@;
    proof {
        assert(row.with_id(match_id) == new_match(match_id, ctx.timestamp, auction_type));
        assert(after_match =~= (DbView { match_state: old_db.match_state.push(new_match(match_id, ctx.timestamp, auction_type)), next: Sequences { match_state: (match_id + 1) as u64, ..old_db.next }, ..old_db }));
    }
    let n = roster.len();
    let mut k: usize = 0;
    proof {
        assert(new_participants(old_db.next.match_participant, match_id, roster@.take(0)) =~= Seq::<MatchParticipant>::empty());
        assert(db@.match_participant =~= old_db.match_participant + Seq::<MatchParticipant>::empty());
    }
    while k < n
        invariant
            n == roster@.len(),
            k <= n,
            forall|q: int| 0 <= q < k ==> !unknown_bot(old_db.bot)(#[trigger] roster@[q]),
            old_db == old(db)@,
            old_db.next.match_participant + n < u64::MAX,
            after_match == (DbView { match_state: old_db.match_state.push(new_match(match_id, ctx.timestamp, auction_type)), next: Sequences { match_state: (match_id + 1) as u64, ..old_db.next }, ..old_db }),
            db@.wf(),
            match_id == old_db.next.match_state,
            db@.match_participant == old_db.match_participant + new_participants(old_db.next.match_participant, match_id, roster@.take(k as int)),
            db@ == (DbView { match_participant: db@.match_participant, next: Sequences { match_participant: (old_db.next.match_participant + k) as u64, ..after_match.next }, ..after_match }),
        decreases n - k,
    {
        if find_bot_index(&db.bot, roster[k]).is_none() {
            proof {
                assert(is_first(roster@, unknown_bot(old_db.bot), k as int));
                lemma_find_first_at(roster@, unknown_bot(old_db.bot), k as int);
                assert(db@ =~= (DbView {
                    match_state: old_db.match_state.push(new_match(match_id, ctx.timestamp, auction_type)),
                    match_participant: old_db.match_participant + new_participants(old_db.next.match_participant, match_id, roster@.take(k as int)),
                    next: Sequences {
                        match_state: (match_id + 1) as u64,
                        match_participant: (old_db.next.match_participant + k) as u64,
                        ..old_db.next
                    },
                    ..old_db
                }));
            }
            return Err(GameError::UnknownBot(roster[k]));
        }
        let prow = MatchParticipant { id: 0, match_id, bot: roster[k], balance: STARTING_BALANCE, score: 0 };
        proof {
            lemma_insert_ids(db@.match_participant, db@.next.match_participant, prow);
        }
        insert_row(&mut db.match_participant, &mut db.next.match_participant, prow);
        proof {
            assert(new_participants(old_db.next.match_participant, match_id, roster@.take(k + 1)) =~= new_participants(old_db.next.match_participant, match_id, roster@.take(k as int)).push(prow.with_id((old_db.next.match_participant + k) as u64)));
            assert(db@ =~= (DbView { match_participant: db@.match_participant, next: Sequences { match_participant: (old_db.next.match_participant + k + 1) as u64, ..after_match.next }, ..after_match }));
        }
        k = k + 1;
    }
    proof {
        assert(roster@.take(n as int) =~= roster@);
        lemma_find_first_none(roster@, unknown_bot(old_db.bot));
    }
    let ghost after_parts = db@;
    let bag_start = db.next.bag_letter;
    let nb = db.bag_letter.len();
    let mut t: usize = 0;
    proof {
        assert(db@.bag_letter.take(nb as int) =~= old_db.bag_letter);
    }
    while t < 26
        invariant
            bag@ == spec_default_bag(),
            bag@.len() == 26,
            t <= 26,
            nb == old_db.bag_letter.len(),
            bag_start == old_db.next.bag_letter,
            old_db.next.bag_letter + 26 < u64::MAX,
            match_id == old_db.next.match_state,
            db@.wf(),
            db@.next.match_state == match_id + 1,
            db@.bag_letter.len() == nb + t,
            db@.bag_letter.take(nb as int) == old_db.bag_letter,
            forall|q: int| 0 <= q < t ==> {
                &&& (#[trigger] db@.bag_letter[nb + q]).id == bag_start + q
                &&& db@.bag_letter[nb + q].match_id == match_id
                &&& db@.bag_letter[nb + q].letter@ == seq![spec_default_bag()[q].0]
                &&& db@.bag_letter[nb + q].remaining == spec_default_bag()[q].1
            },
            db@ == (DbView { bag_letter: db@.bag_letter, next: Sequences { bag_letter: (bag_start + t) as u64, ..after_parts.next }, ..after_parts }),
        decreases 26 - t,
    {
        let (c, count) = bag[t];
        let brow = BagLetter { id: 0, match_id, letter: letter_string(c), remaining: count };
        proof {
            lemma_insert_ids(db@.bag_letter, db@.next.bag_letter, brow);
        }
        let ghost before = db@.bag_letter;
        insert_row(&mut db.bag_letter, &mut db.next.bag_letter, brow);
        proof {
            assert(db@.bag_letter.take(nb as int) =~= before.take(nb as int));
            assert forall|q: int| 0 <= q < t + 1 implies {
                &&& (#[trigger] db@.bag_letter[nb + q]).id == bag_start + q
                &&& db@.bag_letter[nb + q].match_id == match_id
                &&& db@.bag_letter[nb + q].letter@ == seq![spec_default_bag()[q].0]
                &&& db@.bag_letter[nb + q].remaining == spec_default_bag()[q].1
            } by {
                if q < t {
                    assert(db@.bag_letter[nb + q] == before[nb + q]);
                }
            }
            assert(db@ =~= (DbView { bag_letter: db@.bag_letter, next: Sequences { bag_letter: (bag_start + t + 1) as u64, ..after_parts.next }, ..after_parts }));
            let bl = db@.bag_letter;
            assert forall|i: int| 0 <= i < bl.len() implies (#[trigger] bl[i]).match_id < db@.next.match_state by {
                if i < nb + t {
                    assert(bl[i] == before[i]);
                }
            }
        }
        t = t + 1;
    }
    proof {
        let bl = db@.bag_letter;
        assert forall|q: int| 0 <= q < 26 implies {
            &&& (#[trigger] bl.skip(nb as int)[q]).id == old_db.next.bag_letter + q
            &&& bl.skip(nb as int)[q].match_id == match_id
            &&& bl.skip(nb as int)[q].letter@ == seq![spec_default_bag()[q].0]
            &&& bl.skip(nb as int)[q].remaining == spec_default_bag()[q].1
        } by {
            assert(bl.skip(nb as int)[q] == bl[nb + q]);
        }
        assert(db@ =~= (DbView {
            match_state: old_db.match_state.push(new_match(match_id, ctx.timestamp, auction_type)),
            match_participant: old_db.match_participant + new_participants(old_db.next.match_participant, match_id, roster@),
            bag_letter: db@.bag_letter,
            next: Sequences {
                match_state: (match_id + 1) as u64,
                match_participant: (old_db.next.match_participant + roster@.len()) as u64,
                bag_letter: (old_db.next.bag_letter + 26) as u64,
                ..old_db.next
            },
            ..old_db
        }));
    }
    Ok(match_id)
}

proof fn lemma_bag_size_prefix(bag: Seq<(char, u32)>, k: int)
    requires
        bag == spec_default_bag(),
        0 <= k <= 26,
    ensures
        bag_size(bag.take(k)) <= 98,
        k >= 1 ==> bag_size(bag.take(k)) == bag_size(bag.take(k - 1)) + bag[k - 1].1,
{
    lemma_default_bag_shape();
    lemma_bag_size_mono(bag, k);
    if k >= 1 {
        assert(bag.take(k).drop_last() =~= bag.take(k - 1));
    }
}

proof fn lemma_bag_size_mono(bag: Seq<(char, u32)>, k: int)
    requires
        0 <= k <= bag.len(),
    ensures
        bag_size(bag.take(k)) <= bag_size(bag),
    decreases bag.len() - k,
{
    if k < bag.len() {
        lemma_bag_size_mono(bag, k + 1);
        assert(bag.take(k + 1).drop_last() =~= bag.take(k));
    } else {
        assert(bag.take(k) =~= bag);
    }
}

/// An auction as opened: of the letter, in the match, open from `at` for
/// one auction duration.
pub open spec fn is_open_auction(a: Auction, id: u64, match_id: u64, letter: Seq<char>, at: Timestamp) -> bool {
    &&& a.id == id
    &&& a.match_id == match_id
    &&& a.letter@ == letter
    &&& a.opens_at == at
    &&& a.closes_at == later_by(at, AUCTION_DURATION_MS as int)
    &&& a.status == AuctionStatus::Open
}

/// The outcome of opening the auction of `letter` in the match: the auction
/// is added, the match points at it (and moves to the next round if asked),
/// its closing tick is scheduled, and the simulated bots bid.
pub open spec fn open_auction_outcome(old_db: DbView, new_db: DbView, at: Timestamp, match_id: u64, letter: Seq<char>, advance_round: bool) -> bool {
    let aid = old_db.next.auction;
    let m = row_with_id(old_db.match_state, match_id);
    let sb = sim_bids(old_db.bot, old_db.match_participant.filter(in_match(match_id)), aid, letter, at, (old_db.pending_bid, old_db.next.pending_bid));
    &&& new_db.auction.len() == old_db.auction.len() + 1
    &&& new_db.auction.drop_last() == old_db.auction
    &&& is_open_auction(new_db.auction.last(), aid, match_id, letter, at)
    &&& new_db == (DbView {
        auction: new_db.auction,
        match_state: replace_by_id(old_db.match_state, Match {
            current_round: if advance_round { (m.current_round + 1) as u32 } else { m.current_round },
            current_auction_id: Some(aid),
            ..m
        }),
        auction_schedule: old_db.auction_schedule.push(AuctionSchedule {
            scheduled_id: old_db.next.auction_schedule,
            scheduled_at: later_by(at, AUCTION_DURATION_MS as int),
            match_id,
        }),
        pending_bid: sb.0,
        next: Sequences {
            auction: (aid + 1) as u64,
            auction_schedule: (old_db.next.auction_schedule + 1) as u64,
            pending_bid: sb.1,
            ..old_db.next
        },
        ..old_db
    })
}

/// Opens the auction of `letter` in the match and schedules its close.
pub fn open_auction(ctx: &ReducerContext, db: &mut Db, match_id: u64, letter: String, advance_round: bool) -> (aid: u64)
    requires
        old(db)@.wf(),
        has_id(old(db)@.match_state, match_id),
        can_add_millis(ctx.timestamp, AUCTION_DURATION_MS as int),
        old(db)@.next.auction < u64::MAX,
        old(db)@.next.auction_schedule < u64::MAX,
        old(db)@.next.pending_bid + old(db)@.match_participant.len() < u64::MAX,
        advance_round ==> row_with_id(old(db)@.match_state, match_id).current_round < u32::MAX,
    ensures
        aid == old(db)@.next.auction,
        open_auction_outcome(old(db)@, final(db)@, ctx.timestamp, match_id, letter@, advance_round),
        final(db)@.wf(),
        final(db)@.next.pending_bid <= old(db)@.next.pending_bid + old(db)@.match_participant.len(),
{
    let ghost old_db = db@;
    let opens_at = ctx.timestamp;
    let closes_at = add_millis(ctx.timestamp, AUCTION_DURATION_MS);
    let row = Auction { id: 0, match_id, letter: letter.clone(), opens_at, closes_at, status: AuctionStatus::Open };
    proof {
        lemma_insert_ids(db@.auction, db@.next.auction, row);
    }
    let aid = insert_row(&mut db.auction, &mut db.next.auction, row);
    let mi = find_index(&db.match_state, match_id).unwrap();
    let m = db.match_state[mi];
    proof {
        lemma_row_with_id_at(db@.match_state, mi as int);
    }
    let round = if advance_round { m.current_round + 1 } else { m.current_round };
    let updated = Match { current_round: round, current_auction_id: Some(aid), ..m };
    proof {
        lemma_replace_ids(db@.match_state, db@.next.match_state, updated);
    }
    update_row(&mut db.match_state, updated);
    let srow = AuctionSchedule { scheduled_id: 0, scheduled_at: closes_at, match_id };
    proof {
        lemma_insert_ids(db@.auction_schedule, db@.next.auction_schedule, srow);
    }
    insert_row(&mut db.auction_schedule, &mut db.next.auction_schedule, srow);
    let ghost mid = db@;
    let a = Auction { id: aid, match_id, letter, opens_at, closes_at, status: AuctionStatus::Open };
    simulate_bids(ctx, db, &a);
    proof {
        assert(mid.match_participant == old_db.match_participant);
        assert(mid.bot == old_db.bot);
        assert(mid.pending_bid == old_db.pending_bid);
        assert(mid.next.pending_bid == old_db.next.pending_bid);
        assert(db@.auction == mid.auction);
        assert(db@.auction.drop_last() == old_db.auction);
        assert(is_open_auction(db@.auction.last(), aid, match_id, letter@, ctx.timestamp));
        assert(row_with_id(old_db.match_state, match_id) == m);
        assert(db@ =~= (DbView {
            auction: db@.auction,
            match_state: replace_by_id(old_db.match_state, updated),
            auction_schedule: old_db.auction_schedule.push(AuctionSchedule {
                scheduled_id: old_db.next.auction_schedule,
                scheduled_at: later_by(ctx.timestamp, AUCTION_DURATION_MS as int),
                match_id,
            }),
            pending_bid: db@.pending_bid,
            next: Sequences {
                auction: (aid + 1) as u64,
                auction_schedule: (old_db.next.auction_schedule + 1) as u64,
                pending_bid: db@.next.pending_bid,
                ..old_db.next
            },
            ..old_db
        }));
    }
    aid
}

/// The room that starting a match needs in the id sequences, and in time
/// for the first auction's close.
pub open spec fn start_room(db: DbView, roster_len: int, at: Timestamp) -> bool {
    &&& db.next.match_state < u64::MAX
    &&& db.next.match_participant + roster_len < u64::MAX
    &&& db.next.bag_letter + 26 < u64::MAX
    &&& db.next.auction < u64::MAX
    &&& db.next.auction_schedule < u64::MAX
    &&& db.next.pending_bid + db.match_participant.len() + roster_len < u64::MAX
    &&& can_add_millis(at, AUCTION_DURATION_MS as int)
}

/// The match started with the roster: its rows, then a random tile drawn
/// from its bag (at some position below 98), then the auction of that
/// letter opened.
pub open spec fn start_match_outcome(old_db: DbView, new_db: DbView, at: Timestamp, auction_type: AuctionType, roster: Seq<Identity>, match_id: u64) -> bool {
    exists|d1: DbView, d2: DbView, idx: int, l: String|
        #![trigger match_rows_outcome(old_db, d1, at, auction_type, roster, match_id), draw_outcome(d1, d2, new_match(match_id, at, auction_type), idx, Some(l))]
        {
            &&& match_rows_outcome(old_db, d1, at, auction_type, roster, match_id)
            &&& 0 <= idx < 98
            &&& draw_outcome(d1, d2, new_match(match_id, at, auction_type), idx, Some(l))
            &&& open_auction_outcome(d2, new_db, at, match_id, l@, false)
        }
}

/// The outcome of starting a match with the roster, as the match-starting
/// step inside other reducers sees it (a failure keeps what it did).
pub open spec fn start_match_with_outcome(old_db: DbView, new_db: DbView, at: Timestamp, auction_type: AuctionType, roster: Seq<Identity>, r: Result<u64, GameError>) -> bool {
    if roster.len() == 0 {
        r == Err::<u64, GameError>(GameError::NoParticipants) && new_db == old_db
    } else {
        match find_first(roster, unknown_bot(old_db.bot)) {
            Some(j) => r == Err::<u64, GameError>(GameError::UnknownBot(roster[j])) && partial_match_outcome(old_db, new_db, at, auction_type, roster, j),
            None => r == Ok::<u64, GameError>(old_db.next.match_state) && start_match_outcome(old_db, new_db, at, auction_type, roster, old_db.next.match_state),
        }
    }
}

proof fn lemma_fresh_bag_tiles(rows: Seq<BagLetter>, start: u64, match_id: u64, k: int)
    requires
        is_fresh_bag(rows, start, match_id),
        0 <= k <= 26,
    ensures
        bag_tiles(rows.take(k)) == bag_size(spec_default_bag().take(k)),
    decreases k,
{
    if k > 0 {
        lemma_fresh_bag_tiles(rows, start, match_id, k - 1);
        assert(rows.take(k).drop_last() =~= rows.take(k - 1));
        assert(spec_default_bag().take(k).drop_last() =~= spec_default_bag().take(k - 1));
    }
}

proof fn lemma_filter_keep_all(rows: Seq<BagLetter>, match_id: u64)
    requires
        forall|i: int| 0 <= i < rows.len() ==> in_bag_of(#[trigger] rows[i], match_id),
    ensures
        rows.filter(in_bag(match_id)) == rows,
    decreases rows.len(),
{
    reveal(Seq::filter);
    if rows.len() > 0 {
        let t = rows.drop_last();
        assert forall|i: int| 0 <= i < t.len() implies in_bag_of(#[trigger] t[i], match_id) by {
            assert(t[i] == rows[i]);
        }
        lemma_filter_keep_all(t, match_id);
        assert(rows =~= t.push(rows.last()));
    }
}

proof fn lemma_filter_keep_none(rows: Seq<BagLetter>, match_id: u64)
    requires
        forall|i: int| 0 <= i < rows.len() ==> !in_bag_of(#[trigger] rows[i], match_id),
    ensures
        rows.filter(in_bag(match_id)).len() == 0,
    decreases rows.len(),
{
    reveal(Seq::filter);
    if rows.len() > 0 {
        let t = rows.drop_last();
        assert forall|i: int| 0 <= i < t.len() implies !in_bag_of(#[trigger] t[i], match_id) by {
            assert(t[i] == rows[i]);
        }
        lemma_filter_keep_none(t, match_id);
    }
}

/// A new match's bag holds 98 tiles, so its first draw always succeeds.
proof fn lemma_new_bag_tiles(old_db: DbView, d1: DbView, at: Timestamp, auction_type: AuctionType, roster: Seq<Identity>, match_id: u64)
    requires
        old_db.wf(),
        match_rows_outcome(old_db, d1, at, auction_type, roster, match_id),
    ensures
        bag_tiles(d1.bag_letter.filter(in_bag(match_id))) == 98,
{
    let nb = old_db.bag_letter.len() as int;
    let fresh = d1.bag_letter.skip(nb);
    assert(d1.bag_letter =~= old_db.bag_letter + fresh);
    Seq::filter_distributes_over_add(old_db.bag_letter, fresh, in_bag(match_id));
    assert forall|i: int| 0 <= i < old_db.bag_letter.len() implies !in_bag_of(#[trigger] old_db.bag_letter[i], match_id) by {
    }
    lemma_filter_keep_none(old_db.bag_letter, match_id);
    lemma_default_bag_shape();
    assert forall|i: int| 0 <= i < fresh.len() implies in_bag_of(#[trigger] fresh[i], match_id) by {
        assert(spec_default_bag()[i].1 > 0);
    }
    lemma_filter_keep_all(fresh, match_id);
    assert(old_db.bag_letter.filter(in_bag(match_id)) =~= Seq::<BagLetter>::empty());
    assert(Seq::<BagLetter>::empty() + fresh =~= fresh);
    lemma_fresh_bag_tiles(fresh, old_db.next.bag_letter, match_id, 26);
    assert(fresh.take(26) =~= fresh);
    assert(spec_default_bag().take(26) =~= spec_default_bag());
}

/// Starting a match touches only the match tables, and each id sequence
/// grows by a bounded amount.
pub open spec fn match_growth(old_db: DbView, new_db: DbView, n: int) -> bool {
    &&& new_db.bot == old_db.bot
    &&& new_db.bot_stats == old_db.bot_stats
    &&& new_db.matchmaker_config == old_db.matchmaker_config
    &&& new_db.matchmaker_schedule == old_db.matchmaker_schedule
    &&& new_db.tournament == old_db.tournament
    &&& new_db.tournament_entry == old_db.tournament_entry
    &&& new_db.tournament_match == old_db.tournament_match
    &&& new_db.holding == old_db.holding
    &&& new_db.word_play == old_db.word_play
    &&& new_db.auction_result == old_db.auction_result
    &&& new_db.next.tournament == old_db.next.tournament
    &&& new_db.next.tournament_entry == old_db.next.tournament_entry
    &&& new_db.next.tournament_match == old_db.next.tournament_match
    &&& new_db.next.matchmaker_schedule == old_db.next.matchmaker_schedule
    &&& new_db.next.holding == old_db.next.holding
    &&& new_db.next.word_play == old_db.next.word_play
    &&& old_db.next.match_state <= new_db.next.match_state <= old_db.next.match_state + 1
    &&& new_db.next.match_participant <= old_db.next.match_participant + n
    &&& new_db.next.bag_letter <= old_db.next.bag_letter + 26
    &&& new_db.next.auction <= old_db.next.auction + 1
    &&& new_db.next.auction_schedule <= old_db.next.auction_schedule + 1
    &&& new_db.next.pending_bid <= old_db.next.pending_bid + old_db.match_participant.len() + n
    &&& new_db.match_participant.len() <= old_db.match_participant.len() + n
    &&& forall|i: int| 0 <= i < old_db.match_state.len() ==> (#[trigger] new_db.match_state[i]).id == old_db.match_state[i].id
    &&& new_db.match_state.len() >= old_db.match_state.len()
}

/// Starts a match of the given kind with the roster, in roster order.
pub fn start_match_with(ctx: &ReducerContext, db: &mut Db, rng: &mut StdRng, auction_type: AuctionType, roster: &Vec<Identity>) -> (r: Result<u64, GameError>)
    requires
        old(db)@.wf(),
        start_room(old(db)@, roster@.len() as int, ctx.timestamp),
    ensures
        start_match_with_outcome(old(db)@, final(db)@, ctx.timestamp, auction_type, roster@, r),
        final(db)@.wf(),
        match_growth(old(db)@, final(db)@, roster@.len() as int),
{
    if roster.len() == 0 {
        return Err(GameError::NoParticipants);
    }
    let ghost old_db = db@;
    let match_id = match insert_match_rows(ctx, db, auction_type, roster) {
        Ok(id) => id,
        Err(e) => {
            proof {
                let j = find_first(roster@, unknown_bot(old_db.bot))->0;
                assert forall|i: int| 0 <= i < old_db.match_state.len() implies (#[trigger] db@.match_state[i]).id == old_db.match_state[i].id by {
                    assert(db@.match_state[i] == old_db.match_state[i]);
                }
            }
            return Err(e);
        },
    };
    let ghost d1 = db@;
    proof {
        lemma_new_bag_tiles(old_db, d1, ctx.timestamp, auction_type, roster@, match_id);
        lemma_insert_ids(old_db.match_state, old_db.next.match_state, new_match(match_id, ctx.timestamp, auction_type));
        assert(new_match(match_id, ctx.timestamp, auction_type).with_id(match_id) == new_match(match_id, ctx.timestamp, auction_type));
        assert(row_with_id(d1.match_state, match_id) == new_match(match_id, ctx.timestamp, auction_type));
        assert(has_id(d1.match_state, match_id));
    }
    let drawn = draw_letter(db, rng, match_id);
    let ghost d2 = db@;
    let first_letter = match drawn {
        Some(l) => l,
        None => {
            proof {
                assert(draw_letter_outcome(d1, d2, match_id, None::<String>));
                let idx = choose|idx: int| 0 <= idx < row_with_id(d1.match_state, match_id).bag_total && draw_outcome(d1, d2, row_with_id(d1.match_state, match_id), idx, None::<String>);
                lemma_draw_succeeds(d1.bag_letter, match_id, idx);
            }
            return Err(GameError::BagEmpty);
        },
    };
    proof {
        assert(draw_letter_outcome(d1, d2, match_id, Some(first_letter)));
    }
    let ghost idx = choose|idx: int| 0 <= idx < row_with_id(d1.match_state, match_id).bag_total && draw_outcome(d1, d2, row_with_id(d1.match_state, match_id), idx, Some(first_letter));
    proof {
        let e = crate::bag::bag_entries(d1.bag_letter, match_id);
        crate::bag::lemma_pick_index_bounds(e, idx);
        let k = pick_index(e, idx)->0;
        lemma_replace_ids(d1.match_state, d1.next.match_state, Match { bag_total: 97, ..new_match(match_id, ctx.timestamp, auction_type) });
        assert(has_id(d2.match_state, match_id)) by {
            let t = (d1.match_state.len() - 1) as int;
            assert(d2.match_state[t].row_id() == d1.match_state[t].row_id());
        }
    }
    let ghost l = first_letter;
    open_auction(ctx, db, match_id, first_letter, false);
    proof {
        let e = crate::bag::bag_entries(d1.bag_letter, match_id);
        crate::bag::lemma_pick_index_bounds(e, idx);
        let k = pick_index(e, idx)->0;
        lemma_replace_ids(d1.match_state, d1.next.match_state, Match { bag_total: (new_match(match_id, ctx.timestamp, auction_type).bag_total - 1) as u32, ..new_match(match_id, ctx.timestamp, auction_type) });
        let m2 = row_with_id(d2.match_state, match_id);
        lemma_replace_ids(d2.match_state, d2.next.match_state, Match { current_round: m2.current_round, current_auction_id: Some(d2.next.auction), ..m2 });
        assert forall|i: int| 0 <= i < old_db.match_state.len() implies (#[trigger] db@.match_state[i]).id == old_db.match_state[i].id by {
            assert(d1.match_state[i] == old_db.match_state[i]);
            assert(d2.match_state[i].id == d1.match_state[i].id);
            assert(db@.match_state[i].id == d2.match_state[i].id);
        }
        assert(match_rows_outcome(old_db, d1, ctx.timestamp, auction_type, roster@, match_id));
        assert(draw_outcome(d1, d2, new_match(match_id, ctx.timestamp, auction_type), idx, Some(l)));
    }
    Ok(match_id)
}

/// The outcome of a reducer that starts a match with the roster: it fails
/// without changing anything when the roster is empty or names an identity
/// without a bot.
pub open spec fn start_reducer_outcome(old_db: DbView, new_db: DbView, at: Timestamp, auction_type: AuctionType, roster: Seq<Identity>, r: Result<(), GameError>) -> bool {
    if roster.len() == 0 {
        r == Err::<(), GameError>(GameError::NoParticipants) && new_db == old_db
    } else {
        match find_first(roster, unknown_bot(old_db.bot)) {
            Some(j) => r == Err::<(), GameError>(GameError::UnknownBot(roster[j])) && new_db == old_db,
            None => r == Ok::<(), GameError>(()) && start_match_outcome(old_db, new_db, at, auction_type, roster, old_db.next.match_state),
        }
    }
}

/// Starts a match of the given kind with a specific roster.
pub fn start_match_for(ctx: &ReducerContext, db: &mut Db, rng: &mut StdRng, auction_type: AuctionType, participants: Vec<Identity>) -> (r: Result<(), GameError>)
    requires
        old(db)@.wf(),
        start_room(old(db)@, participants@.len() as int, ctx.timestamp),
    ensures
        start_reducer_outcome(old(db)@, final(db)@, ctx.timestamp, auction_type, participants@, r),
        final(db)@.wf(),
{
    // A failed reducer leaves the tables as they were, so the roster is
    // checked before anything is written.
    if participants.len() == 0 {
        return Err(GameError::NoParticipants);
    }
    let n = participants.len();
    let mut k: usize = 0;
    while k < n
        invariant
            n == participants@.len(),
            k <= n,
            db@ == old(db)@,
            db@.wf(),
            forall|q: int| 0 <= q < k ==> !unknown_bot(db@.bot)(#[trigger] participants@[q]),
        decreases n - k,
    {
        if find_bot_index(&db.bot, participants[k]).is_none() {
            proof {
                assert(is_first(participants@, unknown_bot(db@.bot), k as int));
                lemma_find_first_at(participants@, unknown_bot(db@.bot), k as int);
            }
            return Err(GameError::UnknownBot(participants[k]));
        }
        k = k + 1;
    }
    proof {
        lemma_find_first_none(participants@, unknown_bot(db@.bot));
    }
    match start_match_with(ctx, db, rng, auction_type, &participants) {
        Ok(_) => Ok(()),
        Err(e) => Err(e),
    }
}

pub open spec fn bot_identities(bots: Seq<Bot>) -> Seq<Identity> {
    bots.map_values(|b: Bot| b.identity)
}

/// The identities of all registered bots, in table order.
pub fn all_bot_identities(db: &Db) -> (r: Vec<Identity>)
    ensures
        r@ == bot_identities(db@.bot),
{
    let mut out: Vec<Identity> = Vec::new();
    let n = db.bot.len();
    let mut i: usize = 0;
    while i < n
        invariant
            n == db@.bot.len(),
            i <= n,
            out@ == bot_identities(db@.bot).take(i as int),
        decreases n - i,
    {
        out.push(db.bot[i].identity);
        proof {
            assert(bot_identities(db@.bot).take(i + 1) =~= bot_identities(db@.bot).take(i as int).push(db@.bot[i as int].identity));
        }
        i = i + 1;
    }
    proof {
        assert(bot_identities(db@.bot).take(n as int) =~= bot_identities(db@.bot));
    }
    out
}

/// Starts a match of the given kind with every registered bot.
pub fn start_match(ctx: &ReducerContext, db: &mut Db, rng: &mut StdRng, auction_type: AuctionType) -> (r: Result<(), GameError>)
    requires
        old(db)@.wf(),
        start_room(old(db)@, old(db)@.bot.len() as int, ctx.timestamp),
    ensures
        start_reducer_outcome(old(db)@, final(db)@, ctx.timestamp, auction_type, bot_identities(old(db)@.bot), r),
        final(db)@.wf(),
{
    let participants = all_bot_identities(db);
    start_match_for(ctx, db, rng, auction_type, participants)
}

} // verus!
