//! Closing an auction and moving the match on: the scheduled tick.
use vstd::prelude::*;
use rand::rngs::StdRng;
use crate::types::{
    Auction, AuctionResult, AuctionSchedule, AuctionStatus, GameError, Holding, Identity, Match, MatchParticipant,
    MatchStatus, PendingBid, ReducerContext, Timestamp,
};
use crate::db::{Db, DbView, Sequences, Row, has_id, row_with_id, replace_by_id, ids_ok, find_index, update_row, insert_row, lemma_row_with_id_at, lemma_insert_ids, is_first, find_first, lemma_find_first_at, lemma_find_first_none};
use crate::bots::{has_bot, bot_with_identity, find_bot_index, lemma_bot_at};
use crate::bidding::{participant_of, find_participant, lemma_filter_ids};
use crate::auction::{resolve_auction, spec_resolve};
use crate::bag::{bag_entries, draw_letter, draw_letter_outcome, draw_outcome, lemma_replace_ids, return_outcome, return_to_bag};
use crate::play::{
    holding_of, lemma_participant_in_table, modest, modest_participants, play_word_outcome, rack_of, simulate_word_play,
    simulate_word_play_outcome,
};
use crate::dictionary::{Dictionary, playable, first_playable, word_bytes};
use crate::matchplay::{open_auction, open_auction_outcome};
use crate::tournament::{match_ended_outcome, match_round_room, match_size_of, on_match_ended, points_room, round_room, rounds_can_advance};
use crate::db::{lemma_filter_len_same, lemma_find_first_some};
use crate::matchplay::{can_add_millis, in_match, AUCTION_DURATION_MS};
use crate::text::{byte_len, same_text};
use crate::letters::{lemma_reward_bounds, spec_word_reward};

verus! {

pub open spec fn is_bid_on(b: PendingBid, auction_id: u64) -> bool {
    b.auction_id == auction_id
}

pub open spec fn bid_on(auction_id: u64) -> spec_fn(PendingBid) -> bool {
    |b: PendingBid| is_bid_on(b, auction_id)
}

pub open spec fn bid_not_on(auction_id: u64) -> spec_fn(PendingBid) -> bool {
    |b: PendingBid| !is_bid_on(b, auction_id)
}

/// The bids on the auction, in table order.
fn bids_on(db: &Db, auction_id: u64) -> (r: Vec<PendingBid>)
    ensures
        r@ == db@.pending_bid.filter(bid_on(auction_id)),
{
    let ghost s = db@.pending_bid;
    let mut out: Vec<PendingBid> = Vec::new();
    let n = db.pending_bid.len();
    let mut i: usize = 0;
    proof {
        reveal(Seq::filter);
        assert(s.take(0) =~= Seq::<PendingBid>::empty());
    }
    while i < n
        invariant
            n == s.len(),
            s == db@.pending_bid,
            i <= n,
            out@ == s.take(i as int).filter(bid_on(auction_id)),
        decreases n - i,
    {
        let b = db.pending_bid[i];
        if b.auction_id == auction_id {
            out.push(b);
        }
        proof {
            reveal(Seq::filter);
            assert(s.take(i + 1).drop_last() =~= s.take(i as int));
        }
        i = i + 1;
    }
    proof {
        assert(s.take(n as int) =~= s);
    }
    out
}

/// Deletes every bid on the auction.
fn clear_bids(bids: &mut Vec<PendingBid>, auction_id: u64)
    ensures
        final(bids)@ == old(bids)@.filter(bid_not_on(auction_id)),
{
    let ghost s = bids@;
    let mut kept: Vec<PendingBid> = Vec::new();
    let n = bids.len();
    let mut i: usize = 0;
    proof {
        reveal(Seq::filter);
        assert(s.take(0) =~= Seq::<PendingBid>::empty());
    }
    while i < n
        invariant
            n == s.len(),
            bids@ == s,
            i <= n,
            kept@ == s.take(i as int).filter(bid_not_on(auction_id)),
        decreases n - i,
    {
        let b = bids[i];
        if b.auction_id != auction_id {
            kept.push(b);
        }
        proof {
            reveal(Seq::filter);
            assert(s.take(i + 1).drop_last() =~= s.take(i as int));
        }
        i = i + 1;
    }
    proof {
        assert(s.take(n as int) =~= s);
    }
    *bids = kept;
}

pub open spec fn is_letter_holding(h: Holding, match_id: u64, bot: Identity, letter: Seq<char>) -> bool {
    h.match_id == match_id && h.bot == bot && h.letter@ == letter
}

pub open spec fn letter_holding(match_id: u64, bot: Identity, letter: Seq<char>) -> spec_fn(Holding) -> bool {
    |h: Holding| is_letter_holding(h, match_id, bot, letter)
}

/// The won letter goes onto the winner's rack: their holding of that
/// letter in the match gains one, or a new holding of one is added.
pub open spec fn credit_outcome(old_db: DbView, new_db: DbView, match_id: u64, bot: Identity, letter: Seq<char>) -> bool {
    match find_first(old_db.holding, letter_holding(match_id, bot, letter)) {
        Some(k) => new_db == (DbView {
            holding: replace_by_id(old_db.holding, Holding { count: (old_db.holding[k].count + 1) as u32, ..old_db.holding[k] }),
            ..old_db
        }),
        None => {
            &&& new_db.holding.len() == old_db.holding.len() + 1
            &&& new_db.holding.drop_last() == old_db.holding
            &&& new_db.holding.last().id == old_db.next.holding
            &&& is_letter_holding(new_db.holding.last(), match_id, bot, letter)
            &&& new_db.holding.last().count == 1
            &&& new_db == (DbView { holding: new_db.holding, next: Sequences { holding: (old_db.next.holding + 1) as u64, ..old_db.next }, ..old_db })
        },
    }
}

/// What happens to the letter and the winner's money: with no winner the
/// letter goes back to the bag; a winner who takes part in the match and
/// can pay is charged and gets the letter; otherwise nothing happens (and
/// the letter is gone). The result says whether a simulated bot won.
pub open spec fn pay_outcome(old_db: DbView, new_db: DbView, m: Match, a: Auction, res: (Option<Identity>, i64, i64), sim: Option<Identity>) -> bool {
    match res.0 {
        None => sim is None && return_outcome(old_db, new_db, m.id, a.letter@),
        Some(w) => match participant_of(old_db.match_participant, m.id, w) {
            Some(p) => if p.balance >= res.2 {
                let paid_db = DbView {
                    match_participant: replace_by_id(old_db.match_participant, MatchParticipant { balance: (p.balance - res.2) as i64, ..p }),
                    ..old_db
                };
                &&& sim == (if has_bot(old_db.bot, w) && bot_with_identity(old_db.bot, w).is_simulated { Some(w) } else { None::<Identity> })
                &&& credit_outcome(paid_db, new_db, m.id, w, a.letter@)
            } else {
                sim is None && new_db == old_db
            },
            None => sim is None && new_db == old_db,
        },
    }
}

/// An auction result as recorded.
pub open spec fn is_result(r: AuctionResult, match_id: u64, a: Auction, res: (Option<Identity>, i64, i64), at: Timestamp) -> bool {
    &&& r.auction_id == a.id
    &&& r.match_id == match_id
    &&& r.letter@ == a.letter@
    &&& r.winner == res.0
    &&& r.top_bid == res.1
    &&& r.paid == res.2
    &&& r.closed_at == at
}

/// Closing auction `a` of match `m`: the bids on it decide the winner and
/// the price (`pay_outcome`), the result is recorded, the auction is marked
/// closed and its bids are deleted.
pub open spec fn settle_outcome(old_db: DbView, new_db: DbView, at: Timestamp, m: Match, a: Auction, sim: Option<Identity>) -> bool {
    let res = spec_resolve(m.auction_type, old_db.pending_bid.filter(bid_on(a.id)));
    exists|d1: DbView| #[trigger] pay_outcome(old_db, d1, m, a, res, sim) && {
        &&& new_db.auction_result.len() == d1.auction_result.len() + 1
        &&& new_db.auction_result.drop_last() == d1.auction_result
        &&& is_result(new_db.auction_result.last(), m.id, a, res, at)
        &&& new_db == (DbView {
            auction_result: new_db.auction_result,
            auction: replace_by_id(d1.auction, Auction { status: AuctionStatus::Closed, ..a }),
            pending_bid: d1.pending_bid.filter(bid_not_on(a.id)),
            ..d1
        })
    }
}

/// The room that closing an auction needs.
pub open spec fn settle_room(db: DbView) -> bool {
    &&& db.next.holding < u64::MAX
    &&& db.next.bag_letter < u64::MAX
    &&& forall|i: int| 0 <= i < db.holding.len() ==> (#[trigger] db.holding[i]).count < u32::MAX
    &&& forall|i: int| 0 <= i < db.bag_letter.len() ==> (#[trigger] db.bag_letter[i]).remaining < u32::MAX
    &&& forall|i: int| 0 <= i < db.match_state.len() ==> (#[trigger] db.match_state[i]).bag_total < u32::MAX
}

/// Closes auction `a` (the current auction of match `m`); returns the
/// winner when it is a simulated bot that paid.
pub fn settle_auction(ctx: &ReducerContext, db: &mut Db, m: Match, a: &Auction) -> (sim: Option<Identity>)
    requires
        old(db)@.wf(),
        settle_room(old(db)@),
        has_id(old(db)@.match_state, m.id),
        has_id(old(db)@.auction, a.id),
        row_with_id(old(db)@.auction, a.id) == *a,
        forall|i: int| 0 <= i < old(db)@.auction_result.len() ==> (#[trigger] old(db)@.auction_result[i]).auction_id != a.id,
    ensures
        settle_outcome(old(db)@, final(db)@, ctx.timestamp, m, *a, sim),
        final(db)@.wf(),
        modest_participants(old(db)@.match_participant) ==> modest_participants(final(db)@.match_participant),
{
    let ghost old_db = db@;
    let bids = bids_on(db, a.id);
    let (winner, top_bid, paid) = resolve_auction(m.auction_type, &bids);
    let ghost res = (winner, top_bid, paid);
    let mut sim_winner: Option<Identity> = None;
    match winner {
        Some(w) => {
            match find_participant(db, m.id, w) {
                Some(p) => {
                    if p.balance >= paid {
                        proof {
                            lemma_participant_in_table(db@.match_participant, m.id, w);
                            crate::auction::lemma_price_paid(m.auction_type, bids@);
                        }
                        let is_sim = match find_bot_index(&db.bot, w) {
                            Some(bi) => {
                                proof {
                                    lemma_bot_at(db@.bot, bi as int);
                                }
                                db.bot[bi].is_simulated
                            },
                            None => false,
                        };
                        let updated = MatchParticipant { balance: p.balance - paid, ..p };
                        proof {
                            lemma_replace_ids(db@.match_participant, db@.next.match_participant, updated);
                        }
                        update_row(&mut db.match_participant, updated);
                        proof {
                            if modest_participants(old_db.match_participant) {
                                let ps = old_db.match_participant;
                                let j = choose|j: int| 0 <= j < ps.len() && ps[j] == p;
                                assert(modest(ps[j].balance) && modest(ps[j].score));
                                assert forall|k: int| 0 <= k < db@.match_participant.len() implies modest((#[trigger] db@.match_participant[k]).balance) && modest(db@.match_participant[k].score) by {
                                    assert(modest(ps[k].balance) && modest(ps[k].score));
                                }
                            }
                        }
                        let ghost paid_db = db@;
                        let ghost lp = letter_holding(m.id, w, a.letter@);
                        let n = db.holding.len();
                        let mut i: usize = 0;
                        while i < n
                            invariant
                                n == db@.holding.len(),
                                db@ == paid_db,
                                lp == letter_holding(m.id, w, a.letter@),
                                i <= n,
                                forall|j: int| 0 <= j < i ==> !lp(#[trigger] db@.holding[j]),
                            ensures
                                i <= n,
                                forall|j: int| 0 <= j < i ==> !lp(#[trigger] db@.holding[j]),
                                i < n ==> lp(db@.holding[i as int]),
                            decreases n - i,
                        {
                            if db.holding[i].bot == w && db.holding[i].match_id == m.id && same_text(db.holding[i].letter.as_str(), a.letter.as_str()) {
                                break;
                            }
                            i = i + 1;
                        }
                        if i < n {
                            proof {
                                assert(is_first(paid_db.holding, lp, i as int));
                                lemma_find_first_at(paid_db.holding, lp, i as int);
                                lemma_row_with_id_at(paid_db.holding, i as int);
                            }
                            let h = db.holding[i].copy();
                            let updated_h = Holding { id: h.id, match_id: h.match_id, bot: h.bot, letter: h.letter, count: h.count + 1 };
                            proof {
                                lemma_replace_ids(paid_db.holding, paid_db.next.holding, updated_h);
                            }
                            update_row(&mut db.holding, updated_h);
                            proof {
                                assert(db@ =~= (DbView { holding: db@.holding, ..paid_db }));
                            }
                        } else {
                            proof {
                                lemma_find_first_none(paid_db.holding, lp);
                            }
                            let row = Holding { id: 0, match_id: m.id, bot: w, letter: a.letter.clone(), count: 1 };
                            proof {
                                lemma_insert_ids(db@.holding, db@.next.holding, row);
                            }
                            insert_row(&mut db.holding, &mut db.next.holding, row);
                            proof {
                                assert(db@.holding.drop_last() =~= paid_db.holding);
                                assert(db@ =~= (DbView { holding: db@.holding, next: Sequences { holding: (paid_db.next.holding + 1) as u64, ..paid_db.next }, ..paid_db }));
                            }
                        }
                        if is_sim {
                            sim_winner = Some(w);
                        }
                        proof {
                            assert(paid_db == (DbView {
                                match_participant: replace_by_id(old_db.match_participant, MatchParticipant { balance: (p.balance - paid) as i64, ..p }),
                                ..old_db
                            }));
                        }
                    }
                },
                None => {},
            }
        },
        None => {
            proof {
                assert(m.id < old_db.next.match_state) by {
                    let k = choose|k: int| 0 <= k < old_db.match_state.len() && (#[trigger] old_db.match_state[k]).row_id() == m.id;
                }
            }
            return_to_bag(db, m.id, a.letter.as_str());
        },
    }
    let ghost d1 = db@;
    proof {
        assert(pay_outcome(old_db, d1, m, *a, res, sim_winner));
    }
    db.auction_result.push(AuctionResult {
        auction_id: a.id,
        match_id: m.id,
        letter: a.letter.clone(),
        winner,
        top_bid,
        paid,
        closed_at: ctx.timestamp,
    });
    let ai = find_index(&db.auction, a.id).unwrap();
    proof {
        lemma_row_with_id_at(db@.auction, ai as int);
    }
    let closed = Auction {
        id: a.id,
        match_id: a.match_id,
        letter: a.letter.clone(),
        opens_at: a.opens_at,
        closes_at: a.closes_at,
        status: AuctionStatus::Closed,
    };
    proof {
        lemma_replace_ids(db@.auction, db@.next.auction, closed);
    }
    update_row(&mut db.auction, closed);
    let ghost before_clear = db@.pending_bid;
    clear_bids(&mut db.pending_bid, a.id);
    proof {
        lemma_filter_ids(before_clear, db@.next.pending_bid, bid_not_on(a.id));
        assert(db@.auction_result.drop_last() =~= d1.auction_result);
        assert(db@ =~= (DbView {
            auction_result: db@.auction_result,
            auction: replace_by_id(d1.auction, Auction { status: AuctionStatus::Closed, ..*a }),
            pending_bid: d1.pending_bid.filter(bid_not_on(a.id)),
            ..d1
        }));
        let ar = db@.auction_result;
        assert forall|i: int, j: int| #![trigger ar[i], ar[j]] 0 <= i < j < ar.len() implies ar[i].auction_id != ar[j].auction_id by {
            if j == ar.len() - 1 {
                assert(ar[i] == d1.auction_result[i]);
                assert(d1.auction_result.len() == old_db.auction_result.len());
                assert(d1.auction_result == old_db.auction_result);
            } else {
                assert(ar[i] == d1.auction_result[i] && ar[j] == d1.auction_result[j]);
            }
        }
    }
    sim_winner
}

/// What a step of the tick leaves alone: bots, tournaments, the number of
/// participants and the match of each, the number of matches, each
/// match's id and round, and every id
/// sequence but those of holdings, word plays and (by at most `bag_growth`)
/// bag rows.
pub open spec fn keeps_frame(old_db: DbView, new_db: DbView, bag_growth: int) -> bool {
    &&& new_db.bot == old_db.bot
    &&& new_db.tournament == old_db.tournament
    &&& new_db.tournament_entry == old_db.tournament_entry
    &&& new_db.tournament_match == old_db.tournament_match
    &&& new_db.match_participant.len() == old_db.match_participant.len()
    &&& forall|k: int| 0 <= k < old_db.match_participant.len()
        ==> (#[trigger] new_db.match_participant[k]).match_id == old_db.match_participant[k].match_id
    &&& new_db.match_state.len() == old_db.match_state.len()
    &&& forall|k: int| 0 <= k < old_db.match_state.len() ==> (#[trigger] new_db.match_state[k]).id == old_db.match_state[k].id
        && new_db.match_state[k].current_round == old_db.match_state[k].current_round
    &&& new_db.next.match_state == old_db.next.match_state
    &&& new_db.next.match_participant == old_db.next.match_participant
    &&& new_db.next.auction == old_db.next.auction
    &&& new_db.next.auction_schedule == old_db.next.auction_schedule
    &&& new_db.next.pending_bid == old_db.next.pending_bid
    &&& new_db.next.tournament == old_db.next.tournament
    &&& new_db.next.tournament_entry == old_db.next.tournament_entry
    &&& new_db.next.tournament_match == old_db.next.tournament_match
    &&& old_db.next.bag_letter <= new_db.next.bag_letter <= old_db.next.bag_letter + bag_growth
}

/// Replacing a match row by one with the same id and round keeps every
/// match's id and round.
proof fn lemma_match_replace_frame(ms: Seq<Match>, next: u64, row: Match)
    requires
        ids_ok(ms, next),
        has_id(ms, row.id),
        row.current_round == row_with_id(ms, row.id).current_round,
    ensures
        replace_by_id(ms, row).len() == ms.len(),
        forall|k: int| 0 <= k < ms.len() ==> (#[trigger] replace_by_id(ms, row)[k]).id == ms[k].id
            && replace_by_id(ms, row)[k].current_round == ms[k].current_round,
{
    let j = choose|j: int| 0 <= j < ms.len() && (#[trigger] ms[j]).row_id() == row.id;
    lemma_row_with_id_at(ms, j);
    assert forall|k: int| 0 <= k < ms.len() implies (#[trigger] replace_by_id(ms, row)[k]).id == ms[k].id
        && replace_by_id(ms, row)[k].current_round == ms[k].current_round by {
        if ms[k].id == row.id && k != j {
            if k < j { assert(ms[k].row_id() != ms[j].row_id()); } else { assert(ms[j].row_id() != ms[k].row_id()); }
        }
    }
}

proof fn lemma_return_frame(old_db: DbView, new_db: DbView, match_id: u64, letter: Seq<char>)
    requires
        old_db.wf(),
        return_outcome(old_db, new_db, match_id, letter),
        old_db.next.bag_letter < u64::MAX,
    ensures
        keeps_frame(old_db, new_db, 1),
{
    if has_id(old_db.match_state, match_id) {
        let m = row_with_id(old_db.match_state, match_id);
        let k = choose|k: int| 0 <= k < old_db.match_state.len() && (#[trigger] old_db.match_state[k]).row_id() == match_id;
        lemma_row_with_id_at(old_db.match_state, k);
        lemma_match_replace_frame(old_db.match_state, old_db.next.match_state, Match { bag_total: (m.bag_total + 1) as u32, ..m });
    }
}

/// Replacing a participant row by one of the same match keeps each row's
/// match.
proof fn lemma_participant_replace_frame(ps: Seq<MatchParticipant>, next: u64, p: MatchParticipant, row: MatchParticipant)
    requires
        ids_ok(ps, next),
        ps.contains(p),
        row.id == p.id,
        row.match_id == p.match_id,
    ensures
        replace_by_id(ps, row).len() == ps.len(),
        forall|k: int| 0 <= k < ps.len() ==> (#[trigger] replace_by_id(ps, row)[k]).match_id == ps[k].match_id,
{
    let j = choose|j: int| 0 <= j < ps.len() && ps[j] == p;
    assert forall|k: int| 0 <= k < ps.len() implies (#[trigger] replace_by_id(ps, row)[k]).match_id == ps[k].match_id by {
        if ps[k].id == row.id && k != j {
            if k < j { assert(ps[k].row_id() != ps[j].row_id()); } else { assert(ps[j].row_id() != ps[k].row_id()); }
        }
    }
}

proof fn lemma_pay_frame(old_db: DbView, new_db: DbView, m: Match, a: Auction, res: (Option<Identity>, i64, i64), sim: Option<Identity>)
    requires
        old_db.wf(),
        pay_outcome(old_db, new_db, m, a, res, sim),
        old_db.next.bag_letter < u64::MAX,
    ensures
        keeps_frame(old_db, new_db, 1),
{
    match res.0 {
        None => {
            lemma_return_frame(old_db, new_db, m.id, a.letter@);
        },
        Some(w) => {
            if let Some(p) = participant_of(old_db.match_participant, m.id, w) {
                if p.balance >= res.2 {
                    lemma_participant_in_table(old_db.match_participant, m.id, w);
                    lemma_participant_replace_frame(old_db.match_participant, old_db.next.match_participant, p,
                        MatchParticipant { balance: (p.balance - res.2) as i64, ..p });
                }
            }
        },
    }
}

proof fn lemma_settle_frame(old_db: DbView, new_db: DbView, at: Timestamp, m: Match, a: Auction, sim: Option<Identity>)
    requires
        old_db.wf(),
        settle_outcome(old_db, new_db, at, m, a, sim),
        old_db.next.bag_letter < u64::MAX,
    ensures
        keeps_frame(old_db, new_db, 1),
{
    let res = spec_resolve(m.auction_type, old_db.pending_bid.filter(bid_on(a.id)));
    let d1 = choose|d1: DbView| #[trigger] pay_outcome(old_db, d1, m, a, res, sim) && {
        &&& new_db.auction_result.len() == d1.auction_result.len() + 1
        &&& new_db.auction_result.drop_last() == d1.auction_result
        &&& is_result(new_db.auction_result.last(), m.id, a, res, at)
        &&& new_db == (DbView {
            auction_result: new_db.auction_result,
            auction: replace_by_id(d1.auction, Auction { status: AuctionStatus::Closed, ..a }),
            pending_bid: d1.pending_bid.filter(bid_not_on(a.id)),
            ..d1
        })
    };
    lemma_pay_frame(old_db, d1, m, a, res, sim);
}

proof fn lemma_draw_frame(old_db: DbView, new_db: DbView, match_id: u64, r: Option<String>)
    requires
        old_db.wf(),
        draw_letter_outcome(old_db, new_db, match_id, r),
    ensures
        keeps_frame(old_db, new_db, 0),
{
    let m = row_with_id(old_db.match_state, match_id);
    if has_id(old_db.match_state, match_id) && m.bag_total != 0 {
        let idx = choose|idx: int| 0 <= idx < m.bag_total && #[trigger] draw_outcome(old_db, new_db, m, idx, r);
        let e = bag_entries(old_db.bag_letter, m.id);
        let k = choose|k: int| 0 <= k < old_db.match_state.len() && (#[trigger] old_db.match_state[k]).row_id() == match_id;
        lemma_row_with_id_at(old_db.match_state, k);
        lemma_match_replace_frame(old_db.match_state, old_db.next.match_state, Match { bag_total: (m.bag_total - 1) as u32, ..m });
    }
}

proof fn lemma_sim_play_frame(old_db: DbView, new_db: DbView, at: Timestamp, dict: &Dictionary, match_id: u64, bot: Identity)
    requires
        old_db.wf(),
        simulate_word_play_outcome(old_db, new_db, at, dict, match_id, bot),
    ensures
        keeps_frame(old_db, new_db, 0),
{
    let p = participant_of(old_db.match_participant, match_id, bot);
    let rack = rack_of(old_db.holding.filter(holding_of(match_id, bot)));
    let words = dict.length_words();
    if p is Some && !(forall|i: int| 0 <= i < words.len() ==> !playable(word_bytes(#[trigger] words[i]), rack, 3)) {
        let (i, r) = choose|i: int, r: Result<(), GameError>| first_playable(words, rack, 3, i) && play_word_outcome(old_db, new_db, at, p->0, words[i], r);
        let q = p->0;
        lemma_participant_in_table(old_db.match_participant, match_id, bot);
        let total = spec_word_reward(words[i]).2;
        lemma_participant_replace_frame(old_db.match_participant, old_db.next.match_participant, q,
            MatchParticipant { balance: (q.balance + total) as i64, score: (q.score + total) as i64, ..q });
    }
}

proof fn lemma_frame_compose(a: DbView, b: DbView, c: DbView, g1: int, g2: int)
    requires
        keeps_frame(a, b, g1),
        keeps_frame(b, c, g2),
    ensures
        keeps_frame(a, c, g1 + g2),
{
    assert forall|k: int| 0 <= k < a.match_state.len() implies (#[trigger] c.match_state[k]).id == a.match_state[k].id
        && c.match_state[k].current_round == a.match_state[k].current_round by {
        assert(b.match_state[k].id == a.match_state[k].id);
    }
    assert forall|k: int| 0 <= k < a.match_participant.len() implies (#[trigger] c.match_participant[k]).match_id == a.match_participant[k].match_id by {
        assert(b.match_participant[k].match_id == a.match_participant[k].match_id);
    }
}

/// A match keeps its row, with the same round, across a step that keeps
/// the frame.
proof fn lemma_frame_match(a: DbView, b: DbView, g: int, match_id: u64)
    requires
        a.wf(),
        b.wf(),
        keeps_frame(a, b, g),
        has_id(a.match_state, match_id),
    ensures
        has_id(b.match_state, match_id),
        row_with_id(b.match_state, match_id).current_round == row_with_id(a.match_state, match_id).current_round,
{
    let k = choose|k: int| 0 <= k < a.match_state.len() && (#[trigger] a.match_state[k]).row_id() == match_id;
    lemma_row_with_id_at(a.match_state, k);
    assert(b.match_state[k].row_id() == match_id);
    lemma_row_with_id_at(b.match_state, k);
}

/// How a tick of the auction clock ended.
#[derive(Clone, Copy, Debug, PartialEq, Eq, Structural)]
pub enum TickOutcome {
    /// Nothing to close: the match is not running, or has no open auction
    /// to settle.
    Skipped,
    /// The auction was settled and the next letter's auction opened.
    NextAuction,
    /// The auction was settled and the bag was empty: the match ended.
    MatchEnded,
}

/// The auction already has a recorded result.
pub open spec fn has_result(db: DbView, auction_id: u64) -> bool {
    exists|i: int| 0 <= i < db.auction_result.len() && (#[trigger] db.auction_result[i]).auction_id == auction_id
}

/// The tables with the match ended at `at`.
pub open spec fn ended_match(db: DbView, match_id: u64, at: Timestamp) -> DbView {
    DbView {
        match_state: replace_by_id(db.match_state, Match {
            status: MatchStatus::Ended,
            current_auction_id: None,
            ended_at: Some(at),
            ..row_with_id(db.match_state, match_id)
        }),
        ..db
    }
}

/// The winner's turn at playing a word, when a simulated bot won.
pub open spec fn sim_turn(old_db: DbView, new_db: DbView, at: Timestamp, dict: &Dictionary, match_id: u64, sim: Option<Identity>) -> bool {
    match sim {
        Some(w) => simulate_word_play_outcome(old_db, new_db, at, dict, match_id, w),
        None => new_db == old_db,
    }
}

/// After the draw: an empty bag ends the match (and settles its
/// tournament side); a drawn letter goes up for auction in the next round.
pub open spec fn after_draw(old_db: DbView, new_db: DbView, at: Timestamp, match_id: u64, drawn: Option<String>, r: TickOutcome) -> bool {
    match drawn {
        None => r == TickOutcome::MatchEnded && match_ended_outcome(ended_match(old_db, match_id, at), new_db, at, match_id),
        Some(l) => r == TickOutcome::NextAuction && open_auction_outcome(old_db, new_db, at, match_id, l@, true),
    }
}

/// After the settlement: the simulated winner's word, then a random draw
/// from the bag, then what the draw decides.
pub open spec fn after_settle(old_db: DbView, new_db: DbView, at: Timestamp, dict: &Dictionary, match_id: u64, sim: Option<Identity>, r: TickOutcome) -> bool {
    exists|d2: DbView| #[trigger] sim_turn(old_db, d2, at, dict, match_id, sim)
        && exists|d3: DbView, drawn: Option<String>| #[trigger] draw_letter_outcome(d2, d3, match_id, drawn)
            && after_draw(d3, new_db, at, match_id, drawn, r)
}

/// A tick of the match's auction clock: when the match is running and its
/// current auction exists and has no result yet, that auction is settled
/// and the match moves on; otherwise nothing changes. (A second result for
/// an auction would break the result table's key, so a tick on a settled
/// auction changes nothing.)
pub open spec fn tick_outcome(old_db: DbView, new_db: DbView, at: Timestamp, dict: &Dictionary, match_id: u64, r: TickOutcome) -> bool {
    let m = row_with_id(old_db.match_state, match_id);
    if !has_id(old_db.match_state, match_id) || m.status != MatchStatus::Running || m.current_auction_id is None
        || !has_id(old_db.auction, m.current_auction_id->0) || has_result(old_db, m.current_auction_id->0) {
        r == TickOutcome::Skipped && new_db == old_db
    } else {
        let a = row_with_id(old_db.auction, m.current_auction_id->0);
        exists|d1: DbView, sim: Option<Identity>| #[trigger] settle_outcome(old_db, d1, at, m, a, sim)
            && after_settle(d1, new_db, at, dict, match_id, sim, r)
    }
}

/// The tables with room for one more bag row.
pub open spec fn with_bag_slack(db: DbView) -> DbView {
    DbView { next: Sequences { bag_letter: (db.next.bag_letter + 1) as u64, ..db.next }, ..db }
}

/// The room that a tick of the match needs: in the id sequences for the
/// next auction and a returned letter, and, should the match end, for the
/// next round of its tournament and the Swiss points of the match.
pub open spec fn tick_room(db: DbView, at: Timestamp, match_id: u64) -> bool {
    &&& settle_room(db)
    &&& db.next.word_play < u64::MAX
    &&& db.next.auction < u64::MAX
    &&& db.next.auction_schedule < u64::MAX
    &&& db.next.pending_bid + db.match_participant.len() < u64::MAX
    &&& can_add_millis(at, AUCTION_DURATION_MS as int)
    &&& modest_participants(db.match_participant)
    &&& match_round_room(with_bag_slack(db), match_id, at)
    &&& rounds_can_advance(db)
    &&& points_room(db, match_id)
    &&& forall|k: int| 0 <= k < db.match_state.len() ==> (#[trigger] db.match_state[k]).current_round < u32::MAX
}

/// Closes the match's current auction when its time is up, and moves the
/// match on.
pub fn auction_tick(ctx: &ReducerContext, db: &mut Db, rng: &mut StdRng, dict: &Dictionary, job: AuctionSchedule) -> (r: TickOutcome)
    requires
        old(db)@.wf(),
        dict.wf(),
        tick_room(old(db)@, ctx.timestamp, job.match_id),
    ensures
        tick_outcome(old(db)@, final(db)@, ctx.timestamp, dict, job.match_id, r),
        final(db)@.wf(),
{
    let ghost old_db = db@;
    let match_id = job.match_id;
    let mi = match find_index(&db.match_state, match_id) {
        Some(mi) => mi,
        None => {
            return TickOutcome::Skipped;
        },
    };
    let m = db.match_state[mi];
    proof {
        lemma_row_with_id_at(db@.match_state, mi as int);
    }
    if m.status != MatchStatus::Running {
        return TickOutcome::Skipped;
    }
    let auction_id = match m.current_auction_id {
        Some(id) => id,
        None => {
            return TickOutcome::Skipped;
        },
    };
    let ai = match find_index(&db.auction, auction_id) {
        Some(ai) => ai,
        None => {
            return TickOutcome::Skipped;
        },
    };
    let auction = db.auction[ai].copy();
    proof {
        lemma_row_with_id_at(db@.auction, ai as int);
    }
    let nr = db.auction_result.len();
    let mut q: usize = 0;
    while q < nr
        invariant
            nr == db@.auction_result.len(),
            q <= nr,
            db@ == old(db)@,
            old_db == old(db)@,
            old_db.wf(),
            match_id == job.match_id,
            m == row_with_id(old_db.match_state, match_id),
            m.current_auction_id == Some(auction_id),
            forall|i: int| 0 <= i < q ==> (#[trigger] db@.auction_result[i]).auction_id != auction_id,
        decreases nr - q,
    {
        if db.auction_result[q].auction_id == auction_id {
            proof {
                assert(old_db.auction_result[q as int].auction_id == auction_id);
                assert(has_result(old_db, m.current_auction_id->0));
            }
            return TickOutcome::Skipped;
        }
        q = q + 1;
    }
    let sim = settle_auction(ctx, db, m, &auction);
    let ghost d1 = db@;
    proof {
        lemma_settle_frame(old_db, d1, ctx.timestamp, m, auction, sim);
    }
    match sim {
        Some(w) => {
            simulate_word_play(ctx, db, dict, match_id, w);
            proof {
                lemma_sim_play_frame(d1, db@, ctx.timestamp, dict, match_id, w);
            }
        },
        None => {
            proof {
                assert(keeps_frame(d1, db@, 0));
            }
        },
    }
    let ghost d2 = db@;
    proof {
        assert(sim_turn(d1, d2, ctx.timestamp, dict, match_id, sim));
        lemma_frame_compose(old_db, d1, d2, 1, 0);
    }
    let drawn = draw_letter(db, rng, match_id);
    let ghost d3 = db@;
    proof {
        lemma_draw_frame(d2, d3, match_id, drawn);
        lemma_frame_compose(old_db, d2, d3, 1, 0);
        lemma_frame_match(old_db, d3, 1, match_id);
    }
    match drawn {
        Some(letter) => {
            let ghost l = letter;
            open_auction(ctx, db, match_id, letter, true);
            proof {
                assert(after_draw(d3, db@, ctx.timestamp, match_id, Some(l), TickOutcome::NextAuction));
                assert(after_settle(d1, db@, ctx.timestamp, dict, match_id, sim, TickOutcome::NextAuction));
            }
            TickOutcome::NextAuction
        },
        None => {
            let ei = find_index(&db.match_state, match_id).unwrap();
            let cur = db.match_state[ei];
            proof {
                lemma_row_with_id_at(db@.match_state, ei as int);
            }
            let ended = Match { status: MatchStatus::Ended, current_auction_id: None, ended_at: Some(ctx.timestamp), ..cur };
            proof {
                lemma_replace_ids(db@.match_state, db@.next.match_state, ended);
            }
            update_row(&mut db.match_state, ended);
            proof {
                assert(db@ == ended_match(d3, match_id, ctx.timestamp));
                lemma_filter_len_same(old_db.match_participant, db@.match_participant, in_match(match_id));
                assert(match_size_of(db@, match_id) == match_size_of(old_db, match_id));
                assert forall|j: int| 0 <= j < db@.tournament_match.len() && (#[trigger] db@.tournament_match[j]).match_id == match_id
                    implies round_room(db@, db@.tournament_match[j].tournament_id, ctx.timestamp) by {
                    assert(round_room(with_bag_slack(old_db), old_db.tournament_match[j].tournament_id, ctx.timestamp));
                }
            }
            on_match_ended(ctx, db, rng, match_id);
            proof {
                assert(after_draw(d3, db@, ctx.timestamp, match_id, None, TickOutcome::MatchEnded));
                assert(after_settle(d1, db@, ctx.timestamp, dict, match_id, sim, TickOutcome::MatchEnded));
            }
            TickOutcome::MatchEnded
        },
    }
}

/// No participant's balance is negative.
pub open spec fn balances_nonneg(ps: Seq<MatchParticipant>) -> bool {
    forall|i: int| 0 <= i < ps.len() ==> (#[trigger] ps[i]).balance >= 0
}

/// Settling an auction never leaves a balance negative: a winner is charged
/// only when it can pay, and the price is positive.
pub proof fn lemma_settle_keeps_balances(old_db: DbView, new_db: DbView, at: Timestamp, m: Match, a: Auction, sim: Option<Identity>)
    requires
        old_db.wf(),
        settle_outcome(old_db, new_db, at, m, a, sim),
        balances_nonneg(old_db.match_participant),
    ensures
        balances_nonneg(new_db.match_participant),
{
    let bids = old_db.pending_bid.filter(bid_on(a.id));
    let res = spec_resolve(m.auction_type, bids);
    let d1 = choose|d1: DbView| #[trigger] pay_outcome(old_db, d1, m, a, res, sim) && {
        &&& new_db.auction_result.len() == d1.auction_result.len() + 1
        &&& new_db.auction_result.drop_last() == d1.auction_result
        &&& is_result(new_db.auction_result.last(), m.id, a, res, at)
        &&& new_db == (DbView {
            auction_result: new_db.auction_result,
            auction: replace_by_id(d1.auction, Auction { status: AuctionStatus::Closed, ..a }),
            pending_bid: d1.pending_bid.filter(bid_not_on(a.id)),
            ..d1
        })
    };
    if let Some(w) = res.0 {
        if let Some(p) = participant_of(old_db.match_participant, m.id, w) {
            if p.balance >= res.2 {
                crate::auction::lemma_price_paid(m.auction_type, bids);
                let ps = old_db.match_participant;
                let row = MatchParticipant { balance: (p.balance - res.2) as i64, ..p };
                assert forall|i: int| 0 <= i < ps.len() implies (#[trigger] replace_by_id(ps, row)[i]).balance >= 0 by {
                }
            }
        }
    }
}

/// Playing a word never lowers a balance: the reward is never negative.
pub proof fn lemma_word_play_keeps_balances(old_db: DbView, new_db: DbView, at: Timestamp, p: MatchParticipant, word: Seq<char>, r: Result<(), GameError>)
    requires
        old_db.wf(),
        play_word_outcome(old_db, new_db, at, p, word, r),
        old_db.match_participant.contains(p),
        balances_nonneg(old_db.match_participant),
        byte_len(word) < u32::MAX,
        p.balance + spec_word_reward(word).2 <= i64::MAX,
    ensures
        balances_nonneg(new_db.match_participant),
        forall|i: int| 0 <= i < new_db.match_participant.len() ==> (#[trigger] new_db.match_participant[i]).balance >= old_db.match_participant[i].balance,
{
    lemma_reward_bounds(word);
    let ps = old_db.match_participant;
    let total = spec_word_reward(word).2;
    let row = MatchParticipant { balance: (p.balance + total) as i64, score: (p.score + total) as i64, ..p };
    if r is Ok {
        let j = choose|j: int| 0 <= j < ps.len() && ps[j] == p;
        assert forall|i: int| 0 <= i < ps.len() implies (#[trigger] replace_by_id(ps, row)[i]).balance >= ps[i].balance by {
            if ps[i].id == p.id && i != j {
                if i < j { assert(ps[i].row_id() != ps[j].row_id()); } else { assert(ps[j].row_id() != ps[i].row_id()); }
            }
        }
    }
}

/// The tiles of the holdings that satisfy `p`.
pub open spec fn tiles_where(hs: Seq<Holding>, p: spec_fn(Holding) -> bool) -> int
    decreases hs.len(),
{
    if hs.len() == 0 {
        0
    } else {
        tiles_where(hs.drop_last(), p) + if p(hs.last()) { hs.last().count as int } else { 0 }
    }
}

/// Every holding.
pub open spec fn any_holding() -> spec_fn(Holding) -> bool {
    |h: Holding| true
}

proof fn lemma_tiles_where_replace(hs: Seq<Holding>, row: Holding, j: int, p: spec_fn(Holding) -> bool)
    requires
        0 <= j < hs.len(),
        hs[j].id == row.id,
        forall|a: int, b: int| #![trigger hs[a], hs[b]] 0 <= a < b < hs.len() ==> hs[a].id != hs[b].id,
    ensures
        tiles_where(replace_by_id(hs, row), p) == tiles_where(hs, p)
            - (if p(hs[j]) { hs[j].count as int } else { 0 }) + (if p(row) { row.count as int } else { 0 }),
    decreases hs.len(),
{
    let n = hs.len() as int;
    let t = hs.drop_last();
    assert(replace_by_id(hs, row).drop_last() =~= replace_by_id(t, row));
    if j == n - 1 {
        assert(replace_by_id(t, row) =~= t) by {
            assert forall|k: int| 0 <= k < t.len() implies #[trigger] replace_by_id(t, row)[k] == t[k] by {
                assert(hs[k].id != hs[j].id);
            }
        }
    } else {
        assert(hs[j].id != hs[n - 1].id);
        lemma_tiles_where_replace(t, row, j, p);
    }
}

proof fn lemma_tiles_where_push(hs: Seq<Holding>, row: Holding, p: spec_fn(Holding) -> bool)
    ensures
        tiles_where(hs.push(row), p) == tiles_where(hs, p) + if p(row) { row.count as int } else { 0 },
{
    assert(hs.push(row).drop_last() =~= hs);
}

proof fn lemma_credit_tiles(old_db: DbView, new_db: DbView, match_id: u64, bot: Identity, letter: Seq<char>, p: spec_fn(Holding) -> bool)
    requires
        ids_ok(old_db.holding, old_db.next.holding),
        forall|i: int| 0 <= i < old_db.holding.len() ==> (#[trigger] old_db.holding[i]).count < u32::MAX,
        credit_outcome(old_db, new_db, match_id, bot, letter),
        forall|h: Holding| is_letter_holding(h, match_id, bot, letter) ==> #[trigger] p(h),
    ensures
        tiles_where(new_db.holding, p) == tiles_where(old_db.holding, p) + 1,
{
    let hs = old_db.holding;
    match find_first(hs, letter_holding(match_id, bot, letter)) {
        Some(k) => {
            lemma_find_first_some(hs, letter_holding(match_id, bot, letter), k);
            let row = Holding { count: (hs[k].count + 1) as u32, ..hs[k] };
            assert(p(hs[k]) && p(row));
            lemma_tiles_where_replace(hs, row, k, p);
        },
        None => {
            assert(new_db.holding =~= hs.push(new_db.holding.last()));
            assert(p(new_db.holding.last()));
            lemma_tiles_where_push(hs, new_db.holding.last(), p);
        },
    }
}

/// A winner who pays gets the letter: its tiles of the auctioned letter in
/// the match, and the tiles on all racks together, grow by exactly one.
/// When no one pays (no winner, or a winner who cannot pay or takes no
/// part), no rack changes.
pub proof fn lemma_settle_credits_winner(old_db: DbView, new_db: DbView, at: Timestamp, m: Match, a: Auction, sim: Option<Identity>)
    requires
        old_db.wf(),
        settle_outcome(old_db, new_db, at, m, a, sim),
        forall|i: int| 0 <= i < old_db.holding.len() ==> (#[trigger] old_db.holding[i]).count < u32::MAX,
    ensures
        ({
            let res = spec_resolve(m.auction_type, old_db.pending_bid.filter(bid_on(a.id)));
            let pays = res.0 matches Some(w) && participant_of(old_db.match_participant, m.id, w) matches Some(p)
                && p.balance >= res.2;
            &&& pays ==> tiles_where(new_db.holding, letter_holding(m.id, res.0->0, a.letter@))
                == tiles_where(old_db.holding, letter_holding(m.id, res.0->0, a.letter@)) + 1
            &&& pays ==> tiles_where(new_db.holding, any_holding()) == tiles_where(old_db.holding, any_holding()) + 1
            &&& !pays ==> new_db.holding == old_db.holding
        }),
{
    let res = spec_resolve(m.auction_type, old_db.pending_bid.filter(bid_on(a.id)));
    let d1 = choose|d1: DbView| #[trigger] pay_outcome(old_db, d1, m, a, res, sim) && {
        &&& new_db.auction_result.len() == d1.auction_result.len() + 1
        &&& new_db.auction_result.drop_last() == d1.auction_result
        &&& is_result(new_db.auction_result.last(), m.id, a, res, at)
        &&& new_db == (DbView {
            auction_result: new_db.auction_result,
            auction: replace_by_id(d1.auction, Auction { status: AuctionStatus::Closed, ..a }),
            pending_bid: d1.pending_bid.filter(bid_not_on(a.id)),
            ..d1
        })
    };
    if let Some(w) = res.0 {
        if let Some(p) = participant_of(old_db.match_participant, m.id, w) {
            if p.balance >= res.2 {
                let paid_db = DbView {
                    match_participant: replace_by_id(old_db.match_participant, MatchParticipant { balance: (p.balance - res.2) as i64, ..p }),
                    ..old_db
                };
                lemma_credit_tiles(paid_db, d1, m.id, w, a.letter@, letter_holding(m.id, w, a.letter@));
                lemma_credit_tiles(paid_db, d1, m.id, w, a.letter@, any_holding());
            }
        }
    }
}

} // verus!
