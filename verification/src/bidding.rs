//! Participants of a match, and sealed bids on the open auction.
use vstd::prelude::*;
use crate::types::{AuctionStatus, GameError, Identity, MatchParticipant, PendingBid, ReducerContext, Timestamp};
use crate::db::{Db, DbView, Row, has_id, row_with_id, ids_ok, find_index, lemma_row_with_id_at, insert_row, lemma_insert_ids};

verus! {

pub open spec fn is_participant(p: MatchParticipant, match_id: u64, bot: Identity) -> bool {
    p.match_id == match_id && p.bot == bot
}

/// Row `i` is the first participant row of `bot` in the match.
pub open spec fn first_participant_at(ps: Seq<MatchParticipant>, match_id: u64, bot: Identity, i: int) -> bool {
    &&& 0 <= i < ps.len()
    &&& is_participant(ps[i], match_id, bot)
    &&& forall|j: int| 0 <= j < i ==> !is_participant(#[trigger] ps[j], match_id, bot)
}

/// The first participant row of `bot` in the match, if any.
pub open spec fn participant_of(ps: Seq<MatchParticipant>, match_id: u64, bot: Identity) -> Option<MatchParticipant> {
    if exists|i: int| first_participant_at(ps, match_id, bot, i) {
        Some(ps[choose|i: int| first_participant_at(ps, match_id, bot, i)])
    } else {
        None
    }
}

pub proof fn lemma_first_participant_unique(ps: Seq<MatchParticipant>, match_id: u64, bot: Identity, i: int)
    requires
        first_participant_at(ps, match_id, bot, i),
    ensures
        participant_of(ps, match_id, bot) == Some(ps[i]),
{
    let k = choose|k: int| first_participant_at(ps, match_id, bot, k);
    if k < i {
        assert(!is_participant(ps[k], match_id, bot));
    } else if k > i {
        assert(!is_participant(ps[i], match_id, bot));
    }
}

/// The participant row of `bot` in the match.
pub fn find_participant(db: &Db, match_id: u64, bot: Identity) -> (r: Option<MatchParticipant>)
    ensures
        r == participant_of(db@.match_participant, match_id, bot),
{
    let n = db.match_participant.len();
    let mut i: usize = 0;
    while i < n
        invariant
            n == db@.match_participant.len(),
            i <= n,
            forall|j: int| 0 <= j < i ==> !is_participant(#[trigger] db@.match_participant[j], match_id, bot),
        decreases n - i,
    {
        let p = db.match_participant[i];
        if p.match_id == match_id && p.bot == bot {
            proof {
                lemma_first_participant_unique(db@.match_participant, match_id, bot, i as int);
            }
            return Some(p);
        }
        i = i + 1;
    }
    proof {
        if exists|k: int| first_participant_at(db@.match_participant, match_id, bot, k) {
            let k = choose|k: int| first_participant_at(db@.match_participant, match_id, bot, k);
            assert(!is_participant(db@.match_participant[k], match_id, bot));
        }
    }
    None
}

pub open spec fn is_bid_of(b: PendingBid, auction_id: u64, bidder: Identity) -> bool {
    b.auction_id == auction_id && b.bidder == bidder
}

/// The bids without those of `bidder` on the auction.
pub open spec fn without_bids_of(bids: Seq<PendingBid>, auction_id: u64, bidder: Identity) -> Seq<PendingBid> {
    bids.filter(|b: PendingBid| !is_bid_of(b, auction_id, bidder))
}

/// Deletes the bids of `bidder` on the auction.
pub fn remove_bids_of(bids: &mut Vec<PendingBid>, auction_id: u64, bidder: Identity)
    ensures
        final(bids)@ == without_bids_of(old(bids)@, auction_id, bidder),
{
    let ghost s = bids@;
    let mut kept: Vec<PendingBid> = Vec::new();
    let n = bids.len();
    let mut i: usize = 0;
    proof {
        reveal(Seq::filter);
        assert(s.take(0) =~= Seq::<PendingBid>::empty());
    }
    while i < n
        invariant
            n == s.len(),
            bids@ == s,
            i <= n,
            kept@ == without_bids_of(s.take(i as int), auction_id, bidder),
        decreases n - i,
    {
        let b = bids[i];
        if !(b.auction_id == auction_id && b.bidder == bidder) {
            kept.push(b);
        }
        proof {
            reveal(Seq::filter);
            assert(s.take(i + 1).drop_last() =~= s.take(i as int));
        }
        i = i + 1;
    }
    proof {
        assert(s.take(n as int) =~= s);
    }
    *bids = kept;
}

/// Removing rows keeps ids distinct and below the next id.
pub proof fn lemma_filter_ids<R: Row>(s: Seq<R>, next: u64, p: spec_fn(R) -> bool)
    requires
        ids_ok(s, next),
    ensures
        ids_ok(s.filter(p), next),
    decreases s.len(),
{
    reveal(Seq::filter);
    if s.len() > 0 {
        let t = s.drop_last();
        assert(ids_ok(t, next)) by {
            assert forall|i: int, j: int| #![trigger t[i], t[j]] 0 <= i < j < t.len() implies t[i].row_id() != t[j].row_id() by {
                assert(t[i] == s[i] && t[j] == s[j]);
            }
            assert forall|i: int| 0 <= i < t.len() implies (#[trigger] t[i]).row_id() < next by {
                assert(t[i] == s[i]);
            }
        }
        lemma_filter_ids(t, next, p);
        if p(s.last()) {
            let f = t.filter(p);
            let g = f.push(s.last());
            broadcast use vstd::seq_lib::group_filter_ensures;
            assert forall|i: int, j: int| #![trigger g[i], g[j]] 0 <= i < j < g.len() implies g[i].row_id() != g[j].row_id() by {
                if j == g.len() - 1 {
                    assert(f.contains(g[i]));
                    t.lemma_filter_contains_rev(p, g[i]);
                    let k = choose|k: int| 0 <= k < t.len() && t[k] == g[i];
                    assert(s[k] == t[k]);
                    assert(s[k].row_id() != s[s.len() - 1].row_id());
                } else {
                    assert(g[i] == f[i] && g[j] == f[j]);
                }
            }
        }
    }
}

/// A bid as submitted: on the auction, by the caller, of the amount, at
/// the call's time.
pub open spec fn is_new_bid(b: PendingBid, auction_id: u64, bidder: Identity, amount: i64, at: Timestamp) -> bool {
    b.auction_id == auction_id && b.bidder == bidder && b.amount == amount && b.submitted_at == at
}

/// The outcome of the caller's bid of `amount` on the auction.
pub open spec fn submit_bid_outcome(old_db: DbView, new_db: DbView, ctx: ReducerContext, auction_id: u64, amount: i64, r: Result<(), GameError>) -> bool {
    let a = row_with_id(old_db.auction, auction_id);
    let p = participant_of(old_db.match_participant, a.match_id, ctx.sender);
    if amount < 0 {
        r == Err::<(), GameError>(GameError::NegativeBid) && new_db == old_db
    } else if !has_id(old_db.auction, auction_id) {
        r == Err::<(), GameError>(GameError::UnknownAuction) && new_db == old_db
    } else if a.status != AuctionStatus::Open {
        r == Err::<(), GameError>(GameError::AuctionClosed) && new_db == old_db
    } else if ctx.timestamp.micros_since_unix_epoch >= a.closes_at.micros_since_unix_epoch {
        r == Err::<(), GameError>(GameError::AuctionExpired) && new_db == old_db
    } else if p is None {
        r == Err::<(), GameError>(GameError::NotInMatch) && new_db == old_db
    } else if p->0.balance < amount {
        r == Err::<(), GameError>(GameError::InsufficientBalance) && new_db == old_db
    } else {
        let id = old_db.next.pending_bid;
        &&& r == Ok::<(), GameError>(())
        &&& new_db == (DbView {
            pending_bid: without_bids_of(old_db.pending_bid, auction_id, ctx.sender).push(
                PendingBid { id, auction_id, bidder: ctx.sender, amount, submitted_at: ctx.timestamp },
            ),
            next: crate::db::Sequences { pending_bid: (id + 1) as u64, ..old_db.next },
            ..old_db
        })
    }
}

/// Places the caller's sealed bid of `amount` on the auction, replacing any
/// earlier bid of theirs on it.
pub fn submit_bid(ctx: &ReducerContext, db: &mut Db, auction_id: u64, amount: i64) -> (r: Result<(), GameError>)
    requires
        old(db)@.wf(),
        old(db)@.next.pending_bid < u64::MAX,
    ensures
        submit_bid_outcome(old(db)@, final(db)@, *ctx, auction_id, amount, r),
        final(db)@.wf(),
{
    if amount < 0 {
        return Err(GameError::NegativeBid);
    }
    let i = match find_index(&db.auction, auction_id) {
        Some(i) => i,
        None => {
            return Err(GameError::UnknownAuction);
        },
    };
    proof {
        lemma_row_with_id_at(db@.auction, i as int);
    }
    let status = db.auction[i].status;
    let closes_at = db.auction[i].closes_at;
    let match_id = db.auction[i].match_id;
    if status != AuctionStatus::Open {
        return Err(GameError::AuctionClosed);
    }
    if ctx.timestamp.micros_since_unix_epoch >= closes_at.micros_since_unix_epoch {
        return Err(GameError::AuctionExpired);
    }
    let participant = match find_participant(db, match_id, ctx.sender) {
        Some(p) => p,
        None => {
            return Err(GameError::NotInMatch);
        },
    };
    if participant.balance < amount {
        return Err(GameError::InsufficientBalance);
    }
    let ghost old_db = db@;
    remove_bids_of(&mut db.pending_bid, auction_id, ctx.sender);
    proof {
        lemma_filter_ids(old_db.pending_bid, old_db.next.pending_bid, |b: PendingBid| !is_bid_of(b, auction_id, ctx.sender));
    }
    let ghost mid = db@.pending_bid;
    let ghost mid_next = db.next.pending_bid;
    insert_row(
        &mut db.pending_bid,
        &mut db.next.pending_bid,
        PendingBid { id: 0, auction_id, bidder: ctx.sender, amount, submitted_at: ctx.timestamp },
    );
    proof {
        lemma_insert_ids(mid, mid_next, PendingBid { id: 0, auction_id, bidder: ctx.sender, amount, submitted_at: ctx.timestamp });
        assert(db@ =~= (DbView {
            pending_bid: without_bids_of(old_db.pending_bid, auction_id, ctx.sender).push(
                PendingBid { id: old_db.next.pending_bid, auction_id, bidder: ctx.sender, amount, submitted_at: ctx.timestamp },
            ),
            next: crate::db::Sequences { pending_bid: (old_db.next.pending_bid + 1) as u64, ..old_db.next },
            ..old_db
        }));
    }
    Ok(())
}

/// After a successful bid the caller has exactly one bid on the auction,
/// the one just placed: an earlier bid is replaced, not kept beside it.
pub proof fn lemma_bid_replaces(old_db: DbView, new_db: DbView, ctx: ReducerContext, auction_id: u64, amount: i64)
    requires
        submit_bid_outcome(old_db, new_db, ctx, auction_id, amount, Ok(())),
    ensures
        new_db.pending_bid.filter(|b: PendingBid| is_bid_of(b, auction_id, ctx.sender)).len() == 1,
        is_new_bid(new_db.pending_bid.last(), auction_id, ctx.sender, amount, ctx.timestamp),
{
    let p = |b: PendingBid| is_bid_of(b, auction_id, ctx.sender);
    let q = |b: PendingBid| !is_bid_of(b, auction_id, ctx.sender);
    let w = without_bids_of(old_db.pending_bid, auction_id, ctx.sender);
    lemma_filter_none(old_db.pending_bid, auction_id, ctx.sender);
    reveal(Seq::filter);
    let nb = new_db.pending_bid;
    assert(nb.drop_last() == w);
}

proof fn lemma_filter_none(s: Seq<PendingBid>, auction_id: u64, bidder: Identity)
    ensures
        without_bids_of(s, auction_id, bidder).filter(|b: PendingBid| is_bid_of(b, auction_id, bidder)).len() == 0,
    decreases s.len(),
{
    reveal(Seq::filter);
    if s.len() > 0 {
        lemma_filter_none(s.drop_last(), auction_id, bidder);
        let w = without_bids_of(s.drop_last(), auction_id, bidder);
        assert(w.push(s.last()).drop_last() =~= w);
    }
}

/// Bids are sealed: two successful bids of the caller on the auction that
/// differ only in their amounts leave the same tables, but for the amount
/// of the new bid.
pub proof fn lemma_bid_amount_private(old_db: DbView, db1: DbView, db2: DbView, ctx: ReducerContext, auction_id: u64, amount1: i64, amount2: i64)
    requires
        submit_bid_outcome(old_db, db1, ctx, auction_id, amount1, Ok(())),
        submit_bid_outcome(old_db, db2, ctx, auction_id, amount2, Ok(())),
    ensures
        db1 == (DbView { pending_bid: db1.pending_bid, ..db2 }),
        db1.pending_bid.len() == db2.pending_bid.len(),
        db1.pending_bid.drop_last() == db2.pending_bid.drop_last(),
        db1.pending_bid.last() == (PendingBid { amount: amount1, ..db2.pending_bid.last() }),
{
    assert(db1.pending_bid.drop_last() =~= db2.pending_bid.drop_last());
}

} // verus!
