//! Sealed-bid auctions: who wins a letter and what they pay, and how the
//! simulated bots bid.
use vstd::prelude::*;
use crate::types::{AuctionType, BotStrategy, Identity, PendingBid};
use crate::sorting::{Ranked, sort_ranked, stable_sort, strict_order, lemma_sort_ranked_sorted, lemma_sort_ranked_multiset};
use crate::letters::{letter_value, spec_letter_value};
use vstd::string::StrSliceExecFns;

verus! {

/// The price a lone bidder pays in a Vickrey auction, at most.
pub const AUCTION_RESERVE: i64 = 1;

impl Ranked for PendingBid {
    /// Higher amounts first; of equal amounts, the earlier submission (the
    /// lower id) first.
    open spec fn precedes(&self, other: &Self) -> bool {
        self.amount > other.amount || (self.amount == other.amount && self.id < other.id)
    }

    fn precedes_exec(&self, other: &Self) -> (b: bool) {
        self.amount > other.amount || (self.amount == other.amount && self.id < other.id)
    }
}

proof fn lemma_bid_order_strict()
    ensures
        strict_order::<PendingBid>(),
{
}

pub open spec fn is_positive_bid(b: PendingBid) -> bool {
    b.amount > 0
}

/// The bids that take part: those of a positive amount.
pub open spec fn positive_bids(bids: Seq<PendingBid>) -> Seq<PendingBid> {
    bids.filter(|b: PendingBid| is_positive_bid(b))
}

/// The bids that take part, best first.
pub open spec fn ranked_bids(bids: Seq<PendingBid>) -> Seq<PendingBid> {
    sort_ranked(positive_bids(bids))
}

/// (winner, top bid, price paid) of an auction with these bids: no winner,
/// 0 and 0 without positive bids; otherwise the best bid wins; a first-price
/// winner pays their bid; a Vickrey winner pays the second-best bid, or the
/// reserve (capped at their bid) when alone.
pub open spec fn spec_resolve(auction_type: AuctionType, bids: Seq<PendingBid>) -> (Option<Identity>, i64, i64) {
    let s = ranked_bids(bids);
    if s.len() == 0 {
        (None, 0, 0)
    } else {
        match auction_type {
            AuctionType::FirstPrice => (Some(s[0].bidder), s[0].amount, s[0].amount),
            AuctionType::Vickrey => if s.len() == 1 {
                (Some(s[0].bidder), s[0].amount, if AUCTION_RESERVE < s[0].amount { AUCTION_RESERVE } else { s[0].amount })
            } else {
                (Some(s[0].bidder), s[0].amount, s[1].amount)
            },
        }
    }
}

/// The positive bids, in the order given.
fn positive_bids_exec(bids: &Vec<PendingBid>) -> (r: Vec<PendingBid>)
    ensures
        r@ == positive_bids(bids@),
{
    let mut out: Vec<PendingBid> = Vec::new();
    let n = bids.len();
    let mut i: usize = 0;
    proof {
        reveal(Seq::filter);
        assert(bids@.take(0) =~= Seq::<PendingBid>::empty());
    }
    while i < n
        invariant
            n == bids@.len(),
            i <= n,
            out@ == positive_bids(bids@.take(i as int)),
        decreases n - i,
    {
        let b = bids[i];
        if b.amount > 0 {
            out.push(b);
        }
        proof {
            reveal(Seq::filter);
            assert(bids@.take(i + 1).drop_last() =~= bids@.take(i as int));
        }
        i = i + 1;
    }
    proof {
        assert(bids@.take(n as int) =~= bids@);
    }
    out
}

/// Closes an auction on the given bids: (winner, top bid, price paid).
pub fn resolve_auction(auction_type: AuctionType, bids: &Vec<PendingBid>) -> (r: (Option<Identity>, i64, i64))
    ensures
        r == spec_resolve(auction_type, bids@),
{
    let positive = positive_bids_exec(bids);
    let sorted = stable_sort(positive);
    if sorted.len() == 0 {
        return (None, 0, 0);
    }
    let first = sorted[0];
    match auction_type {
        AuctionType::FirstPrice => (Some(first.bidder), first.amount, first.amount),
        AuctionType::Vickrey => {
            if sorted.len() == 1 {
                let paid = if AUCTION_RESERVE < first.amount { AUCTION_RESERVE } else { first.amount };
                (Some(first.bidder), first.amount, paid)
            } else {
                (Some(first.bidder), first.amount, sorted[1].amount)
            }
        },
    }
}

proof fn lemma_positive_bids_members(bids: Seq<PendingBid>)
    ensures
        forall|k: int| 0 <= k < positive_bids(bids).len() ==> is_positive_bid(#[trigger] positive_bids(bids)[k]) && bids.contains(positive_bids(bids)[k]),
        forall|i: int| 0 <= i < bids.len() && is_positive_bid(#[trigger] bids[i]) ==> positive_bids(bids).contains(bids[i]),
{
    broadcast use vstd::seq_lib::group_filter_ensures;
    let p = |b: PendingBid| is_positive_bid(b);
    assert forall|k: int| 0 <= k < positive_bids(bids).len() implies is_positive_bid(#[trigger] positive_bids(bids)[k]) && bids.contains(positive_bids(bids)[k]) by {
        bids.lemma_filter_pred(p, k);
        bids.lemma_filter_contains_rev(p, positive_bids(bids)[k]);
    }
}

/// The highest bid wins, and of equal highest bids the earlier one: the
/// winning bid is one of the positive bids, no positive bid is higher, and
/// an equal positive bid has an id no lower. Without positive bids nobody
/// wins and nothing is paid.
pub proof fn lemma_highest_bid_wins(auction_type: AuctionType, bids: Seq<PendingBid>)
    ensures
        (spec_resolve(auction_type, bids).0 is None) <==> (forall|i: int| 0 <= i < bids.len() ==> !is_positive_bid(#[trigger] bids[i])),
        spec_resolve(auction_type, bids).0 is None ==> spec_resolve(auction_type, bids).1 == 0 && spec_resolve(auction_type, bids).2 == 0,
        spec_resolve(auction_type, bids).0 is Some ==> {
            let w = ranked_bids(bids)[0];
            &&& bids.contains(w)
            &&& w.amount > 0
            &&& spec_resolve(auction_type, bids).0 == Some(w.bidder)
            &&& spec_resolve(auction_type, bids).1 == w.amount
            &&& forall|i: int| 0 <= i < bids.len() && is_positive_bid(#[trigger] bids[i]) ==> bids[i].amount < w.amount
                || (bids[i].amount == w.amount && bids[i].id >= w.id)
        },
{
    broadcast use vstd::seq_lib::group_to_multiset_ensures;
    lemma_positive_bids_members(bids);
    lemma_bid_order_strict();
    let pb = positive_bids(bids);
    let s = ranked_bids(bids);
    lemma_sort_ranked_multiset(pb);
    lemma_sort_ranked_sorted(pb);
    if s.len() == 0 {
        assert forall|i: int| 0 <= i < bids.len() implies !is_positive_bid(#[trigger] bids[i]) by {
            if is_positive_bid(bids[i]) {
                assert(pb.contains(bids[i]));
                assert(pb.to_multiset().count(bids[i]) > 0);
            }
        }
    } else {
        assert(s.contains(s[0]));
        assert(pb.to_multiset().count(s[0]) > 0);
        assert(pb.contains(s[0]));
        let k = choose|k: int| 0 <= k < pb.len() && pb[k] == s[0];
        assert(is_positive_bid(pb[k]) && bids.contains(pb[k]));
        assert forall|i: int| 0 <= i < bids.len() && is_positive_bid(#[trigger] bids[i]) implies bids[i].amount < s[0].amount
            || (bids[i].amount == s[0].amount && bids[i].id >= s[0].id) by {
            assert(pb.contains(bids[i]));
            assert(s.to_multiset().count(bids[i]) > 0);
            assert(s.contains(bids[i]));
            let j = choose|j: int| 0 <= j < s.len() && s[j] == bids[i];
            if j > 0 {
                assert(!s[j].precedes(&s[0]));
            }
        }
        let idx = choose|idx: int| 0 <= idx < bids.len() && bids[idx] == pb[k];
        assert(is_positive_bid(bids[idx]));
    }
}

/// What the winner pays: nothing above their bid, and something positive.
/// First-price winners pay their bid. A Vickrey winner facing other
/// positive bids pays the best of the others: one of them is that high, and
/// all of them are no higher.
pub proof fn lemma_price_paid(auction_type: AuctionType, bids: Seq<PendingBid>)
    requires
        spec_resolve(auction_type, bids).0 is Some,
    ensures
        0 < spec_resolve(auction_type, bids).2 <= spec_resolve(auction_type, bids).1,
        auction_type == AuctionType::FirstPrice ==> spec_resolve(auction_type, bids).2 == spec_resolve(auction_type, bids).1,
        auction_type == AuctionType::Vickrey && ranked_bids(bids).len() == 1 ==> spec_resolve(auction_type, bids).2 == AUCTION_RESERVE,
        auction_type == AuctionType::Vickrey && ranked_bids(bids).len() >= 2 ==> {
            let s = ranked_bids(bids);
            &&& bids.contains(s[1])
            &&& spec_resolve(auction_type, bids).2 == s[1].amount
            &&& forall|k: int| 1 <= k < s.len() ==> (#[trigger] s[k]).amount <= s[1].amount
        },
{
    broadcast use vstd::seq_lib::group_to_multiset_ensures;
    lemma_positive_bids_members(bids);
    lemma_bid_order_strict();
    let pb = positive_bids(bids);
    let s = ranked_bids(bids);
    lemma_sort_ranked_multiset(pb);
    lemma_sort_ranked_sorted(pb);
    assert forall|k: int| 0 <= k < s.len() implies is_positive_bid(#[trigger] s[k]) && bids.contains(s[k]) by {
        assert(s.contains(s[k]));
        assert(pb.to_multiset().count(s[k]) > 0);
        assert(pb.contains(s[k]));
        let m = choose|m: int| 0 <= m < pb.len() && pb[m] == s[k];
        assert(is_positive_bid(pb[m]) && bids.contains(pb[m]));
    }
    if s.len() >= 2 {
        assert(!s[1].precedes(&s[0]));
        assert forall|k: int| 1 <= k < s.len() implies (#[trigger] s[k]).amount <= s[1].amount by {
            if k > 1 {
                assert(!s[k].precedes(&s[1]));
            }
        }
        assert(s[1].amount <= s[0].amount);
    }
}

/// The first character of a letter's text, or 'A' when it is empty.
pub open spec fn first_char_or_a(s: Seq<char>) -> char {
    if s.len() > 0 {
        s[0]
    } else {
        'A'
    }
}

pub open spec fn is_vowel(c: char) -> bool {
    c == 'A' || c == 'E' || c == 'I' || c == 'O' || c == 'U'
}

/// The bid of a simulated bot with this strategy for this letter: Human
/// bots never bid (0); a cheapskate offers one below the letter's value
/// (at least 1), a value bidder the value, an aggressive bot the value plus
/// 4 for a vowel and plus 2 otherwise; then capped at the balance, and at
/// least 0.
pub open spec fn spec_decide_bid(strategy: BotStrategy, letter: Seq<char>, balance: i64) -> i64 {
    let c = first_char_or_a(letter);
    let value = spec_letter_value(c) as i64;
    let bid: i64 = match strategy {
        BotStrategy::Human => 0,
        BotStrategy::Cheapskate => if value - 1 > 1 { (value - 1) as i64 } else { 1 },
        BotStrategy::ValueBidder => value,
        BotStrategy::Aggressive => (value + if is_vowel(c) { 4i64 } else { 2i64 }) as i64,
    };
    if strategy == BotStrategy::Human {
        0
    } else {
        let capped = if bid < balance { bid } else { balance };
        if capped > 0 { capped } else { 0 }
    }
}

pub fn decide_bid(strategy: &BotStrategy, letter: &str, balance: i64) -> (bid: i64)
    ensures
        bid == spec_decide_bid(*strategy, letter@, balance),
{
    let c = if letter.unicode_len() > 0 {
        letter.get_char(0)
    } else {
        'A'
    };
    let value = letter_value(c) as i64;
    let is_vowel = c == 'A' || c == 'E' || c == 'I' || c == 'O' || c == 'U';
    let bid: i64 = match strategy {
        BotStrategy::Human => {
            return 0;
        },
        BotStrategy::Cheapskate => if value - 1 > 1 { value - 1 } else { 1 },
        BotStrategy::ValueBidder => value,
        BotStrategy::Aggressive => value + if is_vowel { 4 } else { 2 },
    };
    let capped = if bid < balance { bid } else { balance };
    if capped > 0 { capped } else { 0 }
}

/// A simulated bot never bids more than its balance, never a negative
/// amount, and a Human-strategy bot never bids.
pub proof fn lemma_decide_bid_bounds(strategy: BotStrategy, letter: Seq<char>, balance: i64)
    ensures
        0 <= spec_decide_bid(strategy, letter, balance),
        balance >= 0 ==> spec_decide_bid(strategy, letter, balance) <= balance,
        strategy == BotStrategy::Human ==> spec_decide_bid(strategy, letter, balance) == 0,
{
}

} // verus!
