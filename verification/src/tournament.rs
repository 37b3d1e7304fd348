//! Tournaments: Swiss rounds, then a knock-out bracket among the top cut.
use vstd::prelude::*;
use rand::rngs::StdRng;
use crate::types::{
    AuctionType, Bot, GameError, Identity, MatchParticipant, MatchStatus, ReducerContext, Timestamp, Tournament,
    TournamentEntry, TournamentMatch, TournamentPhase, TournamentStatus,
};
use crate::db::{lemma_find_first_same, lemma_find_first_some, lemma_filter_len_mono, lemma_filter_len_same, lemma_filter_all_or_none, Db, DbView, Sequences, Row, has_id, row_with_id, replace_by_id, find_index, update_row, insert_row, lemma_row_with_id_at, lemma_insert_ids, is_first, find_first, lemma_find_first_at, lemma_find_first_none};
use crate::bots::has_bot;
use crate::matchplay::{all_bot_identities, bot_identities, in_match, participants_of, start_match_with, start_match_with_outcome, unknown_bot, can_add_millis, AUCTION_DURATION_MS};
use crate::sorting::{Ranked, sort_ranked, stable_sort, lemma_sort_ranked_multiset};
use crate::rng::shuffle;
use crate::bag::lemma_replace_ids;

verus! {

impl Ranked for TournamentEntry {
    /// More Swiss points first.
    open spec fn precedes(&self, other: &Self) -> bool {
        self.swiss_points > other.swiss_points
    }

    fn precedes_exec(&self, other: &Self) -> (b: bool) {
        self.swiss_points > other.swiss_points
    }
}

impl Ranked for MatchParticipant {
    /// Higher scores first.
    open spec fn precedes(&self, other: &Self) -> bool {
        self.score > other.score
    }

    fn precedes_exec(&self, other: &Self) -> (b: bool) {
        self.score > other.score
    }
}

pub open spec fn entry_bots(s: Seq<TournamentEntry>) -> Seq<Identity> {
    s.map_values(|e: TournamentEntry| e.bot)
}

/// A tournament-match link as recorded.
pub open spec fn link_outcome(old_db: DbView, new_db: DbView, tournament_id: u64, match_id: u64, round: u32, phase: TournamentPhase) -> bool {
    new_db == (DbView {
        tournament_match: old_db.tournament_match.push(TournamentMatch { id: old_db.next.tournament_match, tournament_id, match_id, round, phase }),
        next: Sequences { tournament_match: (old_db.next.tournament_match + 1) as u64, ..old_db.next },
        ..old_db
    })
}

/// Pairing the entries into matches of `size`: for each full group of
/// `size` entries in order, a match is started with their bots and linked
/// to the tournament round; the first failure stops the pairing and keeps
/// what was done. Leftover entries (fewer than `size`) get no match.
pub open spec fn paired(
    old_db: DbView,
    new_db: DbView,
    at: Timestamp,
    tournament_id: u64,
    auction_type: AuctionType,
    size: int,
    entries: Seq<TournamentEntry>,
    round: u32,
    phase: TournamentPhase,
    r: Result<(), GameError>,
) -> bool
    decreases entries.len(),
{
    if size <= 0 {
        r == Err::<(), GameError>(GameError::NoParticipants) && new_db == old_db
    } else if entries.len() < size {
        r == Ok::<(), GameError>(()) && new_db == old_db
    } else {
        exists|d1: DbView, r1: Result<u64, GameError>| #[trigger] start_match_with_outcome(old_db, d1, at, auction_type, entry_bots(entries.take(size)), r1) && match r1 {
            Err(e) => r == Err::<(), GameError>(e) && new_db == d1,
            Ok(mid) => exists|d2: DbView| #[trigger] link_outcome(d1, d2, tournament_id, mid, round, phase) && paired(d2, new_db, at, tournament_id, auction_type, size, entries.skip(size), round, phase, r),
        }
    }
}

/// The room that pairing `n` entries needs: the id sequences that a match
/// start advances, and the participant rows, stay far from their limits
/// after `n` more matches.
pub open spec fn pair_room(db: DbView, n: int, at: Timestamp) -> bool {
    &&& db.match_participant.len() + n < 0x1_0000_0000
    &&& db.next.match_state + n < 0x4000_0000_0000_0000
    &&& db.next.match_participant + n < 0x4000_0000_0000_0000
    &&& db.next.bag_letter + 26 * n < 0x4000_0000_0000_0000
    &&& db.next.auction + n < 0x4000_0000_0000_0000
    &&& db.next.auction_schedule + n < 0x4000_0000_0000_0000
    &&& db.next.pending_bid + n * 0x2_0000_0000 < 0x4000_0000_0000_0000
    &&& db.next.tournament_match + n < 0x4000_0000_0000_0000
    &&& can_add_millis(at, AUCTION_DURATION_MS as int)
}

/// Pairing leaves bots and tournaments alone, and ids grow by a bounded
/// amount for each of the `n` entries.
pub open spec fn pair_growth(old_db: DbView, new_db: DbView, n: int) -> bool {
    &&& new_db.bot == old_db.bot
    &&& new_db.bot_stats == old_db.bot_stats
    &&& new_db.matchmaker_config == old_db.matchmaker_config
    &&& new_db.matchmaker_schedule == old_db.matchmaker_schedule
    &&& new_db.tournament == old_db.tournament
    &&& new_db.tournament_entry == old_db.tournament_entry
    &&& new_db.holding == old_db.holding
    &&& new_db.word_play == old_db.word_play
    &&& new_db.auction_result == old_db.auction_result
    &&& new_db.next.tournament == old_db.next.tournament
    &&& new_db.next.tournament_entry == old_db.next.tournament_entry
    &&& new_db.next.matchmaker_schedule == old_db.next.matchmaker_schedule
    &&& new_db.next.holding == old_db.next.holding
    &&& new_db.next.word_play == old_db.next.word_play
    &&& new_db.next.match_state <= old_db.next.match_state + n
    &&& new_db.next.match_participant <= old_db.next.match_participant + n
    &&& new_db.next.bag_letter <= old_db.next.bag_letter + 26 * n
    &&& new_db.next.auction <= old_db.next.auction + n
    &&& new_db.next.auction_schedule <= old_db.next.auction_schedule + n
    &&& new_db.next.pending_bid <= old_db.next.pending_bid + n * 0x2_0000_0000
    &&& new_db.next.tournament_match <= old_db.next.tournament_match + n
    &&& new_db.match_participant.len() <= old_db.match_participant.len() + n
    &&& new_db.match_state.len() >= old_db.match_state.len()
    &&& forall|k: int| 0 <= k < old_db.match_state.len() ==> (#[trigger] new_db.match_state[k]).id == old_db.match_state[k].id
}

/// Starts one match for each full group of `size` entries, in order, and
/// links each to the tournament round.
pub fn pair_into_matches(
    ctx: &ReducerContext,
    db: &mut Db,
    rng: &mut StdRng,
    tournament_id: u64,
    auction_type: AuctionType,
    size: u32,
    entries: &Vec<TournamentEntry>,
    round: u32,
    phase: TournamentPhase,
) -> (r: Result<(), GameError>)
    requires
        old(db)@.wf(),
        pair_room(old(db)@, entries@.len() as int, ctx.timestamp),
    ensures
        paired(old(db)@, final(db)@, ctx.timestamp, tournament_id, auction_type, size as int, entries@, round, phase, r),
        final(db)@.wf(),
        pair_growth(old(db)@, final(db)@, entries@.len() as int),
        size > 0 && (forall|k: int| 0 <= k < entries@.len() ==> has_bot(old(db)@.bot, (#[trigger] entries@[k]).bot)) ==> r is Ok,
{
    let ghost old_db = db@;
    let ghost es = entries@;
    let ghost all_known = forall|k: int| 0 <= k < es.len() ==> has_bot(old_db.bot, (#[trigger] es[k]).bot);
    if size == 0 {
        return Err(GameError::NoParticipants);
    }
    let sz = size as usize;
    let n = entries.len();
    let mut i: usize = 0;
    proof {
        assert(es.skip(0) =~= es);
    }
    while sz <= n - i
        invariant
            n == es.len(),
            entries@ == es,
            sz == size as usize,
            sz > 0,
            i <= n,
            old_db == old(db)@,
            old_db.wf(),
            db@.wf(),
            pair_room(old_db, n as int, ctx.timestamp),
            pair_growth(old_db, db@, i as int),
            all_known == (forall|k: int| 0 <= k < es.len() ==> has_bot(old_db.bot, (#[trigger] es[k]).bot)),
            forall|fin: DbView, rr: Result<(), GameError>| #[trigger] paired(db@, fin, ctx.timestamp, tournament_id, auction_type, sz as int, es.skip(i as int), round, phase, rr)
                ==> paired(old_db, fin, ctx.timestamp, tournament_id, auction_type, sz as int, es, round, phase, rr),
        decreases n - i,
    {
        let mut roster: Vec<Identity> = Vec::new();
        let mut q: usize = 0;
        while q < sz
            invariant
                q <= sz,
                i + sz <= n,
                n == es.len(),
                entries@ == es,
                roster@ == entry_bots(es.skip(i as int).take(sz as int)).take(q as int),
            decreases sz - q,
        {
            roster.push(entries[i + q].bot);
            proof {
                assert(entry_bots(es.skip(i as int).take(sz as int)).take(q + 1) =~= entry_bots(es.skip(i as int).take(sz as int)).take(q as int).push(entries@[i + q].bot));
            }
            q = q + 1;
        }
        proof {
            assert(entry_bots(es.skip(i as int).take(sz as int)).take(sz as int) =~= entry_bots(es.skip(i as int).take(sz as int)));
            assert(roster@.len() == sz);
            if all_known {
                assert forall|j: int| 0 <= j < roster@.len() implies !unknown_bot(db@.bot)(#[trigger] roster@[j]) by {
                    assert(roster@[j] == es[i + j].bot);
                }
                lemma_find_first_none(roster@, unknown_bot(db@.bot));
            }
        }
        let ghost d0 = db@;
        let started = start_match_with(ctx, db, rng, auction_type, &roster);
        let ghost d1 = db@;
        match started {
            Err(e) => {
                proof {
                    assert(paired(d0, d1, ctx.timestamp, tournament_id, auction_type, sz as int, es.skip(i as int), round, phase, Err(e)));
                    assert forall|k: int| 0 <= k < old_db.match_state.len() implies (#[trigger] d1.match_state[k]).id == old_db.match_state[k].id by {
                        assert(d0.match_state[k].id == old_db.match_state[k].id);
                    }
                }
                return Err(e);
            },
            Ok(mid) => {
                let link = TournamentMatch { id: 0, tournament_id, match_id: mid, round, phase };
                proof {
                    lemma_insert_ids(db@.tournament_match, db@.next.tournament_match, link);
                }
                insert_row(&mut db.tournament_match, &mut db.next.tournament_match, link);
                proof {
                    assert(link_outcome(d1, db@, tournament_id, mid, round, phase));
                    assert(es.skip(i as int).skip(sz as int) =~= es.skip(i + sz));
                    assert forall|fin: DbView, rr: Result<(), GameError>| #[trigger] paired(db@, fin, ctx.timestamp, tournament_id, auction_type, sz as int, es.skip(i + sz), round, phase, rr)
                        implies paired(old_db, fin, ctx.timestamp, tournament_id, auction_type, sz as int, es, round, phase, rr) by {
                        assert(paired(d0, fin, ctx.timestamp, tournament_id, auction_type, sz as int, es.skip(i as int), round, phase, rr));
                    }
                    assert forall|k: int| 0 <= k < old_db.match_state.len() implies (#[trigger] db@.match_state[k]).id == old_db.match_state[k].id by {
                        assert(d0.match_state[k].id == old_db.match_state[k].id);
                        assert(d1.match_state[k].id == d0.match_state[k].id);
                    }
                }
                i = i + sz;
            },
        }
    }
    proof {
        assert(paired(db@, db@, ctx.timestamp, tournament_id, auction_type, sz as int, es.skip(i as int), round, phase, Ok(())));
    }
    Ok(())
}

/// The entries of a tournament; with `active_only`, those not eliminated.
pub open spec fn entry_filter(tournament_id: u64, active_only: bool) -> spec_fn(TournamentEntry) -> bool {
    |e: TournamentEntry| e.tournament_id == tournament_id && (!active_only || !e.eliminated)
}

/// The entries of a tournament in table order (only those still in it, with
/// `active_only`).
pub fn entries_of(db: &Db, tournament_id: u64, active_only: bool) -> (r: Vec<TournamentEntry>)
    ensures
        r@ == db@.tournament_entry.filter(entry_filter(tournament_id, active_only)),
{
    let ghost s = db@.tournament_entry;
    let mut out: Vec<TournamentEntry> = Vec::new();
    let n = db.tournament_entry.len();
    let mut i: usize = 0;
    proof {
        reveal(Seq::filter);
        assert(s.take(0) =~= Seq::<TournamentEntry>::empty());
    }
    while i < n
        invariant
            n == s.len(),
            s == db@.tournament_entry,
            i <= n,
            out@ == s.take(i as int).filter(entry_filter(tournament_id, active_only)),
        decreases n - i,
    {
        let e = db.tournament_entry[i];
        if e.tournament_id == tournament_id && (!active_only || !e.eliminated) {
            out.push(e);
        }
        proof {
            reveal(Seq::filter);
            assert(s.take(i + 1).drop_last() =~= s.take(i as int));
        }
        i = i + 1;
    }
    proof {
        assert(s.take(n as int) =~= s);
    }
    out
}

/// The tables with the tournament's current round set.
pub open spec fn with_round(db: DbView, t: Tournament, round: u32) -> DbView {
    DbView { tournament: replace_by_id(db.tournament, Tournament { current_round: round, ..t }), ..db }
}

/// The number of entries of a tournament, eliminated or not.
pub open spec fn entry_count(db: DbView, tournament_id: u64) -> int {
    db.tournament_entry.filter(entry_filter(tournament_id, false)).len() as int
}

/// The room that a round of a tournament needs: room to pair all its
/// entries.
pub open spec fn round_room(db: DbView, tournament_id: u64, at: Timestamp) -> bool {
    pair_room(db, entry_count(db, tournament_id), at)
}

/// Every entry still in a tournament is one of its entries.
proof fn lemma_active_count(db: DbView, tournament_id: u64)
    ensures
        db.tournament_entry.filter(entry_filter(tournament_id, true)).len() <= entry_count(db, tournament_id),
{
    lemma_filter_len_mono(db.tournament_entry, entry_filter(tournament_id, true), entry_filter(tournament_id, false));
}

/// A Swiss round: the round is recorded, and the entries still in the
/// tournament are paired into matches, in an order drawn at random in the
/// first round and by Swiss points (most first, ties in table order) after.
pub open spec fn swiss_round_outcome(old_db: DbView, new_db: DbView, at: Timestamp, tournament_id: u64, round: u32, r: Result<(), GameError>) -> bool {
    if !has_id(old_db.tournament, tournament_id) {
        r == Err::<(), GameError>(GameError::UnknownTournament) && new_db == old_db
    } else {
        let t = row_with_id(old_db.tournament, tournament_id);
        let es = old_db.tournament_entry.filter(entry_filter(tournament_id, true));
        exists|order: Seq<TournamentEntry>|
            #[trigger] paired(with_round(old_db, t, round), new_db, at, tournament_id, t.auction_type, t.match_size as int, order, round, TournamentPhase::Swiss, r)
            && (if round == 1 { order.to_multiset() == es.to_multiset() } else { order == sort_ranked(es) })
    }
}

proof fn lemma_with_round(db: DbView, t: Tournament, round: u32)
    requires
        db.wf(),
        has_id(db.tournament, t.id),
    ensures
        with_round(db, t, round).wf(),
        with_round(db, t, round).tournament.len() == db.tournament.len(),
{
    lemma_replace_ids(db.tournament, db.next.tournament, Tournament { current_round: round, ..t });
}

/// Starts Swiss round `round` of the tournament.
pub fn start_swiss_round(ctx: &ReducerContext, db: &mut Db, rng: &mut StdRng, tournament_id: u64, round: u32) -> (r: Result<(), GameError>)
    requires
        old(db)@.wf(),
        round_room(old(db)@, tournament_id, ctx.timestamp),
    ensures
        swiss_round_outcome(old(db)@, final(db)@, ctx.timestamp, tournament_id, round, r),
        final(db)@.wf(),
        has_id(old(db)@.tournament, tournament_id) ==> pair_growth(with_round(old(db)@, row_with_id(old(db)@.tournament, tournament_id), round), final(db)@, old(db)@.tournament_entry.len() as int),
        has_id(old(db)@.tournament, tournament_id) && row_with_id(old(db)@.tournament, tournament_id).match_size > 0
            && (forall|k: int| 0 <= k < old(db)@.tournament_entry.len() && (#[trigger] old(db)@.tournament_entry[k]).tournament_id == tournament_id ==> has_bot(old(db)@.bot, old(db)@.tournament_entry[k].bot))
            ==> r is Ok,
{
    let ghost old_db = db@;
    let ti = match find_index(&db.tournament, tournament_id) {
        Some(ti) => ti,
        None => {
            return Err(GameError::UnknownTournament);
        },
    };
    let t = db.tournament[ti];
    proof {
        lemma_row_with_id_at(db@.tournament, ti as int);
        lemma_with_round(db@, t, round);
    }
    update_row(&mut db.tournament, Tournament { current_round: round, ..t });
    let ghost d1 = db@;
    let mut entries = entries_of(db, tournament_id, true);
    let ghost es = entries@;
    proof {
        assert(d1 == with_round(old_db, t, round));
        lemma_active_count(old_db, tournament_id);
    }
    if round == 1 {
        shuffle(&mut entries, rng);
    } else {
        entries = stable_sort(entries);
        proof {
            lemma_sort_ranked_multiset(es);
        }
    }
    let ghost order = entries@;
    proof {
        assert(order.len() == es.len()) by {
            if round == 1 {
            } else {
                lemma_sort_ranked_multiset(es);
            }
        }
        if t.match_size > 0 && (forall|k: int| 0 <= k < old_db.tournament_entry.len() && (#[trigger] old_db.tournament_entry[k]).tournament_id == tournament_id ==> has_bot(old_db.bot, old_db.tournament_entry[k].bot)) {
            assert forall|k: int| 0 <= k < order.len() implies has_bot(d1.bot, (#[trigger] order[k]).bot) by {
                broadcast use vstd::seq_lib::group_to_multiset_ensures;
                if round != 1 {
                    lemma_sort_ranked_multiset(es);
                }
                assert(order.contains(order[k]));
                assert(order.to_multiset().count(order[k]) > 0);
                assert(es.to_multiset().count(order[k]) > 0);
                assert(es.contains(order[k]));
                let j = choose|j: int| 0 <= j < es.len() && es[j] == order[k];
                old_db.tournament_entry.lemma_filter_pred(entry_filter(tournament_id, true), j);
                old_db.tournament_entry.lemma_filter_contains_rev(entry_filter(tournament_id, true), es[j]);
                let m = choose|m: int| 0 <= m < old_db.tournament_entry.len() && old_db.tournament_entry[m] == es[j];
                assert(old_db.tournament_entry[m].tournament_id == tournament_id);
            }
        }
    }
    let r = pair_into_matches(ctx, db, rng, tournament_id, t.auction_type, t.match_size, &entries, round, TournamentPhase::Swiss);
    proof {
        assert(paired(with_round(old_db, t, round), db@, ctx.timestamp, tournament_id, t.auction_type, t.match_size as int, order, round, TournamentPhase::Swiss, r));
    }
    r
}

/// A bracket round: with two or more entries still in the tournament, the
/// next round is recorded and they are paired into matches in table order,
/// in one match of all of them when fewer remain than the match size.
pub open spec fn bracket_round_outcome(old_db: DbView, new_db: DbView, at: Timestamp, tournament_id: u64, r: Result<(), GameError>) -> bool {
    if !has_id(old_db.tournament, tournament_id) {
        r == Err::<(), GameError>(GameError::UnknownTournament) && new_db == old_db
    } else {
        let t = row_with_id(old_db.tournament, tournament_id);
        let es = old_db.tournament_entry.filter(entry_filter(tournament_id, true));
        if es.len() < 2 {
            r == Ok::<(), GameError>(()) && new_db == old_db
        } else {
            let size = if es.len() < t.match_size { es.len() as int } else { t.match_size as int };
            paired(with_round(old_db, t, (t.current_round + 1) as u32), new_db, at, tournament_id, t.auction_type, size, es, (t.current_round + 1) as u32, TournamentPhase::Bracket, r)
        }
    }
}

/// The round counter of the tournament can still advance.
pub open spec fn round_can_advance(db: DbView, tournament_id: u64) -> bool {
    has_id(db.tournament, tournament_id) ==> row_with_id(db.tournament, tournament_id).current_round < u32::MAX
}

/// Starts the next bracket round of the tournament.
pub fn start_bracket_round(ctx: &ReducerContext, db: &mut Db, rng: &mut StdRng, tournament_id: u64) -> (r: Result<(), GameError>)
    requires
        old(db)@.wf(),
        round_room(old(db)@, tournament_id, ctx.timestamp),
        round_can_advance(old(db)@, tournament_id),
    ensures
        bracket_round_outcome(old(db)@, final(db)@, ctx.timestamp, tournament_id, r),
        final(db)@.wf(),
        has_id(old(db)@.tournament, tournament_id) ==> pair_growth(with_round(old(db)@, row_with_id(old(db)@.tournament, tournament_id), (row_with_id(old(db)@.tournament, tournament_id).current_round + 1) as u32), final(db)@, old(db)@.tournament_entry.len() as int)
            || final(db)@ == old(db)@,
{
    let ghost old_db = db@;
    let ti = match find_index(&db.tournament, tournament_id) {
        Some(ti) => ti,
        None => {
            return Err(GameError::UnknownTournament);
        },
    };
    let t = db.tournament[ti];
    proof {
        lemma_row_with_id_at(db@.tournament, ti as int);
    }
    let entries = entries_of(db, tournament_id, true);
    if entries.len() < 2 {
        return Ok(());
    }
    let next_round = t.current_round + 1;
    proof {
        lemma_with_round(db@, t, next_round);
    }
    update_row(&mut db.tournament, Tournament { current_round: next_round, ..t });
    proof {
        assert(db@ == with_round(old_db, t, next_round));
        lemma_active_count(old_db, tournament_id);
    }
    let size: u32 = if entries.len() < t.match_size as usize { entries.len() as u32 } else { t.match_size };
    pair_into_matches(ctx, db, rng, tournament_id, t.auction_type, size, &entries, next_round, TournamentPhase::Bracket)
}

/// The entries with each of `rows` replaced, in turn, by the same entry
/// marked eliminated.
pub open spec fn eliminate_all(entries: Seq<TournamentEntry>, rows: Seq<TournamentEntry>) -> Seq<TournamentEntry>
    decreases rows.len(),
{
    if rows.len() == 0 {
        entries
    } else {
        replace_by_id(eliminate_all(entries, rows.drop_last()), TournamentEntry { eliminated: true, ..rows.last() })
    }
}

/// The elements of `s` from position `k` on (none when `k` is past its end).
pub open spec fn ranks_from<T>(s: Seq<T>, k: int) -> Seq<T> {
    if k < s.len() { s.skip(k) } else { Seq::empty() }
}

/// The end of the Swiss phase: the tournament's entries are ranked by Swiss
/// points (ties in table order), all below the top cut are eliminated, and
/// the tournament enters its bracket at round 0.
pub open spec fn cut_to_bracket(db: DbView, t: Tournament) -> DbView {
    let ranked = sort_ranked(db.tournament_entry.filter(entry_filter(t.id, false)));
    DbView {
        tournament_entry: eliminate_all(db.tournament_entry, ranks_from(ranked, t.top_cut as int)),
        tournament: replace_by_id(db.tournament, Tournament { status: TournamentStatus::Bracket, current_round: 0, ..t }),
        ..db
    }
}

/// The tables with the tournament ended at `at`.
pub open spec fn with_end(db: DbView, t: Tournament, at: Timestamp) -> DbView {
    DbView { tournament: replace_by_id(db.tournament, Tournament { status: TournamentStatus::Ended, ended_at: Some(at), ..t }), ..db }
}

/// What follows a completed round: another Swiss round while some remain;
/// after the last, the cut and the first bracket round; in the bracket, the
/// next round while two or more entries remain, else the tournament ends.
pub open spec fn advance_outcome(old_db: DbView, new_db: DbView, at: Timestamp, tournament_id: u64) -> bool {
    if !has_id(old_db.tournament, tournament_id) {
        new_db == old_db
    } else {
        let t = row_with_id(old_db.tournament, tournament_id);
        match t.status {
            TournamentStatus::Swiss => if t.current_round < t.swiss_rounds_total {
                exists|r: Result<(), GameError>| #[trigger] swiss_round_outcome(old_db, new_db, at, tournament_id, (t.current_round + 1) as u32, r)
            } else {
                exists|r: Result<(), GameError>| #[trigger] bracket_round_outcome(cut_to_bracket(old_db, t), new_db, at, tournament_id, r)
            },
            TournamentStatus::Bracket => if old_db.tournament_entry.filter(entry_filter(tournament_id, true)).len() <= 1 {
                new_db == with_end(old_db, t, at)
            } else {
                exists|r: Result<(), GameError>| #[trigger] bracket_round_outcome(old_db, new_db, at, tournament_id, r)
            },
            _ => new_db == old_db,
        }
    }
}

/// Marks each of `rows` eliminated, from position `from` on.
fn eliminate_from(db: &mut Db, rows: &Vec<TournamentEntry>, from: usize)
    requires
        old(db)@.wf(),
        forall|k: int| 0 <= k < rows@.len() ==> has_id(old(db)@.tournament_entry, (#[trigger] rows@[k]).id),
        forall|k: int| 0 <= k < rows@.len() ==> (#[trigger] rows@[k]).tournament_id < old(db)@.next.tournament,
        forall|k: int| 0 <= k < rows@.len() ==> old(db)@.tournament_entry.contains(#[trigger] rows@[k]),
    ensures
        final(db)@ == (DbView { tournament_entry: eliminate_all(old(db)@.tournament_entry, ranks_from(rows@, from as int)), ..old(db)@ }),
        final(db)@.tournament_entry.len() == old(db)@.tournament_entry.len(),
        same_tournaments(old(db)@.tournament_entry, final(db)@.tournament_entry),
        final(db)@.wf(),
{
    let ghost old_db = db@;
    let ghost te0 = db@.tournament_entry;
    let n = rows.len();
    if from >= n {
        return;
    }
    let mut i: usize = from;
    proof {
        assert(rows@.skip(from as int).take(0) =~= Seq::<TournamentEntry>::empty());
    }
    while i < n
        invariant
            from <= i <= n,
            n == rows@.len(),
            old_db == old(db)@,
            old_db.wf(),
            forall|k: int| 0 <= k < rows@.len() ==> has_id(te0, (#[trigger] rows@[k]).id),
            forall|k: int| 0 <= k < rows@.len() ==> (#[trigger] rows@[k]).tournament_id < old_db.next.tournament,
            forall|k: int| 0 <= k < rows@.len() ==> te0.contains(#[trigger] rows@[k]),
            te0 == old_db.tournament_entry,
            db@ == (DbView { tournament_entry: eliminate_all(te0, rows@.skip(from as int).take(i - from)), ..old_db }),
            db@.tournament_entry.len() == te0.len(),
            same_tournaments(te0, db@.tournament_entry),
            forall|k: int| 0 <= k < te0.len() ==> (#[trigger] db@.tournament_entry[k]).id == te0[k].id,
            db@.wf(),
        decreases n - i,
    {
        let e = rows[i];
        let row = TournamentEntry { eliminated: true, ..e };
        proof {
            let m = choose|m: int| 0 <= m < te0.len() && (#[trigger] te0[m]).row_id() == rows@[i as int].id;
            assert(db@.tournament_entry[m].row_id() == row.row_id());
            lemma_replace_ids(db@.tournament_entry, db@.next.tournament_entry, row);
        }
        let ghost cur = db@.tournament_entry;
        update_row(&mut db.tournament_entry, row);
        proof {
            assert(te0.contains(e));
            let m2 = choose|m2: int| 0 <= m2 < te0.len() && te0[m2] == e;
            assert forall|k: int| 0 <= k < te0.len() implies (#[trigger] db@.tournament_entry[k]).tournament_id == te0[k].tournament_id by {
                if cur[k].id == row.id {
                    assert(te0[k].id == te0[m2].id);
                    if k != m2 {
                        if k < m2 { assert(te0[k].row_id() != te0[m2].row_id()); } else { assert(te0[m2].row_id() != te0[k].row_id()); }
                    }
                }
            }
            let tk = rows@.skip(from as int).take(i + 1 - from);
            assert(tk.drop_last() =~= rows@.skip(from as int).take(i - from));
            assert(tk.last() == e);
        }
        i = i + 1;
    }
    proof {
        assert(rows@.skip(from as int).take(n - from) =~= rows@.skip(from as int));
    }
}

/// Moves the tournament on after one of its rounds is complete.
pub fn advance_tournament(ctx: &ReducerContext, db: &mut Db, rng: &mut StdRng, tournament_id: u64)
    requires
        old(db)@.wf(),
        round_room(old(db)@, tournament_id, ctx.timestamp),
        round_can_advance(old(db)@, tournament_id),
    ensures
        advance_outcome(old(db)@, final(db)@, ctx.timestamp, tournament_id),
        final(db)@.wf(),
{
    let ghost old_db = db@;
    let ti = match find_index(&db.tournament, tournament_id) {
        Some(ti) => ti,
        None => {
            return;
        },
    };
    let t = db.tournament[ti];
    proof {
        lemma_row_with_id_at(db@.tournament, ti as int);
    }
    match t.status {
        TournamentStatus::Swiss => {
            if t.current_round < t.swiss_rounds_total {
                let r = start_swiss_round(ctx, db, rng, tournament_id, t.current_round + 1);
                proof {
                    assert(swiss_round_outcome(old_db, db@, ctx.timestamp, tournament_id, (t.current_round + 1) as u32, r));
                }
            } else {
                let all = entries_of(db, tournament_id, false);
                let ranked = stable_sort(all);
                proof {
                    let es = old_db.tournament_entry.filter(entry_filter(tournament_id, false));
                    lemma_sort_ranked_multiset(es);
                    assert forall|k: int| 0 <= k < ranked@.len() implies has_id(old_db.tournament_entry, (#[trigger] ranked@[k]).id) by {
                        broadcast use vstd::seq_lib::group_to_multiset_ensures;
                        assert(ranked@.contains(ranked@[k]));
                        assert(ranked@.to_multiset().count(ranked@[k]) > 0);
                        assert(es.to_multiset().count(ranked@[k]) > 0);
                        assert(es.contains(ranked@[k]));
                        old_db.tournament_entry.lemma_filter_contains_rev(entry_filter(tournament_id, false), ranked@[k]);
                        let m = choose|m: int| 0 <= m < old_db.tournament_entry.len() && old_db.tournament_entry[m] == ranked@[k];
                        assert(old_db.tournament_entry[m].row_id() == ranked@[k].id);
                    }
                    assert forall|k: int| 0 <= k < ranked@.len() implies (#[trigger] ranked@[k]).tournament_id < old_db.next.tournament by {
                        broadcast use vstd::seq_lib::group_to_multiset_ensures;
                        assert(ranked@.contains(ranked@[k]));
                        assert(ranked@.to_multiset().count(ranked@[k]) > 0);
                        assert(es.to_multiset().count(ranked@[k]) > 0);
                        assert(es.contains(ranked@[k]));
                        old_db.tournament_entry.lemma_filter_contains_rev(entry_filter(tournament_id, false), ranked@[k]);
                        let m = choose|m: int| 0 <= m < old_db.tournament_entry.len() && old_db.tournament_entry[m] == ranked@[k];
                    }
                    assert forall|k: int| 0 <= k < ranked@.len() implies old_db.tournament_entry.contains(#[trigger] ranked@[k]) by {
                        broadcast use vstd::seq_lib::group_to_multiset_ensures;
                        assert(ranked@.contains(ranked@[k]));
                        assert(ranked@.to_multiset().count(ranked@[k]) > 0);
                        assert(es.to_multiset().count(ranked@[k]) > 0);
                        assert(es.contains(ranked@[k]));
                        old_db.tournament_entry.lemma_filter_contains_rev(entry_filter(tournament_id, false), ranked@[k]);
                    }
                }
                eliminate_from(db, &ranked, t.top_cut as usize);
                let ghost d1 = db@;
                let bracket = Tournament { status: TournamentStatus::Bracket, current_round: 0, ..t };
                proof {
                    lemma_replace_ids(db@.tournament, db@.next.tournament, bracket);
                }
                update_row(&mut db.tournament, bracket);
                proof {
                    assert(db@ == cut_to_bracket(old_db, t));
                    lemma_same_tournaments_count(old_db, d1, tournament_id);
                    assert(entry_count(db@, tournament_id) == entry_count(d1, tournament_id));
                    lemma_replace_ids(old_db.tournament, old_db.next.tournament, bracket);
                    let k = choose|k: int| 0 <= k < old_db.tournament.len() && (#[trigger] old_db.tournament[k]).row_id() == tournament_id;
                    assert(db@.tournament[k] == bracket);
                    assert(has_id(db@.tournament, tournament_id));
                    lemma_row_with_id_at(db@.tournament, k);
                }
                let r = start_bracket_round(ctx, db, rng, tournament_id);
                proof {
                    assert(bracket_round_outcome(cut_to_bracket(old_db, t), db@, ctx.timestamp, tournament_id, r));
                }
            }
        },
        TournamentStatus::Bracket => {
            let active = entries_of(db, tournament_id, true);
            if active.len() <= 1 {
                let ended = Tournament { status: TournamentStatus::Ended, ended_at: Some(ctx.timestamp), ..t };
                proof {
                    lemma_replace_ids(db@.tournament, db@.next.tournament, ended);
                }
                update_row(&mut db.tournament, ended);
            } else {
                let r = start_bracket_round(ctx, db, rng, tournament_id);
                proof {
                    assert(bracket_round_outcome(old_db, db@, ctx.timestamp, tournament_id, r));
                }
            }
        },
        _ => {},
    }
}

/// The entry of the bot in the tournament.
pub open spec fn entry_for(tournament_id: u64, bot: Identity) -> spec_fn(TournamentEntry) -> bool {
    |e: TournamentEntry| e.tournament_id == tournament_id && e.bot == bot
}

/// The first entry of the bot in the tournament, in table order.
fn find_entry(db: &Db, tournament_id: u64, bot: Identity) -> (r: Option<usize>)
    ensures
        match r {
            Some(j) => find_first(db@.tournament_entry, entry_for(tournament_id, bot)) == Some(j as int),
            None => find_first(db@.tournament_entry, entry_for(tournament_id, bot)) is None,
        },
{
    let n = db.tournament_entry.len();
    let mut i: usize = 0;
    while i < n
        invariant
            n == db@.tournament_entry.len(),
            i <= n,
            forall|k: int| 0 <= k < i ==> !entry_for(tournament_id, bot)(#[trigger] db@.tournament_entry[k]),
        decreases n - i,
    {
        let e = db.tournament_entry[i];
        if e.tournament_id == tournament_id && e.bot == bot {
            proof {
                assert(is_first(db@.tournament_entry, entry_for(tournament_id, bot), i as int));
                lemma_find_first_at(db@.tournament_entry, entry_for(tournament_id, bot), i as int);
            }
            return Some(i);
        }
        i = i + 1;
    }
    proof {
        lemma_find_first_none(db@.tournament_entry, entry_for(tournament_id, bot));
    }
    None
}

/// The bot's first entry in the tournament gains `points` Swiss points.
pub open spec fn award_step(entries: Seq<TournamentEntry>, tournament_id: u64, bot: Identity, points: int) -> Seq<TournamentEntry> {
    match find_first(entries, entry_for(tournament_id, bot)) {
        Some(j) => replace_by_id(entries, TournamentEntry { swiss_points: (entries[j].swiss_points + points) as i32, ..entries[j] }),
        None => entries,
    }
}

/// Swiss points for the first `k` placements of a match of `placed.len()`
/// bots: first place gains that many points, each next place one fewer.
pub open spec fn swiss_awards(entries: Seq<TournamentEntry>, tournament_id: u64, placed: Seq<MatchParticipant>, k: int) -> Seq<TournamentEntry>
    decreases k,
{
    if k <= 0 {
        entries
    } else {
        award_step(swiss_awards(entries, tournament_id, placed, k - 1), tournament_id, placed[k - 1].bot, placed.len() - (k - 1))
    }
}

/// The bot's first entry in the tournament is eliminated.
pub open spec fn eliminate_step(entries: Seq<TournamentEntry>, tournament_id: u64, bot: Identity) -> Seq<TournamentEntry> {
    match find_first(entries, entry_for(tournament_id, bot)) {
        Some(j) => replace_by_id(entries, TournamentEntry { eliminated: true, ..entries[j] }),
        None => entries,
    }
}

/// Bracket eliminations among the first `k` placements: the bottom half of
/// the match (all places from `placed.len() / 2` on) is eliminated.
pub open spec fn bracket_cuts(entries: Seq<TournamentEntry>, tournament_id: u64, placed: Seq<MatchParticipant>, k: int) -> Seq<TournamentEntry>
    decreases k,
{
    if k <= 0 {
        entries
    } else if k - 1 >= placed.len() / 2 {
        eliminate_step(bracket_cuts(entries, tournament_id, placed, k - 1), tournament_id, placed[k - 1].bot)
    } else {
        bracket_cuts(entries, tournament_id, placed, k - 1)
    }
}

/// Every match of the round and phase of the tournament has ended.
pub open spec fn round_done(db: DbView, tournament_id: u64, round: u32, phase: TournamentPhase) -> bool {
    forall|k: int| 0 <= k < db.tournament_match.len() && (#[trigger] db.tournament_match[k]).tournament_id == tournament_id
        && db.tournament_match[k].round == round && db.tournament_match[k].phase == phase
        ==> has_id(db.match_state, db.tournament_match[k].match_id)
            && row_with_id(db.match_state, db.tournament_match[k].match_id).status == MatchStatus::Ended
}

pub open spec fn links_match(match_id: u64) -> spec_fn(TournamentMatch) -> bool {
    |m: TournamentMatch| m.match_id == match_id
}

/// The number of participant rows of a match.
pub open spec fn match_size_of(db: DbView, match_id: u64) -> int {
    db.match_participant.filter(in_match(match_id)).len() as int
}

/// Swiss points for the end of the match can be awarded without overflow:
/// every entry of a tournament the match belongs to stays within `i32`
/// after gaining, place by place, at most the square of the match's
/// participant count (the count itself when no bot takes part twice).
pub open spec fn points_room(db: DbView, match_id: u64) -> bool {
    let n = match_size_of(db, match_id);
    &&& n < 0x8000_0000
    &&& forall|j: int, k: int| #![trigger db.tournament_match[j], db.tournament_entry[k]]
        0 <= j < db.tournament_match.len() && db.tournament_match[j].match_id == match_id
        && 0 <= k < db.tournament_entry.len() && db.tournament_entry[k].tournament_id == db.tournament_match[j].tournament_id
        ==> db.tournament_entry[k].swiss_points + n * n <= i32::MAX
}

/// Each tournament the match belongs to has room for a round.
pub open spec fn match_round_room(db: DbView, match_id: u64, at: Timestamp) -> bool {
    forall|j: int| 0 <= j < db.tournament_match.len() && (#[trigger] db.tournament_match[j]).match_id == match_id
        ==> round_room(db, db.tournament_match[j].tournament_id, at)
}

/// The entries keep their tournaments, position by position.
pub open spec fn same_tournaments(a: Seq<TournamentEntry>, b: Seq<TournamentEntry>) -> bool {
    &&& a.len() == b.len()
    &&& forall|k: int| 0 <= k < a.len() ==> (#[trigger] b[k]).tournament_id == a[k].tournament_id
}

proof fn lemma_same_tournaments_count(a: DbView, b: DbView, tournament_id: u64)
    requires
        same_tournaments(a.tournament_entry, b.tournament_entry),
    ensures
        entry_count(a, tournament_id) == entry_count(b, tournament_id),
{
    lemma_filter_len_same(a.tournament_entry, b.tournament_entry, entry_filter(tournament_id, false));
}

/// Every tournament's round counter can still advance.
pub open spec fn rounds_can_advance(db: DbView) -> bool {
    forall|k: int| 0 <= k < db.tournament.len() ==> (#[trigger] db.tournament[k]).current_round < u32::MAX
}

/// What the end of a match does to the tournament it belongs to, if any:
/// its participants are placed by score (ties in table order); in a Swiss
/// round each gains Swiss points by place, in a bracket round the bottom
/// half is eliminated; when that completes the round, the tournament moves
/// on.
pub open spec fn match_ended_outcome(old_db: DbView, new_db: DbView, at: Timestamp, match_id: u64) -> bool {
    match find_first(old_db.tournament_match, links_match(match_id)) {
        None => new_db == old_db,
        Some(i) => {
            let tm = old_db.tournament_match[i];
            if !has_id(old_db.tournament, tm.tournament_id) {
                new_db == old_db
            } else {
                let placed = sort_ranked(old_db.match_participant.filter(in_match(match_id)));
                let entries = match tm.phase {
                    TournamentPhase::Swiss => swiss_awards(old_db.tournament_entry, tm.tournament_id, placed, placed.len() as int),
                    TournamentPhase::Bracket => bracket_cuts(old_db.tournament_entry, tm.tournament_id, placed, placed.len() as int),
                };
                let d1 = DbView { tournament_entry: entries, ..old_db };
                if round_done(d1, tm.tournament_id, tm.round, tm.phase) {
                    advance_outcome(d1, new_db, at, tm.tournament_id)
                } else {
                    new_db == d1
                }
            }
        },
    }
}

fn find_link(db: &Db, match_id: u64) -> (r: Option<usize>)
    ensures
        match r {
            Some(j) => find_first(db@.tournament_match, links_match(match_id)) == Some(j as int),
            None => find_first(db@.tournament_match, links_match(match_id)) is None,
        },
{
    let n = db.tournament_match.len();
    let mut i: usize = 0;
    while i < n
        invariant
            n == db@.tournament_match.len(),
            i <= n,
            forall|k: int| 0 <= k < i ==> !links_match(match_id)(#[trigger] db@.tournament_match[k]),
        decreases n - i,
    {
        if db.tournament_match[i].match_id == match_id {
            proof {
                assert(is_first(db@.tournament_match, links_match(match_id), i as int));
                lemma_find_first_at(db@.tournament_match, links_match(match_id), i as int);
            }
            return Some(i);
        }
        i = i + 1;
    }
    proof {
        lemma_find_first_none(db@.tournament_match, links_match(match_id));
    }
    None
}

/// Whether every match of the round and phase of the tournament has ended.
fn is_round_done(db: &Db, tournament_id: u64, round: u32, phase: TournamentPhase) -> (b: bool)
    requires
        db@.wf(),
    ensures
        b == round_done(db@, tournament_id, round, phase),
{
    let n = db.tournament_match.len();
    let mut i: usize = 0;
    while i < n
        invariant
            n == db@.tournament_match.len(),
            i <= n,
            db@.wf(),
            forall|k: int| 0 <= k < i && (#[trigger] db@.tournament_match[k]).tournament_id == tournament_id
                && db@.tournament_match[k].round == round && db@.tournament_match[k].phase == phase
                ==> has_id(db@.match_state, db@.tournament_match[k].match_id)
                    && row_with_id(db@.match_state, db@.tournament_match[k].match_id).status == MatchStatus::Ended,
        decreases n - i,
    {
        let m = db.tournament_match[i];
        if m.tournament_id == tournament_id && m.round == round && m.phase == phase {
            match find_index(&db.match_state, m.match_id) {
                Some(mi) => {
                    proof {
                        lemma_row_with_id_at(db@.match_state, mi as int);
                    }
                    if db.match_state[mi].status != MatchStatus::Ended {
                        return false;
                    }
                },
                None => {
                    return false;
                },
            }
        }
        i = i + 1;
    }
    true
}

/// Applies the Swiss points of a finished match to the tournament's entries.
fn award_swiss_points(db: &mut Db, tournament_id: u64, placed: &Vec<MatchParticipant>)
    requires
        old(db)@.wf(),
        placed@.len() < 0x8000_0000,
        forall|k: int| 0 <= k < old(db)@.tournament_entry.len() && (#[trigger] old(db)@.tournament_entry[k]).tournament_id == tournament_id
            ==> old(db)@.tournament_entry[k].swiss_points + placed@.len() * placed@.len() <= i32::MAX,
    ensures
        final(db)@ == (DbView { tournament_entry: swiss_awards(old(db)@.tournament_entry, tournament_id, placed@, placed@.len() as int), ..old(db)@ }),
        same_tournaments(old(db)@.tournament_entry, final(db)@.tournament_entry),
        final(db)@.wf(),
{
    let ghost old_db = db@;
    let ghost te0 = db@.tournament_entry;
    let n = placed.len();
    let mut idx: usize = 0;
    while idx < n
        invariant
            idx <= n,
            n == placed@.len(),
            n < 0x8000_0000,
            old_db == old(db)@,
            te0 == old_db.tournament_entry,
            forall|k: int| 0 <= k < te0.len() && (#[trigger] te0[k]).tournament_id == tournament_id
                ==> te0[k].swiss_points + n * n <= i32::MAX,
            db@ == (DbView { tournament_entry: swiss_awards(te0, tournament_id, placed@, idx as int), ..old_db }),
            same_tournaments(te0, db@.tournament_entry),
            forall|k: int| 0 <= k < te0.len() ==> (#[trigger] db@.tournament_entry[k]).id == te0[k].id,
            forall|k: int| 0 <= k < te0.len() ==> (#[trigger] db@.tournament_entry[k]).swiss_points <= te0[k].swiss_points + idx * n,
            db@.wf(),
        decreases n - idx,
    {
        let p = placed[idx];
        let pts: i32 = (n - idx) as i32;
        let ghost cur = db@.tournament_entry;
        match find_entry(db, tournament_id, p.bot) {
            Some(j) => {
                let e = db.tournament_entry[j];
                proof {
                    assert(idx * n + n <= n * n) by (nonlinear_arith)
                        requires
                            idx < n,
                    ;
                    lemma_find_first_some(cur, entry_for(tournament_id, p.bot), j as int);
                    assert(e.tournament_id == tournament_id);
                    assert(te0[j as int].tournament_id == tournament_id);
                    assert(e.swiss_points <= te0[j as int].swiss_points + idx * n);
                    assert(pts == n - idx);
                    assert(e.swiss_points + (n - idx) <= i32::MAX);
                }
                let row = TournamentEntry { swiss_points: e.swiss_points + pts, ..e };
                proof {
                    lemma_row_with_id_at(cur, j as int);
                    lemma_replace_ids(cur, db@.next.tournament_entry, row);
                }
                update_row(&mut db.tournament_entry, row);
                proof {
                    assert((idx + 1) * n == idx * n + n) by (nonlinear_arith);
                    assert forall|k: int| 0 <= k < te0.len() implies (#[trigger] db@.tournament_entry[k]).swiss_points <= te0[k].swiss_points + (idx + 1) * n
                        && db@.tournament_entry[k].tournament_id == te0[k].tournament_id by {
                        if k != j {
                            assert(cur[k].row_id() != row.row_id()) by {
                                if k < j { assert(cur[k].row_id() != cur[j as int].row_id()); } else { assert(cur[j as int].row_id() != cur[k].row_id()); }
                            }
                            assert(db@.tournament_entry[k] == cur[k]);
                            assert(idx * n <= (idx + 1) * n);
                        }
                    }
                }
            },
            None => {
                proof {
                    assert((idx + 1) * n == idx * n + n) by (nonlinear_arith);
                }
            },
        }
        proof {
            assert(swiss_awards(te0, tournament_id, placed@, idx + 1) == award_step(cur, tournament_id, p.bot, n - idx));
        }
        idx = idx + 1;
    }
}

/// Eliminates the bottom half of a finished bracket match.
fn cut_bracket_losers(db: &mut Db, tournament_id: u64, placed: &Vec<MatchParticipant>)
    requires
        old(db)@.wf(),
    ensures
        final(db)@ == (DbView { tournament_entry: bracket_cuts(old(db)@.tournament_entry, tournament_id, placed@, placed@.len() as int), ..old(db)@ }),
        same_tournaments(old(db)@.tournament_entry, final(db)@.tournament_entry),
        final(db)@.wf(),
{
    let ghost old_db = db@;
    let ghost te0 = db@.tournament_entry;
    let n = placed.len();
    let cutoff = n / 2;
    let mut idx: usize = 0;
    while idx < n
        invariant
            idx <= n,
            n == placed@.len(),
            cutoff == n / 2,
            old_db == old(db)@,
            te0 == old_db.tournament_entry,
            db@ == (DbView { tournament_entry: bracket_cuts(te0, tournament_id, placed@, idx as int), ..old_db }),
            same_tournaments(te0, db@.tournament_entry),
            db@.wf(),
        decreases n - idx,
    {
        let ghost cur = db@.tournament_entry;
        if idx >= cutoff {
            let p = placed[idx];
            match find_entry(db, tournament_id, p.bot) {
                Some(j) => {
                    let e = db.tournament_entry[j];
                    let row = TournamentEntry { eliminated: true, ..e };
                    proof {
                        lemma_row_with_id_at(cur, j as int);
                        lemma_replace_ids(cur, db@.next.tournament_entry, row);
                    }
                    update_row(&mut db.tournament_entry, row);
                    proof {
                        assert forall|k: int| 0 <= k < te0.len() implies (#[trigger] db@.tournament_entry[k]).tournament_id == te0[k].tournament_id by {
                            if k != j {
                                assert(cur[k].row_id() != row.row_id()) by {
                                    if k < j { assert(cur[k].row_id() != cur[j as int].row_id()); } else { assert(cur[j as int].row_id() != cur[k].row_id()); }
                                }
                            }
                        }
                    }
                },
                None => {},
            }
        }
        idx = idx + 1;
    }
}

/// Settles the tournament side of a match that has just ended.
pub fn on_match_ended(ctx: &ReducerContext, db: &mut Db, rng: &mut StdRng, match_id: u64)
    requires
        old(db)@.wf(),
        match_round_room(old(db)@, match_id, ctx.timestamp),
        rounds_can_advance(old(db)@),
        points_room(old(db)@, match_id),
    ensures
        match_ended_outcome(old(db)@, final(db)@, ctx.timestamp, match_id),
        final(db)@.wf(),
{
    let ghost old_db = db@;
    let li = match find_link(db, match_id) {
        Some(li) => li,
        None => {
            return;
        },
    };
    let tm = db.tournament_match[li];
    let ti = match find_index(&db.tournament, tm.tournament_id) {
        Some(ti) => ti,
        None => {
            return;
        },
    };
    let t = db.tournament[ti];
    proof {
        lemma_row_with_id_at(db@.tournament, ti as int);
    }
    let participants = participants_of(db, match_id);
    let placed = stable_sort(participants);
    proof {
        lemma_sort_ranked_multiset(old_db.match_participant.filter(in_match(match_id)));
        assert(old_db.tournament_match[li as int].match_id == match_id) by {
            lemma_find_first_some(old_db.tournament_match, links_match(match_id), li as int);
        }
        assert(placed@.len() == match_size_of(old_db, match_id));
        assert forall|k: int| 0 <= k < old_db.tournament_entry.len() && (#[trigger] old_db.tournament_entry[k]).tournament_id == t.id
            implies old_db.tournament_entry[k].swiss_points + placed@.len() * placed@.len() <= i32::MAX by {
            assert(old_db.tournament_match[li as int].tournament_id == t.id);
            assert(old_db.tournament_match[li as int] == tm);
        }
        assert(round_room(old_db, t.id, ctx.timestamp)) by {
            assert(old_db.tournament_match[li as int] == tm);
        }
    }
    match tm.phase {
        TournamentPhase::Swiss => {
            award_swiss_points(db, t.id, &placed);
        },
        TournamentPhase::Bracket => {
            cut_bracket_losers(db, t.id, &placed);
        },
    }
    let ghost d1 = db@;
    if !is_round_done(db, t.id, tm.round, tm.phase) {
        return;
    }
    proof {
        lemma_same_tournaments_count(old_db, d1, t.id);
        assert(round_room(d1, t.id, ctx.timestamp));
        assert(round_can_advance(d1, t.id)) by {
            let k = choose|k: int| 0 <= k < d1.tournament.len() && (#[trigger] d1.tournament[k]).row_id() == t.id;
            lemma_row_with_id_at(d1.tournament, k);
        }
    }
    advance_tournament(ctx, db, rng, t.id);
}

/// The entries of every bot in a new tournament, with ids from `start`.
pub open spec fn new_entries(bots: Seq<Bot>, tournament_id: u64, start: u64) -> Seq<TournamentEntry> {
    Seq::new(bots.len(), |i: int| TournamentEntry {
        id: (start + i) as u64,
        tournament_id,
        bot: bots[i].identity,
        swiss_points: 0,
        eliminated: false,
    })
}

/// The tables with a new tournament in its Swiss phase, before its first
/// round, and an entry for every registered bot.
pub open spec fn registered(db: DbView, at: Timestamp, swiss_rounds_total: u32, top_cut: u32, match_size: u32, auction_type: AuctionType) -> DbView {
    let tid = db.next.tournament;
    DbView {
        tournament: db.tournament.push(Tournament {
            id: tid,
            status: TournamentStatus::Swiss,
            swiss_rounds_total,
            current_round: 0,
            top_cut,
            match_size,
            auction_type,
            created_at: at,
            ended_at: None,
        }),
        tournament_entry: db.tournament_entry + new_entries(db.bot, tid, db.next.tournament_entry),
        next: Sequences {
            tournament: (tid + 1) as u64,
            tournament_entry: (db.next.tournament_entry + db.bot.len()) as u64,
            ..db.next
        },
        ..db
    }
}

/// Starting a tournament: refused with bad settings, too few bots or an odd
/// number of them; otherwise it is created with all registered bots, and its
/// first Swiss round starts (which never fails).
pub open spec fn tournament_start_outcome(
    old_db: DbView,
    new_db: DbView,
    at: Timestamp,
    swiss_rounds_total: u32,
    top_cut: u32,
    match_size: u32,
    auction_type: AuctionType,
    r: Result<(), GameError>,
) -> bool {
    if match_size < 2 {
        r == Err::<(), GameError>(GameError::TournamentMatchSize) && new_db == old_db
    } else if swiss_rounds_total < 1 {
        r == Err::<(), GameError>(GameError::NoSwissRounds) && new_db == old_db
    } else if top_cut < 2 {
        r == Err::<(), GameError>(GameError::TopCutTooSmall) && new_db == old_db
    } else if old_db.bot.len() < match_size {
        r == Err::<(), GameError>(GameError::NotEnoughBots(match_size)) && new_db == old_db
    } else if old_db.bot.len() % 2 == 1 {
        r == Err::<(), GameError>(GameError::OddBotCount) && new_db == old_db
    } else {
        r is Ok
            && swiss_round_outcome(registered(old_db, at, swiss_rounds_total, top_cut, match_size, auction_type), new_db, at, old_db.next.tournament, 1, r)
    }
}

/// The room that starting a tournament needs.
pub open spec fn tournament_room(db: DbView, at: Timestamp) -> bool {
    &&& db.next.tournament < u64::MAX
    &&& db.next.tournament_entry + db.bot.len() < u64::MAX
    &&& pair_room(db, db.bot.len() as int, at)
}

/// Starts a tournament among all registered bots.
pub fn start_tournament(
    ctx: &ReducerContext,
    db: &mut Db,
    rng: &mut StdRng,
    swiss_rounds_total: u32,
    top_cut: u32,
    match_size: u32,
    auction_type: AuctionType,
) -> (r: Result<(), GameError>)
    requires
        old(db)@.wf(),
        tournament_room(old(db)@, ctx.timestamp),
    ensures
        tournament_start_outcome(old(db)@, final(db)@, ctx.timestamp, swiss_rounds_total, top_cut, match_size, auction_type, r),
        final(db)@.wf(),
{
    if match_size < 2 {
        return Err(GameError::TournamentMatchSize);
    }
    if swiss_rounds_total < 1 {
        return Err(GameError::NoSwissRounds);
    }
    if top_cut < 2 {
        return Err(GameError::TopCutTooSmall);
    }
    let bots = all_bot_identities(db);
    if bots.len() < match_size as usize {
        return Err(GameError::NotEnoughBots(match_size));
    }
    if bots.len() % 2 == 1 {
        return Err(GameError::OddBotCount);
    }
    let ghost old_db = db@;
    let row = Tournament {
        id: 0,
        status: TournamentStatus::Swiss,
        swiss_rounds_total,
        current_round: 0,
        top_cut,
        match_size,
        auction_type,
        created_at: ctx.timestamp,
        ended_at: None,
    };
    proof {
        lemma_insert_ids(db@.tournament, db@.next.tournament, row);
    }
    let tid = insert_row(&mut db.tournament, &mut db.next.tournament, row);
    let n = bots.len();
    let mut i: usize = 0;
    let ghost te0 = db@.tournament_entry;
    let ghost start = db@.next.tournament_entry;
    let ghost d1 = db@;
    while i < n
        invariant
            i <= n,
            n == bots@.len(),
            bots@ == bot_identities(old_db.bot),
            old_db.wf(),
            tournament_room(old_db, ctx.timestamp),
            tid == old_db.next.tournament,
            start == old_db.next.tournament_entry,
            te0 == old_db.tournament_entry,
            db@ == (DbView {
                tournament_entry: te0 + new_entries(old_db.bot, tid, start).take(i as int),
                next: Sequences { tournament_entry: (start + i) as u64, ..d1.next },
                ..d1
            }),
            d1.next == (Sequences { tournament: (tid + 1) as u64, ..old_db.next }),
            d1.tournament == old_db.tournament.push(row.with_id(tid)),
            d1 == (DbView { tournament: d1.tournament, next: d1.next, ..old_db }),
            db@.wf(),
        decreases n - i,
    {
        let entry = TournamentEntry { id: 0, tournament_id: tid, bot: bots[i], swiss_points: 0, eliminated: false };
        proof {
            lemma_insert_ids(db@.tournament_entry, db@.next.tournament_entry, entry);
        }
        insert_row(&mut db.tournament_entry, &mut db.next.tournament_entry, entry);
        proof {
            assert(te0 + new_entries(old_db.bot, tid, start).take(i + 1) =~= (te0 + new_entries(old_db.bot, tid, start).take(i as int)).push(entry.with_id((start + i) as u64)));
        }
        i = i + 1;
    }
    proof {
        assert(new_entries(old_db.bot, tid, start).take(n as int) =~= new_entries(old_db.bot, tid, start));
        let reg = registered(old_db, ctx.timestamp, swiss_rounds_total, top_cut, match_size, auction_type);
        assert(db@ == reg);
        assert(has_id(db@.tournament, tid)) by {
            assert(db@.tournament[old_db.tournament.len() as int].row_id() == tid);
        }
        lemma_row_with_id_at(db@.tournament, old_db.tournament.len() as int);
        let fresh = new_entries(old_db.bot, tid, start);
        assert(db@.tournament_entry == te0 + fresh);
        Seq::filter_distributes_over_add(te0, fresh, entry_filter(tid, false));
        assert forall|k: int| 0 <= k < te0.len() implies entry_filter(tid, false)(#[trigger] te0[k]) == false by {
            assert(te0[k].tournament_id < old_db.next.tournament);
        }
        lemma_filter_all_or_none(te0, entry_filter(tid, false), false);
        assert forall|k: int| 0 <= k < fresh.len() implies entry_filter(tid, false)(#[trigger] fresh[k]) == true by {
        }
        lemma_filter_all_or_none(fresh, entry_filter(tid, false), true);
        assert(entry_count(db@, tid) == old_db.bot.len());
        assert forall|k: int| 0 <= k < db@.tournament_entry.len() && (#[trigger] db@.tournament_entry[k]).tournament_id == tid implies has_bot(db@.bot, db@.tournament_entry[k].bot) by {
            if k < te0.len() {
                assert(te0[k].tournament_id < old_db.next.tournament);
            } else {
                let q = k - te0.len();
                assert(db@.tournament_entry[k] == new_entries(old_db.bot, tid, start)[q]);
                assert(old_db.bot[q].identity == db@.tournament_entry[k].bot);
            }
        }
    }
    start_swiss_round(ctx, db, rng, tid, 1)
}

proof fn lemma_eliminate_all(entries: Seq<TournamentEntry>, rows: Seq<TournamentEntry>)
    ensures
        eliminate_all(entries, rows).len() == entries.len(),
        forall|i: int| 0 <= i < entries.len() ==> (#[trigger] eliminate_all(entries, rows)[i]).id == entries[i].id,
        forall|i: int, q: int| #![trigger eliminate_all(entries, rows)[i], rows[q]]
            0 <= i < entries.len() && 0 <= q < rows.len() && rows[q].id == entries[i].id
            ==> eliminate_all(entries, rows)[i].eliminated,
        forall|i: int| 0 <= i < entries.len() && !(#[trigger] eliminate_all(entries, rows)[i]).eliminated
            ==> eliminate_all(entries, rows)[i] == entries[i],
    decreases rows.len(),
{
    if rows.len() > 0 {
        let prev = rows.drop_last();
        lemma_eliminate_all(entries, prev);
        let before = eliminate_all(entries, prev);
        let row = TournamentEntry { eliminated: true, ..rows.last() };
        let after = eliminate_all(entries, rows);
        assert(after == replace_by_id(before, row));
        assert forall|i: int, q: int| #![trigger eliminate_all(entries, rows)[i], rows[q]]
            0 <= i < entries.len() && 0 <= q < rows.len() && rows[q].id == entries[i].id
            implies eliminate_all(entries, rows)[i].eliminated by {
            if q < rows.len() - 1 {
                assert(prev[q] == rows[q]);
                assert(before[i].eliminated);
            }
        }
    }
}

/// The end of the Swiss phase eliminates exactly the tournament's entries
/// ranked below the top cut by Swiss points: each of them is eliminated,
/// and every entry left in play is as it was.
pub proof fn lemma_cut_keeps_top(db: DbView, t: Tournament)
    ensures
        cut_to_bracket(db, t).tournament_entry.len() == db.tournament_entry.len(),
        forall|i: int| 0 <= i < db.tournament_entry.len() ==> (#[trigger] cut_to_bracket(db, t).tournament_entry[i]).id == db.tournament_entry[i].id,
        forall|r: int, i: int| #![trigger sort_ranked(db.tournament_entry.filter(entry_filter(t.id, false)))[r], db.tournament_entry[i]]
            t.top_cut <= r < sort_ranked(db.tournament_entry.filter(entry_filter(t.id, false))).len()
            && 0 <= i < db.tournament_entry.len()
            && db.tournament_entry[i].id == sort_ranked(db.tournament_entry.filter(entry_filter(t.id, false)))[r].id
            ==> cut_to_bracket(db, t).tournament_entry[i].eliminated,
        forall|i: int| 0 <= i < db.tournament_entry.len() && !(#[trigger] cut_to_bracket(db, t).tournament_entry[i]).eliminated
            ==> cut_to_bracket(db, t).tournament_entry[i] == db.tournament_entry[i],
{
    let ranked = sort_ranked(db.tournament_entry.filter(entry_filter(t.id, false)));
    let tail = ranks_from(ranked, t.top_cut as int);
    lemma_eliminate_all(db.tournament_entry, tail);
    assert forall|r: int, i: int| #![trigger ranked[r], db.tournament_entry[i]]
        t.top_cut <= r < ranked.len() && 0 <= i < db.tournament_entry.len() && db.tournament_entry[i].id == ranked[r].id
        implies cut_to_bracket(db, t).tournament_entry[i].eliminated by {
        let q = r - t.top_cut;
        assert(tail[q] == ranked[r]);
        assert(eliminate_all(db.tournament_entry, tail)[i].eliminated);
    }
}

/// The bot is placed in the bottom half of the match, among the first `k`
/// places.
pub open spec fn placed_low(placed: Seq<MatchParticipant>, bot: Identity, k: int) -> bool {
    exists|q: int| placed.len() / 2 <= q < k && q < placed.len() && (#[trigger] placed[q]).bot == bot
}

/// Entry `i` is the bot's entry in the tournament (its first one).
pub open spec fn is_entry_of_bot(entries: Seq<TournamentEntry>, tournament_id: u64, i: int) -> bool {
    &&& entries[i].tournament_id == tournament_id
    &&& find_first(entries, entry_for(tournament_id, entries[i].bot)) == Some(i)
}

proof fn lemma_bracket_cuts_upto(entries: Seq<TournamentEntry>, tournament_id: u64, placed: Seq<MatchParticipant>, k: int)
    requires
        0 <= k <= placed.len(),
        forall|a: int, b: int| #![trigger entries[a], entries[b]] 0 <= a < b < entries.len() ==> entries[a].id != entries[b].id,
    ensures
        bracket_cuts(entries, tournament_id, placed, k).len() == entries.len(),
        forall|i: int| 0 <= i < entries.len() ==> #[trigger] bracket_cuts(entries, tournament_id, placed, k)[i] == (
            if is_entry_of_bot(entries, tournament_id, i) && placed_low(placed, entries[i].bot, k) {
                TournamentEntry { eliminated: true, ..entries[i] }
            } else {
                entries[i]
            }),
    decreases k,
{
    if k > 0 {
        lemma_bracket_cuts_upto(entries, tournament_id, placed, k - 1);
        let prev = bracket_cuts(entries, tournament_id, placed, k - 1);
        let bot = placed[k - 1].bot;
        assert forall|i: int| 0 <= i < entries.len() && !(k - 1 >= placed.len() / 2 && entries[i].bot == bot)
            implies (placed_low(placed, entries[i].bot, k) == placed_low(placed, entries[i].bot, k - 1)) by {
            if placed_low(placed, entries[i].bot, k) {
                let q = choose|q: int| placed.len() / 2 <= q < k && q < placed.len() && (#[trigger] placed[q]).bot == entries[i].bot;
                if q < k - 1 {
                    assert(placed_low(placed, entries[i].bot, k - 1));
                }
            }
        }
        if k - 1 >= placed.len() / 2 {
            let p = entry_for(tournament_id, bot);
            assert forall|j: int| 0 <= j < entries.len() implies p(#[trigger] prev[j]) == p(entries[j]) by {
            }
            lemma_find_first_same(prev, entries, p);
            assert forall|i: int| 0 <= i < entries.len() && entries[i].bot == bot
                implies placed_low(placed, entries[i].bot, k) by {
                assert(placed[k - 1].bot == entries[i].bot);
            }
            match find_first(entries, p) {
                Some(j) => {
                    lemma_find_first_some(entries, p, j);
                    let row = TournamentEntry { eliminated: true, ..prev[j] };
                    assert forall|i: int| 0 <= i < entries.len() implies #[trigger] replace_by_id(prev, row)[i] == (
                        if is_entry_of_bot(entries, tournament_id, i) && placed_low(placed, entries[i].bot, k) {
                            TournamentEntry { eliminated: true, ..entries[i] }
                        } else {
                            entries[i]
                        }) by {
                        if i == j {
                            assert(is_entry_of_bot(entries, tournament_id, i));
                        } else {
                            assert(prev[i].id != row.id) by {
                                if i < j { assert(entries[i].id != entries[j].id); } else { assert(entries[j].id != entries[i].id); }
                            }
                            if entries[i].bot == bot && entries[i].tournament_id == tournament_id {
                                assert(!is_entry_of_bot(entries, tournament_id, i));
                            }
                        }
                    }
                    assert(bracket_cuts(entries, tournament_id, placed, k) =~= replace_by_id(prev, row));
                },
                None => {
                    assert forall|i: int| 0 <= i < entries.len() implies #[trigger] prev[i] == (
                        if is_entry_of_bot(entries, tournament_id, i) && placed_low(placed, entries[i].bot, k) {
                            TournamentEntry { eliminated: true, ..entries[i] }
                        } else {
                            entries[i]
                        }) by {
                        if entries[i].bot == bot && is_entry_of_bot(entries, tournament_id, i) {
                            assert(false);
                        }
                    }
                    assert(bracket_cuts(entries, tournament_id, placed, k) =~= prev);
                },
            }
        } else {
            assert forall|i: int| 0 <= i < entries.len() implies !placed_low(placed, entries[i].bot, k) || placed_low(placed, entries[i].bot, k - 1) by {
                if placed_low(placed, entries[i].bot, k) {
                    let q = choose|q: int| placed.len() / 2 <= q < k && q < placed.len() && (#[trigger] placed[q]).bot == entries[i].bot;
                    assert(q < k - 1);
                }
            }
        }
    }
}

/// A bracket match eliminates exactly its bottom half: after the cuts for
/// a match placed in order `placed`, the tournament entry of each bot placed
/// at or after position `placed.len() / 2` is eliminated, and every other
/// entry (those of the top half above all) is left as it was.
pub proof fn lemma_bracket_cuts_bottom_half(entries: Seq<TournamentEntry>, tournament_id: u64, placed: Seq<MatchParticipant>)
    requires
        forall|a: int, b: int| #![trigger entries[a], entries[b]] 0 <= a < b < entries.len() ==> entries[a].id != entries[b].id,
    ensures
        bracket_cuts(entries, tournament_id, placed, placed.len() as int).len() == entries.len(),
        forall|i: int| 0 <= i < entries.len() ==> #[trigger] bracket_cuts(entries, tournament_id, placed, placed.len() as int)[i] == (
            if is_entry_of_bot(entries, tournament_id, i)
                && exists|q: int| placed.len() / 2 <= q < placed.len() && (#[trigger] placed[q]).bot == entries[i].bot {
                TournamentEntry { eliminated: true, ..entries[i] }
            } else {
                entries[i]
            }),
{
    lemma_bracket_cuts_upto(entries, tournament_id, placed, placed.len() as int);
}

} // verus!
