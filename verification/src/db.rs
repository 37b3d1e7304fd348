//! The game's tables, held in memory, with the table operations the rules
//! use: insert with a fresh id, find, update and delete by primary key.
use vstd::prelude::*;
use crate::types::{
    Bot, Match, MatchParticipant, BagLetter, Holding, Auction, PendingBid, AuctionResult, WordPlay,
    AuctionSchedule, BotStats, MatchmakerConfig, MatchmakerSchedule, Tournament, TournamentEntry,
    TournamentMatch,
};

verus! {

/// A row whose primary key is an auto-incremented `u64` id.
pub trait Row: Sized {
    spec fn row_id(&self) -> u64;

    /// The same row under another id.
    spec fn with_id(self, id: u64) -> Self;

    fn get_id(&self) -> (r: u64)
        ensures
            r == self.row_id(),
    ;

    fn set_id(&mut self, id: u64)
        ensures
            *final(self) == old(self).with_id(id),
    ;

    proof fn lemma_with_id(self, id: u64)
        ensures
            self.with_id(id).row_id() == id,
    ;
}

/// Ids are pairwise distinct and below the next id to hand out.
pub open spec fn ids_ok<R: Row>(s: Seq<R>, next: u64) -> bool {
    &&& forall|i: int| 0 <= i < s.len() ==> (#[trigger] s[i]).row_id() < next
    &&& forall|i: int, j: int| #![trigger s[i], s[j]] 0 <= i < j < s.len() ==> s[i].row_id() != s[j].row_id()
}

pub open spec fn has_id<R: Row>(s: Seq<R>, id: u64) -> bool {
    exists|i: int| 0 <= i < s.len() && (#[trigger] s[i]).row_id() == id
}

/// The row with the given id.
pub open spec fn row_with_id<R: Row>(s: Seq<R>, id: u64) -> R {
    s[choose|i: int| 0 <= i < s.len() && (#[trigger] s[i]).row_id() == id]
}

/// The rows with the row of the same id as `row` replaced by `row`.
pub open spec fn replace_by_id<R: Row>(s: Seq<R>, row: R) -> Seq<R> {
    s.map_values(|r: R| if r.row_id() == row.row_id() { row } else { r })
}

pub open spec fn id_differs<R: Row>(id: u64) -> spec_fn(R) -> bool {
    |r: R| r.row_id() != id
}

/// The rows without the row of the given id.
pub open spec fn remove_by_id<R: Row>(s: Seq<R>, id: u64) -> Seq<R> {
    s.filter(id_differs(id))
}

/// Appends `row` under the next id, and advances the next id.
pub fn insert_row<R: Row>(rows: &mut Vec<R>, next: &mut u64, row: R) -> (id: u64)
    requires
        *old(next) < u64::MAX,
    ensures
        id == *old(next),
        *final(next) == *old(next) + 1,
        final(rows)@ == old(rows)@.push(row.with_id(id)),
{
    let id = *next;
    let mut row = row;
    row.set_id(id);
    rows.push(row);
    *next = id + 1;
    id
}

/// Inserting under the next id keeps ids distinct and below the next id.
pub proof fn lemma_insert_ids<R: Row>(s: Seq<R>, next: u64, row: R)
    requires
        ids_ok(s, next),
        next < u64::MAX,
    ensures
        ids_ok(s.push(row.with_id(next)), (next + 1) as u64),
        row_with_id(s.push(row.with_id(next)), next) == row.with_id(next),
        has_id(s.push(row.with_id(next)), next),
        forall|id: u64| has_id(s, id) ==> has_id(s.push(row.with_id(next)), id) && row_with_id(s.push(row.with_id(next)), id) == row_with_id(s, id),
{
    row.lemma_with_id(next);
    let t = s.push(row.with_id(next));
    assert(t[s.len() as int] == row.with_id(next));
    assert forall|i: int, j: int| #![trigger t[i], t[j]] 0 <= i < j < t.len() implies t[i].row_id() != t[j].row_id() by {
        if j < s.len() {
            assert(t[i] == s[i] && t[j] == s[j]);
        } else {
            assert(t[i] == s[i]);
        }
    }
    assert(has_id(t, next)) by {
        assert(t[s.len() as int].row_id() == next);
    }
    lemma_row_with_id_at(t, s.len() as int);
    assert forall|id: u64| has_id(s, id) implies has_id(t, id) && row_with_id(t, id) == row_with_id(s, id) by {
        let i = choose|i: int| 0 <= i < s.len() && (#[trigger] s[i]).row_id() == id;
        assert(t[i] == s[i]);
        lemma_row_with_id_at(t, i);
        lemma_row_with_id_at(s, i);
    }
}

/// With distinct ids, the row with an id is the one at its index.
pub proof fn lemma_row_with_id_at<R: Row>(s: Seq<R>, i: int)
    requires
        0 <= i < s.len(),
        forall|a: int, b: int| #![trigger s[a], s[b]] 0 <= a < b < s.len() ==> s[a].row_id() != s[b].row_id(),
    ensures
        has_id(s, s[i].row_id()),
        row_with_id(s, s[i].row_id()) == s[i],
{
    let id = s[i].row_id();
    let k = choose|k: int| 0 <= k < s.len() && (#[trigger] s[k]).row_id() == id;
    if k != i {
        if k < i {
            assert(s[k].row_id() != s[i].row_id());
        } else {
            assert(s[i].row_id() != s[k].row_id());
        }
    }
}

/// The index of the row with the given id, if any.
pub fn find_index<R: Row>(rows: &Vec<R>, id: u64) -> (r: Option<usize>)
    ensures
        match r {
            Some(i) => i < rows@.len() && rows@[i as int].row_id() == id && forall|j: int|
                0 <= j < i ==> (#[trigger] rows@[j]).row_id() != id,
            None => !has_id(rows@, id),
        },
{
    let n = rows.len();
    let mut i: usize = 0;
    while i < n
        invariant
            n == rows@.len(),
            i <= n,
            forall|j: int| 0 <= j < i ==> (#[trigger] rows@[j]).row_id() != id,
        decreases n - i,
    {
        if rows[i].get_id() == id {
            return Some(i);
        }
        i = i + 1;
    }
    None
}

/// Replaces the row of the same id as `row`, which must exist.
pub fn update_row<R: Row>(rows: &mut Vec<R>, row: R)
    requires
        has_id(old(rows)@, row.row_id()),
        forall|a: int, b: int| #![trigger old(rows)@[a], old(rows)@[b]] 0 <= a < b < old(rows)@.len() ==> old(rows)@[a].row_id() != old(rows)@[b].row_id(),
    ensures
        final(rows)@ == replace_by_id(old(rows)@, row),
{
    let ghost s = rows@;
    let id = row.get_id();
    let found = find_index(rows, id);
    let i = found.unwrap();
    rows[i] = row;
    proof {
        assert forall|k: int| 0 <= k < s.len() implies #[trigger] rows@[k] == replace_by_id(s, row)[k] by {
            if k != i {
                if k < i {
                    assert(s[k].row_id() != s[i as int].row_id());
                } else {
                    assert(s[i as int].row_id() != s[k].row_id());
                }
            }
        }
        assert(rows@ =~= replace_by_id(s, row));
    }
}

proof fn lemma_filter_remove_one<R: Row>(s: Seq<R>, i: int, id: u64)
    requires
        0 <= i < s.len(),
        s[i].row_id() == id,
        forall|j: int| 0 <= j < s.len() && j != i ==> (#[trigger] s[j]).row_id() != id,
    ensures
        s.filter(id_differs::<R>(id)) == s.remove(i),
    decreases s.len(),
{
    reveal(Seq::filter);
    if i == s.len() - 1 {
        lemma_filter_all(s.drop_last(), id);
        assert(s.remove(i) =~= s.drop_last());
    } else {
        let t = s.drop_last();
        assert forall|j: int| 0 <= j < t.len() && j != i implies (#[trigger] t[j]).row_id() != id by {
            assert(t[j] == s[j]);
        }
        lemma_filter_remove_one(t, i, id);
        assert(s.last().row_id() != id);
        assert(s.remove(i) =~= t.remove(i).push(s.last()));
    }
}

proof fn lemma_filter_all<R: Row>(s: Seq<R>, id: u64)
    requires
        forall|j: int| 0 <= j < s.len() ==> (#[trigger] s[j]).row_id() != id,
    ensures
        s.filter(id_differs::<R>(id)) == s,
    decreases s.len(),
{
    reveal(Seq::filter);
    if s.len() > 0 {
        let t = s.drop_last();
        assert forall|j: int| 0 <= j < t.len() implies (#[trigger] t[j]).row_id() != id by {
            assert(t[j] == s[j]);
        }
        lemma_filter_all(t, id);
        assert(s =~= t.push(s.last()));
    }
}

/// Deletes the row with the given id, if there is one; returns whether it did.
pub fn delete_row<R: Row>(rows: &mut Vec<R>, id: u64) -> (deleted: bool)
    requires
        forall|a: int, b: int| #![trigger old(rows)@[a], old(rows)@[b]] 0 <= a < b < old(rows)@.len() ==> old(rows)@[a].row_id() != old(rows)@[b].row_id(),
    ensures
        deleted == has_id(old(rows)@, id),
        final(rows)@ == remove_by_id(old(rows)@, id),
{
    let ghost s = rows@;
    match find_index(rows, id) {
        Some(i) => {
            proof {
                assert forall|j: int| 0 <= j < s.len() && j != i implies (#[trigger] s[j]).row_id() != id by {
                    if j < i {
                        assert(s[j].row_id() != s[i as int].row_id());
                    } else {
                        assert(s[i as int].row_id() != s[j].row_id());
                    }
                }
                lemma_filter_remove_one(s, i as int, id);
            }
            rows.remove(i);
            true
        },
        None => {
            proof {
                assert forall|j: int| 0 <= j < s.len() implies (#[trigger] s[j]).row_id() != id by {
                    if s[j].row_id() == id {
                        assert(has_id(s, id));
                    }
                }
                lemma_filter_all(s, id);
            }
            false
        },
    }
}

impl Row for Match {
    open spec fn row_id(&self) -> u64 {
        self.id
    }

    open spec fn with_id(self, id: u64) -> Self {
        Match { id: id, ..self }
    }

    fn get_id(&self) -> (r: u64) {
        self.id
    }

    fn set_id(&mut self, id: u64) {
        self.id = id;
    }

    proof fn lemma_with_id(self, id: u64) {
    }
}

impl Row for MatchParticipant {
    open spec fn row_id(&self) -> u64 {
        self.id
    }

    open spec fn with_id(self, id: u64) -> Self {
        MatchParticipant { id: id, ..self }
    }

    fn get_id(&self) -> (r: u64) {
        self.id
    }

    fn set_id(&mut self, id: u64) {
        self.id = id;
    }

    proof fn lemma_with_id(self, id: u64) {
    }
}

impl Row for BagLetter {
    open spec fn row_id(&self) -> u64 {
        self.id
    }

    open spec fn with_id(self, id: u64) -> Self {
        BagLetter { id: id, ..self }
    }

    fn get_id(&self) -> (r: u64) {
        self.id
    }

    fn set_id(&mut self, id: u64) {
        self.id = id;
    }

    proof fn lemma_with_id(self, id: u64) {
    }
}

impl Row for Holding {
    open spec fn row_id(&self) -> u64 {
        self.id
    }

    open spec fn with_id(self, id: u64) -> Self {
        Holding { id: id, ..self }
    }

    fn get_id(&self) -> (r: u64) {
        self.id
    }

    fn set_id(&mut self, id: u64) {
        self.id = id;
    }

    proof fn lemma_with_id(self, id: u64) {
    }
}

impl Row for Auction {
    open spec fn row_id(&self) -> u64 {
        self.id
    }

    open spec fn with_id(self, id: u64) -> Self {
        Auction { id: id, ..self }
    }

    fn get_id(&self) -> (r: u64) {
        self.id
    }

    fn set_id(&mut self, id: u64) {
        self.id = id;
    }

    proof fn lemma_with_id(self, id: u64) {
    }
}

impl Row for PendingBid {
    open spec fn row_id(&self) -> u64 {
        self.id
    }

    open spec fn with_id(self, id: u64) -> Self {
        PendingBid { id: id, ..self }
    }

    fn get_id(&self) -> (r: u64) {
        self.id
    }

    fn set_id(&mut self, id: u64) {
        self.id = id;
    }

    proof fn lemma_with_id(self, id: u64) {
    }
}

impl Row for WordPlay {
    open spec fn row_id(&self) -> u64 {
        self.id
    }

    open spec fn with_id(self, id: u64) -> Self {
        WordPlay { id: id, ..self }
    }

    fn get_id(&self) -> (r: u64) {
        self.id
    }

    fn set_id(&mut self, id: u64) {
        self.id = id;
    }

    proof fn lemma_with_id(self, id: u64) {
    }
}

impl Row for AuctionSchedule {
    open spec fn row_id(&self) -> u64 {
        self.scheduled_id
    }

    open spec fn with_id(self, id: u64) -> Self {
        AuctionSchedule { scheduled_id: id, ..self }
    }

    fn get_id(&self) -> (r: u64) {
        self.scheduled_id
    }

    fn set_id(&mut self, id: u64) {
        self.scheduled_id = id;
    }

    proof fn lemma_with_id(self, id: u64) {
    }
}

impl Row for MatchmakerSchedule {
    open spec fn row_id(&self) -> u64 {
        self.scheduled_id
    }

    open spec fn with_id(self, id: u64) -> Self {
        MatchmakerSchedule { scheduled_id: id, ..self }
    }

    fn get_id(&self) -> (r: u64) {
        self.scheduled_id
    }

    fn set_id(&mut self, id: u64) {
        self.scheduled_id = id;
    }

    proof fn lemma_with_id(self, id: u64) {
    }
}

impl Row for Tournament {
    open spec fn row_id(&self) -> u64 {
        self.id
    }

    open spec fn with_id(self, id: u64) -> Self {
        Tournament { id: id, ..self }
    }

    fn get_id(&self) -> (r: u64) {
        self.id
    }

    fn set_id(&mut self, id: u64) {
        self.id = id;
    }

    proof fn lemma_with_id(self, id: u64) {
    }
}

impl Row for TournamentEntry {
    open spec fn row_id(&self) -> u64 {
        self.id
    }

    open spec fn with_id(self, id: u64) -> Self {
        TournamentEntry { id: id, ..self }
    }

    fn get_id(&self) -> (r: u64) {
        self.id
    }

    fn set_id(&mut self, id: u64) {
        self.id = id;
    }

    proof fn lemma_with_id(self, id: u64) {
    }
}

impl Row for TournamentMatch {
    open spec fn row_id(&self) -> u64 {
        self.id
    }

    open spec fn with_id(self, id: u64) -> Self {
        TournamentMatch { id: id, ..self }
    }

    fn get_id(&self) -> (r: u64) {
        self.id
    }

    fn set_id(&mut self, id: u64) {
        self.id = id;
    }

    proof fn lemma_with_id(self, id: u64) {
    }
}

/// The next id that each auto-incremented table hands out.
#[derive(Clone, Copy, Debug, PartialEq, Eq, Structural)]
pub struct Sequences {
    pub match_state: u64,
    pub match_participant: u64,
    pub bag_letter: u64,
    pub holding: u64,
    pub auction: u64,
    pub pending_bid: u64,
    pub word_play: u64,
    pub auction_schedule: u64,
    pub matchmaker_schedule: u64,
    pub tournament: u64,
    pub tournament_entry: u64,
    pub tournament_match: u64,
}

/// All tables of the game.
pub struct Db {
    pub bot: Vec<Bot>,
    pub match_state: Vec<Match>,
    pub match_participant: Vec<MatchParticipant>,
    pub bag_letter: Vec<BagLetter>,
    pub holding: Vec<Holding>,
    pub auction: Vec<Auction>,
    pub pending_bid: Vec<PendingBid>,
    pub auction_result: Vec<AuctionResult>,
    pub word_play: Vec<WordPlay>,
    pub auction_schedule: Vec<AuctionSchedule>,
    pub bot_stats: Vec<BotStats>,
    pub matchmaker_config: Vec<MatchmakerConfig>,
    pub matchmaker_schedule: Vec<MatchmakerSchedule>,
    pub tournament: Vec<Tournament>,
    pub tournament_entry: Vec<TournamentEntry>,
    pub tournament_match: Vec<TournamentMatch>,
    pub next: Sequences,
}

/// The tables as sequences of rows.
#[verifier::ext_equal]
pub struct DbView {
    pub bot: Seq<Bot>,
    pub match_state: Seq<Match>,
    pub match_participant: Seq<MatchParticipant>,
    pub bag_letter: Seq<BagLetter>,
    pub holding: Seq<Holding>,
    pub auction: Seq<Auction>,
    pub pending_bid: Seq<PendingBid>,
    pub auction_result: Seq<AuctionResult>,
    pub word_play: Seq<WordPlay>,
    pub auction_schedule: Seq<AuctionSchedule>,
    pub bot_stats: Seq<BotStats>,
    pub matchmaker_config: Seq<MatchmakerConfig>,
    pub matchmaker_schedule: Seq<MatchmakerSchedule>,
    pub tournament: Seq<Tournament>,
    pub tournament_entry: Seq<TournamentEntry>,
    pub tournament_match: Seq<TournamentMatch>,
    pub next: Sequences,
}

impl View for Db {
    type V = DbView;

    open spec fn view(&self) -> DbView {
        DbView {
            bot: self.bot@,
            match_state: self.match_state@,
            match_participant: self.match_participant@,
            bag_letter: self.bag_letter@,
            holding: self.holding@,
            auction: self.auction@,
            pending_bid: self.pending_bid@,
            auction_result: self.auction_result@,
            word_play: self.word_play@,
            auction_schedule: self.auction_schedule@,
            bot_stats: self.bot_stats@,
            matchmaker_config: self.matchmaker_config@,
            matchmaker_schedule: self.matchmaker_schedule@,
            tournament: self.tournament@,
            tournament_entry: self.tournament_entry@,
            tournament_match: self.tournament_match@,
            next: self.next,
        }
    }
}

impl DbView {
    /// Primary keys are unique and below the next id of their table; bot
    /// names are unique; bag rows belong to matches already created, and
    /// tournament entries to tournaments already created.
    pub open spec fn wf(self) -> bool {
        &&& ids_ok(self.match_state, self.next.match_state)
        &&& ids_ok(self.match_participant, self.next.match_participant)
        &&& ids_ok(self.bag_letter, self.next.bag_letter)
        &&& ids_ok(self.holding, self.next.holding)
        &&& ids_ok(self.auction, self.next.auction)
        &&& ids_ok(self.pending_bid, self.next.pending_bid)
        &&& ids_ok(self.word_play, self.next.word_play)
        &&& ids_ok(self.auction_schedule, self.next.auction_schedule)
        &&& ids_ok(self.matchmaker_schedule, self.next.matchmaker_schedule)
        &&& ids_ok(self.tournament, self.next.tournament)
        &&& ids_ok(self.tournament_entry, self.next.tournament_entry)
        &&& ids_ok(self.tournament_match, self.next.tournament_match)
        &&& forall|i: int, j: int| #![trigger self.bot[i], self.bot[j]] 0 <= i < j < self.bot.len() ==> self.bot[i].identity != self.bot[j].identity && self.bot[i].name@ != self.bot[j].name@
        &&& forall|i: int| 0 <= i < self.bag_letter.len() ==> (#[trigger] self.bag_letter[i]).match_id < self.next.match_state
        &&& forall|i: int| 0 <= i < self.tournament_entry.len() ==> (#[trigger] self.tournament_entry[i]).tournament_id < self.next.tournament
        &&& forall|i: int, j: int| #![trigger self.bot_stats[i], self.bot_stats[j]] 0 <= i < j < self.bot_stats.len() ==> self.bot_stats[i].bot != self.bot_stats[j].bot
        &&& forall|i: int, j: int| #![trigger self.auction_result[i], self.auction_result[j]] 0 <= i < j < self.auction_result.len() ==> self.auction_result[i].auction_id != self.auction_result[j].auction_id
        &&& forall|i: int, j: int| #![trigger self.matchmaker_config[i], self.matchmaker_config[j]] 0 <= i < j < self.matchmaker_config.len() ==> self.matchmaker_config[i].id != self.matchmaker_config[j].id
    }
}

impl Db {
    /// Empty tables; every sequence starts at 1.
    pub fn new() -> (db: Db)
        ensures
            db@.bot.len() == 0,
            db@.match_state.len() == 0,
            db@.match_participant.len() == 0,
            db@.bag_letter.len() == 0,
            db@.holding.len() == 0,
            db@.auction.len() == 0,
            db@.pending_bid.len() == 0,
            db@.auction_result.len() == 0,
            db@.word_play.len() == 0,
            db@.auction_schedule.len() == 0,
            db@.bot_stats.len() == 0,
            db@.matchmaker_config.len() == 0,
            db@.matchmaker_schedule.len() == 0,
            db@.tournament.len() == 0,
            db@.tournament_entry.len() == 0,
            db@.tournament_match.len() == 0,
            db@.next.match_state == 1,
            db@.next.match_participant == 1,
            db@.next.bag_letter == 1,
            db@.next.holding == 1,
            db@.next.auction == 1,
            db@.next.pending_bid == 1,
            db@.next.word_play == 1,
            db@.next.auction_schedule == 1,
            db@.next.matchmaker_schedule == 1,
            db@.next.tournament == 1,
            db@.next.tournament_entry == 1,
            db@.next.tournament_match == 1,
            db@.wf(),
    {
        Db {
            bot: Vec::new(),
            match_state: Vec::new(),
            match_participant: Vec::new(),
            bag_letter: Vec::new(),
            holding: Vec::new(),
            auction: Vec::new(),
            pending_bid: Vec::new(),
            auction_result: Vec::new(),
            word_play: Vec::new(),
            auction_schedule: Vec::new(),
            bot_stats: Vec::new(),
            matchmaker_config: Vec::new(),
            matchmaker_schedule: Vec::new(),
            tournament: Vec::new(),
            tournament_entry: Vec::new(),
            tournament_match: Vec::new(),
            next: Sequences {
                match_state: 1,
                match_participant: 1,
                bag_letter: 1,
                holding: 1,
                auction: 1,
                pending_bid: 1,
                word_play: 1,
                auction_schedule: 1,
                matchmaker_schedule: 1,
                tournament: 1,
                tournament_entry: 1,
                tournament_match: 1,
            },
        }
    }
}

/// Index `i` holds the first element of `s` that satisfies `p`.
pub open spec fn is_first<T>(s: Seq<T>, p: spec_fn(T) -> bool, i: int) -> bool {
    &&& 0 <= i < s.len()
    &&& p(s[i])
    &&& forall|j: int| 0 <= j < i ==> !p(#[trigger] s[j])
}

/// The index of the first element of `s` that satisfies `p`, if any.
pub open spec fn find_first<T>(s: Seq<T>, p: spec_fn(T) -> bool) -> Option<int> {
    if exists|i: int| is_first(s, p, i) {
        Some(choose|i: int| is_first(s, p, i))
    } else {
        None
    }
}

pub proof fn lemma_find_first_at<T>(s: Seq<T>, p: spec_fn(T) -> bool, i: int)
    requires
        is_first(s, p, i),
    ensures
        find_first(s, p) == Some(i),
{
    let k = choose|k: int| is_first(s, p, k);
    if k < i {
        assert(!p(s[k]));
    } else if k > i {
        assert(!p(s[i]));
    }
}

pub proof fn lemma_find_first_none<T>(s: Seq<T>, p: spec_fn(T) -> bool)
    requires
        forall|j: int| 0 <= j < s.len() ==> !p(#[trigger] s[j]),
    ensures
        find_first(s, p) is None,
{
    if exists|i: int| is_first(s, p, i) {
        let k = choose|i: int| is_first(s, p, i);
        assert(!p(s[k]));
    }
}

/// Filtering by a weaker predicate keeps at least as many elements.
pub proof fn lemma_filter_len_mono<T>(s: Seq<T>, p: spec_fn(T) -> bool, q: spec_fn(T) -> bool)
    requires
        forall|x: T| #[trigger] p(x) ==> q(x),
    ensures
        s.filter(p).len() <= s.filter(q).len(),
    decreases s.len(),
{
    reveal(Seq::filter);
    if s.len() > 0 {
        lemma_filter_len_mono(s.drop_last(), p, q);
    }
}

/// Two sequences whose elements agree, position by position, on a
/// predicate keep equally many elements under it.
pub proof fn lemma_filter_len_same<T>(a: Seq<T>, b: Seq<T>, p: spec_fn(T) -> bool)
    requires
        a.len() == b.len(),
        forall|k: int| 0 <= k < a.len() ==> p(#[trigger] a[k]) == p(b[k]),
    ensures
        a.filter(p).len() == b.filter(p).len(),
    decreases a.len(),
{
    reveal(Seq::filter);
    if a.len() > 0 {
        let (c, d) = (a.drop_last(), b.drop_last());
        assert forall|k: int| 0 <= k < c.len() implies p(#[trigger] c[k]) == p(d[k]) by {
            assert(c[k] == a[k] && d[k] == b[k]);
        }
        lemma_filter_len_same(c, d, p);
        assert(p(a[a.len() - 1]) == p(b[b.len() - 1]));
    }
}

/// Filtering keeps every element when each satisfies the predicate, and
/// none when none does.
pub proof fn lemma_filter_all_or_none<T>(s: Seq<T>, p: spec_fn(T) -> bool, all: bool)
    requires
        forall|k: int| 0 <= k < s.len() ==> p(#[trigger] s[k]) == all,
    ensures
        s.filter(p).len() == if all { s.len() } else { 0 },
    decreases s.len(),
{
    reveal(Seq::filter);
    if s.len() > 0 {
        let t = s.drop_last();
        assert forall|k: int| 0 <= k < t.len() implies p(#[trigger] t[k]) == all by {
            assert(t[k] == s[k]);
        }
        lemma_filter_all_or_none(t, p, all);
        assert(p(s[s.len() - 1]) == all);
    }
}

pub proof fn lemma_find_first_some<T>(s: Seq<T>, p: spec_fn(T) -> bool, i: int)
    requires
        find_first(s, p) == Some(i),
    ensures
        is_first(s, p, i),
{
}

/// Sequences that agree, position by position, on a predicate have the
/// same first element satisfying it.
pub proof fn lemma_find_first_same<T>(a: Seq<T>, b: Seq<T>, p: spec_fn(T) -> bool)
    requires
        a.len() == b.len(),
        forall|k: int| 0 <= k < a.len() ==> p(#[trigger] a[k]) == p(b[k]),
    ensures
        find_first(a, p) == find_first(b, p),
{
    if let Some(i) = find_first(a, p) {
        lemma_find_first_some(a, p, i);
        assert(is_first(b, p, i)) by {
            assert forall|j: int| 0 <= j < i implies !p(#[trigger] b[j]) by {
                assert(!p(a[j]));
            }
        }
        lemma_find_first_at(b, p, i);
    } else if let Some(i) = find_first(b, p) {
        lemma_find_first_some(b, p, i);
        assert(is_first(a, p, i)) by {
            assert forall|j: int| 0 <= j < i implies !p(#[trigger] a[j]) by {
                assert(!p(b[j]));
            }
        }
        lemma_find_first_at(a, p, i);
    }
}

} // verus!
