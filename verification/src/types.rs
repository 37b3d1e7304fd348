//! The game's records: identities, timestamps, the enums of the rules and
//! one struct per table row.
use vstd::prelude::*;

verus! {

/// A caller's identity: a 256-bit value, held as its high and low halves.
#[derive(Clone, Copy, Debug, PartialEq, Eq, Structural, Hash)]
pub struct Identity {
    pub high: u128,
    pub low: u128,
}

/// A point in time, in microseconds since the Unix epoch.
#[derive(Clone, Copy, Debug, PartialEq, Eq, Structural)]
pub struct Timestamp {
    pub micros_since_unix_epoch: i64,
}

#[derive(Clone, Copy, Debug, PartialEq, Eq, Structural)]
pub enum MatchStatus {
    Lobby,
    Running,
    Ended,
}

#[derive(Clone, Copy, Debug, PartialEq, Eq, Structural)]
pub enum AuctionStatus {
    Open,
    Closed,
}

#[derive(Clone, Copy, Debug, PartialEq, Eq, Structural)]
pub enum AuctionType {
    FirstPrice,
    Vickrey,
}

#[derive(Clone, Copy, Debug, PartialEq, Eq, Structural)]
pub enum BotStrategy {
    Human,
    Cheapskate,
    ValueBidder,
    Aggressive,
}

#[derive(Clone, Copy, Debug, PartialEq, Eq, Structural)]
pub enum TournamentStatus {
    Lobby,
    Swiss,
    Bracket,
    Ended,
}

#[derive(Clone, Copy, Debug, PartialEq, Eq, Structural)]
pub enum TournamentPhase {
    Swiss,
    Bracket,
}

/// A registered bot. Identity is the key; names are unique too.
#[derive(Debug)]
pub struct Bot {
    pub identity: Identity,
    pub name: String,
    pub connected: bool,
    pub registered_at: Timestamp,
    pub is_simulated: bool,
    pub strategy: BotStrategy,
}

impl Bot {
    pub fn copy(&self) -> (r: Bot)
        ensures
            r == *self,
    {
        Bot {
            identity: self.identity,
            name: self.name.clone(),
            connected: self.connected,
            registered_at: self.registered_at,
            is_simulated: self.is_simulated,
            strategy: self.strategy,
        }
    }
}

/// One match.
#[derive(Clone, Copy, Debug, PartialEq, Eq, Structural)]
pub struct Match {
    pub id: u64,
    pub status: MatchStatus,
    pub current_round: u32,
    pub current_auction_id: Option<u64>,
    pub bag_total: u32,
    pub auction_type: AuctionType,
    pub created_at: Timestamp,
    pub started_at: Option<Timestamp>,
    pub ended_at: Option<Timestamp>,
}

/// Balance and score of one bot in one match.
#[derive(Clone, Copy, Debug, PartialEq, Eq, Structural)]
pub struct MatchParticipant {
    pub id: u64,
    pub match_id: u64,
    pub bot: Identity,
    pub balance: i64,
    pub score: i64,
}

/// How many tiles of one letter are left in a match's bag.
#[derive(Debug)]
pub struct BagLetter {
    pub id: u64,
    pub match_id: u64,
    pub letter: String,
    pub remaining: u32,
}

impl BagLetter {
    pub fn copy(&self) -> (r: BagLetter)
        ensures
            r == *self,
    {
        BagLetter { id: self.id, match_id: self.match_id, letter: self.letter.clone(), remaining: self.remaining }
    }
}

/// How many tiles of one letter a bot holds in one match.
#[derive(Debug)]
pub struct Holding {
    pub id: u64,
    pub match_id: u64,
    pub bot: Identity,
    pub letter: String,
    pub count: u32,
}

impl Holding {
    pub fn copy(&self) -> (r: Holding)
        ensures
            r == *self,
    {
        Holding {
            id: self.id,
            match_id: self.match_id,
            bot: self.bot,
            letter: self.letter.clone(),
            count: self.count,
        }
    }
}

/// The auction of one letter.
#[derive(Debug)]
pub struct Auction {
    pub id: u64,
    pub match_id: u64,
    pub letter: String,
    pub opens_at: Timestamp,
    pub closes_at: Timestamp,
    pub status: AuctionStatus,
}

impl Auction {
    pub fn copy(&self) -> (r: Auction)
        ensures
            r == *self,
    {
        Auction {
            id: self.id,
            match_id: self.match_id,
            letter: self.letter.clone(),
            opens_at: self.opens_at,
            closes_at: self.closes_at,
            status: self.status,
        }
    }
}

/// A sealed bid on an open auction.
#[derive(Clone, Copy, Debug, PartialEq, Eq, Structural)]
pub struct PendingBid {
    pub id: u64,
    pub auction_id: u64,
    pub bidder: Identity,
    pub amount: i64,
    pub submitted_at: Timestamp,
}

/// The outcome of a closed auction.
#[derive(Debug)]
pub struct AuctionResult {
    pub auction_id: u64,
    pub match_id: u64,
    pub letter: String,
    pub winner: Option<Identity>,
    pub top_bid: i64,
    pub paid: i64,
    pub closed_at: Timestamp,
}

/// A word played for currency.
#[derive(Debug)]
pub struct WordPlay {
    pub id: u64,
    pub match_id: u64,
    pub bot: Identity,
    pub word: String,
    pub base_score: i64,
    pub bonus: i64,
    pub total_reward: i64,
    pub played_at: Timestamp,
}

/// A pending call of the auction tick for one match.
#[derive(Clone, Copy, Debug, PartialEq, Eq, Structural)]
pub struct AuctionSchedule {
    pub scheduled_id: u64,
    pub scheduled_at: Timestamp,
    pub match_id: u64,
}

/// A bot's rating and counters over all its matches.
#[derive(Clone, Copy, Debug, PartialEq, Eq, Structural)]
pub struct BotStats {
    pub bot: Identity,
    pub rating: i32,
    pub matches_played: u32,
    pub wins: u32,
    pub total_score: i64,
    pub last_played: Option<Timestamp>,
}

/// Settings of the continuous matchmaker (a single row, id 0).
#[derive(Clone, Copy, Debug, PartialEq, Eq, Structural)]
pub struct MatchmakerConfig {
    pub id: u32,
    pub enabled: bool,
    pub match_size_min: u32,
    pub match_size_max: u32,
    pub interval_ms: u64,
    pub auction_type: AuctionType,
}

/// A pending call of the matchmaker tick.
#[derive(Clone, Copy, Debug, PartialEq, Eq, Structural)]
pub struct MatchmakerSchedule {
    pub scheduled_id: u64,
    pub scheduled_at: Timestamp,
}

/// One tournament.
#[derive(Clone, Copy, Debug, PartialEq, Eq, Structural)]
pub struct Tournament {
    pub id: u64,
    pub status: TournamentStatus,
    pub swiss_rounds_total: u32,
    pub current_round: u32,
    pub top_cut: u32,
    pub match_size: u32,
    pub auction_type: AuctionType,
    pub created_at: Timestamp,
    pub ended_at: Option<Timestamp>,
}

/// One bot competing in one tournament.
#[derive(Clone, Copy, Debug, PartialEq, Eq, Structural)]
pub struct TournamentEntry {
    pub id: u64,
    pub tournament_id: u64,
    pub bot: Identity,
    pub swiss_points: i32,
    pub eliminated: bool,
}

/// Links a match to a round of a tournament.
#[derive(Clone, Copy, Debug, PartialEq, Eq, Structural)]
pub struct TournamentMatch {
    pub id: u64,
    pub tournament_id: u64,
    pub match_id: u64,
    pub round: u32,
    pub phase: TournamentPhase,
}

/// The caller of a reducer and the time of the call.
#[derive(Clone, Copy, Debug, PartialEq, Eq, Structural)]
pub struct ReducerContext {
    pub sender: Identity,
    pub timestamp: Timestamp,
}

/// Why a reducer refused a request.
#[derive(Debug, PartialEq, Eq)]
pub enum GameError {
    /// The name is empty or longer than 32 bytes once trimmed.
    InvalidName,
    /// The caller's identity already has a bot.
    AlreadyRegistered,
    /// Another bot has this name.
    NameTaken,
    /// Simulated bots need a strategy other than Human.
    HumanStrategy,
    /// A bot with the simulated bot's identity exists.
    SimulatedBotExists,
    /// A match needs at least one participant.
    NoParticipants,
    /// A roster names an identity that has no bot.
    UnknownBot(Identity),
    /// The bag had no letter to draw.
    BagEmpty,
    /// Bids must be non-negative.
    NegativeBid,
    UnknownAuction,
    AuctionClosed,
    /// The auction's closing time has come.
    AuctionExpired,
    /// The caller does not take part in the match.
    NotInMatch,
    /// The bid is above the caller's balance.
    InsufficientBalance,
    UnknownMatch,
    MatchNotRunning,
    /// Words need at least two letters.
    WordTooShort,
    /// Words may only hold the letters A-Z.
    WordNotAlphabetic,
    /// The (upper-cased) word is not in the dictionary.
    NotInDictionary(String),
    /// The rack lacks a letter: the letter, how many the word needs, how
    /// many the rack holds.
    NotEnoughLetters(char, u32, u32),
    /// The matchmaker needs a minimum size of at least 2 and a maximum no
    /// smaller than the minimum.
    MatchSizeRange,
    /// The matchmaker's interval must be at least 1000 ms.
    IntervalTooShort,
    /// Tournament matches need at least two bots.
    TournamentMatchSize,
    /// A tournament needs at least one Swiss round.
    NoSwissRounds,
    /// The bracket needs a top cut of at least 2.
    TopCutTooSmall,
    /// Fewer registered bots than the tournament's match size, which is given.
    NotEnoughBots(u32),
    /// A tournament needs an even number of registered bots.
    OddBotCount,
    /// No tournament has the given id.
    UnknownTournament,
}

} // verus!
