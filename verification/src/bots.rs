//! Registering bots and tracking whether they are connected.
use vstd::prelude::*;
use crate::types::{Bot, BotStrategy, GameError, Identity, ReducerContext};
use crate::db::{Db, DbView};
use crate::text::{byte_len, same_text, str_trim, trim};

verus! {

pub open spec fn has_bot(bots: Seq<Bot>, id: Identity) -> bool {
    exists|i: int| 0 <= i < bots.len() && (#[trigger] bots[i]).identity == id
}

pub open spec fn has_bot_named(bots: Seq<Bot>, name: Seq<char>) -> bool {
    exists|i: int| 0 <= i < bots.len() && (#[trigger] bots[i]).name@ == name
}

/// The bot with the given identity (meaningful when `has_bot`).
pub open spec fn bot_with_identity(bots: Seq<Bot>, id: Identity) -> Bot {
    bots[choose|i: int| 0 <= i < bots.len() && (#[trigger] bots[i]).identity == id]
}

/// The index of the bot with the given identity, if any.
pub fn find_bot_index(bots: &Vec<Bot>, id: Identity) -> (r: Option<usize>)
    ensures
        match r {
            Some(i) => i < bots@.len() && bots@[i as int].identity == id,
            None => !has_bot(bots@, id),
        },
{
    let n = bots.len();
    let mut i: usize = 0;
    while i < n
        invariant
            n == bots@.len(),
            i <= n,
            forall|j: int| 0 <= j < i ==> (#[trigger] bots@[j]).identity != id,
        decreases n - i,
    {
        if bots[i].identity == id {
            return Some(i);
        }
        i = i + 1;
    }
    None
}

/// Whether a bot has the given name.
pub fn bot_name_taken(bots: &Vec<Bot>, name: &str) -> (r: bool)
    ensures
        r == has_bot_named(bots@, name@),
{
    let n = bots.len();
    let mut i: usize = 0;
    while i < n
        invariant
            n == bots@.len(),
            i <= n,
            forall|j: int| 0 <= j < i ==> (#[trigger] bots@[j]).name@ != name@,
        decreases n - i,
    {
        if same_text(bots[i].name.as_str(), name) {
            return true;
        }
        i = i + 1;
    }
    false
}

/// With unique identities, `bot_with_identity` is the bot at its index.
pub proof fn lemma_bot_at(bots: Seq<Bot>, i: int)
    requires
        0 <= i < bots.len(),
        forall|a: int, b: int| #![trigger bots[a], bots[b]] 0 <= a < b < bots.len() ==> bots[a].identity != bots[b].identity,
    ensures
        has_bot(bots, bots[i].identity),
        bot_with_identity(bots, bots[i].identity) == bots[i],
{
    let id = bots[i].identity;
    let k = choose|k: int| 0 <= k < bots.len() && (#[trigger] bots[k]).identity == id;
    if k < i {
        assert(bots[k].identity != bots[i].identity);
    } else if k > i {
        assert(bots[i].identity != bots[k].identity);
    }
}

/// A bot's registration record, as a spec over its fields.
pub open spec fn is_new_bot(b: Bot, ctx: ReducerContext, identity: Identity, name: Seq<char>, is_simulated: bool, strategy: BotStrategy) -> bool {
    &&& b.identity == identity
    &&& b.name@ == name
    &&& b.connected
    &&& b.registered_at == ctx.timestamp
    &&& b.is_simulated == is_simulated
    &&& b.strategy == strategy
}

/// The tables with one bot appended, the rest unchanged.
pub open spec fn added_bot(old_db: DbView, new_db: DbView, ctx: ReducerContext, identity: Identity, name: Seq<char>, is_simulated: bool, strategy: BotStrategy) -> bool {
    &&& new_db == DbView { bot: new_db.bot, ..old_db }
    &&& new_db.bot.len() == old_db.bot.len() + 1
    &&& new_db.bot.drop_last() == old_db.bot
    &&& is_new_bot(new_db.bot.last(), ctx, identity, name, is_simulated, strategy)
}

pub open spec fn valid_name(trimmed: Seq<char>) -> bool {
    trimmed.len() > 0 && byte_len(trimmed) <= 32
}

/// The outcome of registering the caller under an already trimmed name.
pub open spec fn register_outcome(old_db: DbView, new_db: DbView, ctx: ReducerContext, trimmed: Seq<char>, r: Result<(), GameError>) -> bool {
    if !valid_name(trimmed) {
        r == Err::<(), GameError>(GameError::InvalidName) && new_db == old_db
    } else if has_bot(old_db.bot, ctx.sender) {
        r == Err::<(), GameError>(GameError::AlreadyRegistered) && new_db == old_db
    } else if has_bot_named(old_db.bot, trimmed) {
        r == Err::<(), GameError>(GameError::NameTaken) && new_db == old_db
    } else {
        r == Ok::<(), GameError>(()) && added_bot(old_db, new_db, ctx, ctx.sender, trimmed, false, BotStrategy::Human)
    }
}

proof fn lemma_push_bot_wf(old_db: DbView, new_db: DbView)
    requires
        old_db.wf(),
        new_db == (DbView { bot: new_db.bot, ..old_db }),
        new_db.bot.len() == old_db.bot.len() + 1,
        new_db.bot.drop_last() == old_db.bot,
        !has_bot(old_db.bot, new_db.bot.last().identity),
        !has_bot_named(old_db.bot, new_db.bot.last().name@),
    ensures
        new_db.wf(),
{
    let b = new_db.bot;
    let n = old_db.bot.len();
    assert forall|i: int, j: int| #![trigger b[i], b[j]] 0 <= i < j < b.len() implies b[i].identity != b[j].identity && b[i].name@ != b[j].name@ by {
        assert(b[i] == old_db.bot[i]);
        if j < n {
            assert(b[j] == old_db.bot[j]);
        } else {
            assert(b[j] == b.last());
        }
    }
}

/// Registers the caller as a bot under `trimmed`, a name already trimmed.
pub fn register_trimmed_bot(ctx: &ReducerContext, db: &mut Db, trimmed: &str) -> (r: Result<(), GameError>)
    requires
        old(db)@.wf(),
    ensures
        register_outcome(old(db)@, final(db)@, *ctx, trimmed@, r),
        final(db)@.wf(),
{
    if trimmed.is_empty() || trimmed.as_bytes().len() > 32 {
        return Err(GameError::InvalidName);
    }
    assert(valid_name(trimmed@));
    if find_bot_index(&db.bot, ctx.sender).is_some() {
        return Err(GameError::AlreadyRegistered);
    }
    if bot_name_taken(&db.bot, trimmed) {
        return Err(GameError::NameTaken);
    }
    let ghost old_db = db@;
    db.bot.push(Bot {
        identity: ctx.sender,
        name: trimmed.to_owned(),
        connected: true,
        registered_at: ctx.timestamp,
        is_simulated: false,
        strategy: BotStrategy::Human,
    });
    proof {
        assert(db@.bot.drop_last() =~= old_db.bot);
        assert(db@ =~= DbView { bot: db@.bot, ..old_db });
        lemma_push_bot_wf(old_db, db@);
    }
    Ok(())
}

/// Registers the caller as a bot under `name`, trimmed of surrounding white
/// space.
pub fn register_bot(ctx: &ReducerContext, db: &mut Db, name: String) -> (r: Result<(), GameError>)
    requires
        old(db)@.wf(),
    ensures
        register_outcome(old(db)@, final(db)@, *ctx, str_trim(name@), r),
        final(db)@.wf(),
{
    let trimmed = trim(name.as_str());
    register_trimmed_bot(ctx, db, trimmed)
}

/// The outcome of adding a simulated bot under an already trimmed name and
/// the identity that belongs to that name.
pub open spec fn spawn_outcome(old_db: DbView, new_db: DbView, ctx: ReducerContext, trimmed: Seq<char>, strategy: BotStrategy, identity: Identity, r: Result<(), GameError>) -> bool {
    if !valid_name(trimmed) {
        r == Err::<(), GameError>(GameError::InvalidName) && new_db == old_db
    } else if strategy == BotStrategy::Human {
        r == Err::<(), GameError>(GameError::HumanStrategy) && new_db == old_db
    } else if has_bot_named(old_db.bot, trimmed) {
        r == Err::<(), GameError>(GameError::NameTaken) && new_db == old_db
    } else if has_bot(old_db.bot, identity) {
        r == Err::<(), GameError>(GameError::SimulatedBotExists) && new_db == old_db
    } else {
        r == Ok::<(), GameError>(()) && added_bot(old_db, new_db, ctx, identity, trimmed, true, strategy)
    }
}

/// Adds a simulated bot named `trimmed` (already trimmed) with the given
/// strategy, under `identity`, the identity that the host derives from the
/// claims ("sim", trimmed name).
pub fn spawn_trimmed_bot(ctx: &ReducerContext, db: &mut Db, trimmed: &str, strategy: BotStrategy, identity: Identity) -> (r: Result<(), GameError>)
    requires
        old(db)@.wf(),
    ensures
        spawn_outcome(old(db)@, final(db)@, *ctx, trimmed@, strategy, identity, r),
        final(db)@.wf(),
{
    if trimmed.is_empty() || trimmed.as_bytes().len() > 32 {
        return Err(GameError::InvalidName);
    }
    assert(valid_name(trimmed@));
    if strategy == BotStrategy::Human {
        return Err(GameError::HumanStrategy);
    }
    if bot_name_taken(&db.bot, trimmed) {
        return Err(GameError::NameTaken);
    }
    if find_bot_index(&db.bot, identity).is_some() {
        return Err(GameError::SimulatedBotExists);
    }
    let ghost old_db = db@;
    db.bot.push(Bot {
        identity,
        name: trimmed.to_owned(),
        connected: true,
        registered_at: ctx.timestamp,
        is_simulated: true,
        strategy,
    });
    proof {
        assert(db@.bot.drop_last() =~= old_db.bot);
        assert(db@ =~= DbView { bot: db@.bot, ..old_db });
        lemma_push_bot_wf(old_db, db@);
    }
    Ok(())
}

/// Adds a simulated bot: `name` is trimmed of surrounding white space, and
/// `identity` is the identity that the host derives from the claims
/// ("sim", trimmed name).
pub fn spawn_simulated_bot(ctx: &ReducerContext, db: &mut Db, name: String, strategy: BotStrategy, identity: Identity) -> (r: Result<(), GameError>)
    requires
        old(db)@.wf(),
    ensures
        spawn_outcome(old(db)@, final(db)@, *ctx, str_trim(name@), strategy, identity, r),
        final(db)@.wf(),
{
    let trimmed = trim(name.as_str());
    spawn_trimmed_bot(ctx, db, trimmed, strategy, identity)
}

/// The bots with `connected` set to the given value on the caller's bot.
pub open spec fn set_connected(bots: Seq<Bot>, id: Identity, connected: bool) -> Seq<Bot> {
    bots.map_values(|b: Bot| if b.identity == id { Bot { connected, ..b } } else { b })
}

fn mark_connected(ctx: &ReducerContext, db: &mut Db, connected: bool)
    requires
        old(db)@.wf(),
    ensures
        final(db)@ == (DbView { bot: set_connected(old(db)@.bot, ctx.sender, connected), ..old(db)@ }),
        final(db)@.wf(),
{
    let ghost old_db = db@;
    match find_bot_index(&db.bot, ctx.sender) {
        Some(i) => {
            let mut b = db.bot[i].copy();
            b.connected = connected;
            db.bot[i] = b;
            proof {
                let s = old_db.bot;
                assert forall|k: int| 0 <= k < s.len() implies #[trigger] db@.bot[k] == set_connected(s, ctx.sender, connected)[k] by {
                    if k < i {
                        assert(s[k].identity != s[i as int].identity);
                    } else if k > i {
                        assert(s[i as int].identity != s[k].identity);
                    }
                }
                assert(db@.bot =~= set_connected(s, ctx.sender, connected));
                assert(db@ =~= DbView { bot: set_connected(s, ctx.sender, connected), ..old_db });
                let b2 = db@.bot;
                assert forall|p: int, q: int| #![trigger b2[p], b2[q]] 0 <= p < q < b2.len() implies b2[p].identity != b2[q].identity && b2[p].name@ != b2[q].name@ by {
                    assert(s[p].identity != s[q].identity && s[p].name@ != s[q].name@);
                }
            }
        },
        None => {
            proof {
                assert(set_connected(old_db.bot, ctx.sender, connected) =~= old_db.bot);
                assert(db@ =~= DbView { bot: set_connected(old_db.bot, ctx.sender, connected), ..old_db });
            }
        },
    }
}

/// Marks the caller's bot, if it has one, as connected.
pub fn client_connected(ctx: &ReducerContext, db: &mut Db)
    requires
        old(db)@.wf(),
    ensures
        final(db)@ == (DbView { bot: set_connected(old(db)@.bot, ctx.sender, true), ..old(db)@ }),
        final(db)@.wf(),
{
    mark_connected(ctx, db, true)
}

/// Marks the caller's bot, if it has one, as disconnected.
pub fn client_disconnected(ctx: &ReducerContext, db: &mut Db)
    requires
        old(db)@.wf(),
    ensures
        final(db)@ == (DbView { bot: set_connected(old(db)@.bot, ctx.sender, false), ..old(db)@ }),
        final(db)@.wf(),
{
    mark_connected(ctx, db, false)
}

/// Module start-up: there is nothing global to set up, matches and bags are
/// per match.
pub fn init(ctx: &ReducerContext, db: &mut Db)
    ensures
        final(db)@ == old(db)@,
{
}

} // verus!
