//! Playing a word: spending rack letters for currency.
use vstd::prelude::*;
use vstd::string::StrSliceExecFns;
use crate::types::{GameError, Holding, Identity, MatchParticipant, MatchStatus, ReducerContext, Timestamp, WordPlay};
use crate::db::{Db, DbView, Sequences, Row, has_id, row_with_id, replace_by_id, remove_by_id, ids_ok, id_differs, find_index, update_row, delete_row, insert_row, lemma_row_with_id_at, lemma_insert_ids, is_first, find_first, lemma_find_first_at, lemma_find_first_none};
use crate::bidding::{participant_of, find_participant, lemma_filter_ids, first_participant_at};
use crate::bag::lemma_replace_ids;
use crate::letters::{word_reward, spec_word_reward};
use crate::text::{byte_len, upper_ascii_all, all_upper_letters, to_ascii_uppercase, is_all_upper_letters};
use crate::dictionary::{Dictionary, is_valid_word, find_best_playable, first_playable, playable, word_bytes};

verus! {

pub open spec fn same_letter(c: char) -> spec_fn((char, u32)) -> bool {
    |e: (char, u32)| e.0 == c
}

/// One more of `c` in the list of needed letters: its entry counts one
/// more, or a new entry is added at the end.
pub open spec fn add_needed(list: Seq<(char, u32)>, c: char) -> Seq<(char, u32)> {
    match find_first(list, same_letter(c)) {
        Some(i) => list.update(i, (c, (list[i].1 + 1) as u32)),
        None => list.push((c, 1u32)),
    }
}

/// The letters a word needs, each with how often it occurs, in order of
/// first occurrence.
pub open spec fn needed_letters(s: Seq<char>) -> Seq<(char, u32)>
    decreases s.len(),
{
    if s.len() == 0 {
        Seq::empty()
    } else {
        add_needed(needed_letters(s.drop_last()), s.last())
    }
}

pub open spec fn is_holding_of(h: Holding, match_id: u64, bot: Identity) -> bool {
    h.match_id == match_id && h.bot == bot
}

pub open spec fn holding_of(match_id: u64, bot: Identity) -> spec_fn(Holding) -> bool {
    |h: Holding| is_holding_of(h, match_id, bot)
}

pub open spec fn holds_char(h: Holding, c: char) -> bool {
    h.letter@.len() > 0 && h.letter@[0] == c
}

/// The holding that stands for letter `c` in a rack: the last one whose
/// letter starts with `c`.
pub open spec fn holding_for(hs: Seq<Holding>, c: char) -> Option<Holding>
    decreases hs.len(),
{
    if hs.len() == 0 {
        None
    } else if holds_char(hs.last(), c) {
        Some(hs.last())
    } else {
        holding_for(hs.drop_last(), c)
    }
}

/// How many tiles of `c` the rack holds.
pub open spec fn have_count(hs: Seq<Holding>, c: char) -> u32 {
    match holding_for(hs, c) {
        Some(h) => h.count,
        None => 0,
    }
}

pub open spec fn short_of(hs: Seq<Holding>) -> spec_fn((char, u32)) -> bool {
    |e: (char, u32)| have_count(hs, e.0) < e.1
}

/// Spending the tiles of one needed letter: its holding is deleted when
/// nothing would be left, or else keeps the rest.
pub open spec fn spend_step(table: Seq<Holding>, hs: Seq<Holding>, e: (char, u32)) -> Seq<Holding> {
    let h = holding_for(hs, e.0)->0;
    if h.count - e.1 == 0 {
        remove_by_id(table, h.id)
    } else if has_id(table, h.id) {
        replace_by_id(table, Holding { count: (h.count - e.1) as u32, ..row_with_id(table, h.id) })
    } else {
        table
    }
}

/// The holdings after spending every needed letter in turn.
pub open spec fn spend(table: Seq<Holding>, hs: Seq<Holding>, needed: Seq<(char, u32)>) -> Seq<Holding>
    decreases needed.len(),
{
    if needed.len() == 0 {
        table
    } else {
        spend_step(spend(table, hs, needed.drop_last()), hs, needed.last())
    }
}

/// A word play as recorded.
pub open spec fn is_word_play(w: WordPlay, id: u64, p: MatchParticipant, word: Seq<char>, at: Timestamp) -> bool {
    &&& w.id == id
    &&& w.match_id == p.match_id
    &&& w.bot == p.bot
    &&& w.word@ == word
    &&& w.base_score == spec_word_reward(word).0
    &&& w.bonus == spec_word_reward(word).1
    &&& w.total_reward == spec_word_reward(word).2
    &&& w.played_at == at
}

/// The outcome of participant `p` playing `word`: refused, with nothing
/// changed, when the rack lacks a letter (the first such needed letter is
/// reported); otherwise the letters are spent, the reward is added to the
/// participant's balance and score, and the play is recorded.
pub open spec fn play_word_outcome(old_db: DbView, new_db: DbView, at: Timestamp, p: MatchParticipant, word: Seq<char>, r: Result<(), GameError>) -> bool {
    let hs = old_db.holding.filter(holding_of(p.match_id, p.bot));
    let needed = needed_letters(word);
    match find_first(needed, short_of(hs)) {
        Some(k) => r == Err::<(), GameError>(GameError::NotEnoughLetters(needed[k].0, needed[k].1, have_count(hs, needed[k].0)))
            && new_db == old_db,
        None => {
            let total = spec_word_reward(word).2;
            &&& r == Ok::<(), GameError>(())
            &&& new_db.word_play.len() == old_db.word_play.len() + 1
            &&& new_db.word_play.drop_last() == old_db.word_play
            &&& is_word_play(new_db.word_play.last(), old_db.next.word_play, p, word, at)
            &&& new_db == (DbView {
                holding: spend(old_db.holding, hs, needed),
                match_participant: replace_by_id(old_db.match_participant, MatchParticipant {
                    balance: (p.balance + total) as i64,
                    score: (p.score + total) as i64,
                    ..p
                }),
                word_play: new_db.word_play,
                next: Sequences { word_play: (old_db.next.word_play + 1) as u64, ..old_db.next },
                ..old_db
            })
        },
    }
}

/// The needed letters of a word, with their counts.
fn needed_letters_exec(word: &str) -> (r: Vec<(char, u32)>)
    requires
        word@.len() < u32::MAX,
    ensures
        r@ == needed_letters(word@),
        forall|j: int| 0 <= j < r@.len() ==> 1 <= (#[trigger] r@[j]).1 <= word@.len(),
{
    let n = word.unicode_len();
    let mut list: Vec<(char, u32)> = Vec::new();
    let mut i: usize = 0;
    proof {
        assert(word@.take(0) =~= Seq::<char>::empty());
    }
    while i < n
        invariant
            n == word@.len(),
            n < u32::MAX,
            i <= n,
            list@ == needed_letters(word@.take(i as int)),
            forall|j: int| 0 <= j < list@.len() ==> 1 <= (#[trigger] list@[j]).1 <= i,
        decreases n - i,
    {
        let c = word.get_char(i);
        proof {
            assert(word@.take(i + 1).drop_last() =~= word@.take(i as int));
        }
        let m = list.len();
        let mut j: usize = 0;
        while j < m
            invariant
                m == list@.len(),
                j <= m,
                forall|q: int| 0 <= q < j ==> !same_letter(c)(#[trigger] list@[q]),
            ensures
                j <= m,
                forall|q: int| 0 <= q < j ==> !same_letter(c)(#[trigger] list@[q]),
                j < m ==> same_letter(c)(list@[j as int]),
            decreases m - j,
        {
            if list[j].0 == c {
                break;
            }
            j = j + 1;
        }
        if j < m {
            proof {
                assert(is_first(list@, same_letter(c), j as int));
                lemma_find_first_at(list@, same_letter(c), j as int);
            }
            let cnt = list[j].1;
            list[j] = (c, cnt + 1);
        } else {
            proof {
                lemma_find_first_none(list@, same_letter(c));
            }
            list.push((c, 1));
        }
        i = i + 1;
    }
    proof {
        assert(word@.take(n as int) =~= word@);
    }
    list
}

/// The holdings of the bot in the match, in table order.
pub fn holdings_of(db: &Db, match_id: u64, bot: Identity) -> (r: Vec<Holding>)
    ensures
        r@ == db@.holding.filter(holding_of(match_id, bot)),
{
    let ghost s = db@.holding;
    let mut out: Vec<Holding> = Vec::new();
    let n = db.holding.len();
    let mut i: usize = 0;
    proof {
        reveal(Seq::filter);
        assert(s.take(0) =~= Seq::<Holding>::empty());
    }
    while i < n
        invariant
            n == s.len(),
            s == db@.holding,
            i <= n,
            out@ == s.take(i as int).filter(holding_of(match_id, bot)),
        decreases n - i,
    {
        let h = &db.holding[i];
        if h.match_id == match_id && h.bot == bot {
            out.push(h.copy());
        }
        proof {
            reveal(Seq::filter);
            assert(s.take(i + 1).drop_last() =~= s.take(i as int));
        }
        i = i + 1;
    }
    proof {
        assert(s.take(n as int) =~= s);
    }
    out
}

/// The index of the holding that stands for `c`, if any.
fn find_holding_for(hs: &Vec<Holding>, c: char) -> (r: Option<usize>)
    ensures
        match r {
            Some(i) => i < hs@.len() && holding_for(hs@, c) == Some(hs@[i as int]),
            None => holding_for(hs@, c) is None,
        },
{
    let mut i: usize = hs.len();
    proof {
        assert(hs@.take(i as int) =~= hs@);
    }
    while i > 0
        invariant
            i <= hs@.len(),
            holding_for(hs@, c) == holding_for(hs@.take(i as int), c),
        decreases i,
    {
        let h = &hs[i - 1];
        let s = h.letter.as_str();
        proof {
            assert(hs@.take(i as int).last() == hs@[i - 1]);
            assert(hs@.take(i as int).drop_last() =~= hs@.take(i - 1));
        }
        if s.unicode_len() > 0 && s.get_char(0) == c {
            return Some(i - 1);
        }
        i = i - 1;
    }
    None
}

proof fn lemma_holding_for_member(hs: Seq<Holding>, c: char)
    ensures
        holding_for(hs, c) matches Some(h) ==> hs.contains(h) && holds_char(h, c),
    decreases hs.len(),
{
    if hs.len() > 0 {
        lemma_holding_for_member(hs.drop_last(), c);
        if !holds_char(hs.last(), c) {
            if holding_for(hs.drop_last(), c) is Some {
                let h = holding_for(hs.drop_last(), c)->0;
                let k = choose|k: int| 0 <= k < hs.drop_last().len() && hs.drop_last()[k] == h;
                assert(hs[k] == h);
            }
        } else {
            assert(hs[hs.len() - 1] == hs.last());
        }
    }
}

/// Within the play-word headroom: balances and scores far from the limits
/// of `i64`.
pub open spec fn modest(x: i64) -> bool {
    -0x4000_0000_0000_0000 <= x <= 0x4000_0000_0000_0000
}

/// Participant `participant` plays `word_upper`, an upper-case word.
pub fn play_word(ctx: &ReducerContext, db: &mut Db, participant: MatchParticipant, word_upper: &str) -> (r: Result<(), GameError>)
    requires
        old(db)@.wf(),
        has_id(old(db)@.match_participant, participant.id),
        byte_len(word_upper@) < u32::MAX,
        old(db)@.next.word_play < u64::MAX,
        modest(participant.balance),
        modest(participant.score),
    ensures
        play_word_outcome(old(db)@, final(db)@, ctx.timestamp, participant, word_upper@, r),
        final(db)@.wf(),
{
    let ghost old_db = db@;
    proof {
        crate::letters::lemma_byte_len_at_least_len(word_upper@);
        crate::letters::lemma_reward_bounds(word_upper@);
    }
    let needed = needed_letters_exec(word_upper);
    let hs = holdings_of(db, participant.match_id, participant.bot);
    let ghost sh = short_of(hs@);
    let m = needed.len();
    let mut k: usize = 0;
    while k < m
        invariant
            m == needed@.len(),
            k <= m,
            sh == short_of(hs@),
            old_db == old(db)@,
            db@ == old_db,
            old_db.wf(),
            needed@ == needed_letters(word_upper@),
            hs@ == old_db.holding.filter(holding_of(participant.match_id, participant.bot)),
            forall|q: int| 0 <= q < k ==> !sh(#[trigger] needed@[q]),
        decreases m - k,
    {
        let (c, n) = needed[k];
        let have: u32 = match find_holding_for(&hs, c) {
            Some(i) => hs[i].count,
            None => 0,
        };
        if have < n {
            proof {
                assert(is_first(needed@, sh, k as int));
                lemma_find_first_at(needed@, sh, k as int);
            }
            return Err(GameError::NotEnoughLetters(c, n, have));
        }
        k = k + 1;
    }
    proof {
        lemma_find_first_none(needed@, sh);
    }
    let mut k: usize = 0;
    proof {
        assert(needed@.take(0) =~= Seq::<(char, u32)>::empty());
    }
    while k < m
        invariant
            m == needed@.len(),
            k <= m,
            sh == short_of(hs@),
            forall|q: int| 0 <= q < m ==> !sh(#[trigger] needed@[q]),
            forall|q: int| 0 <= q < m ==> 1 <= (#[trigger] needed@[q]).1,
            hs@ == old_db.holding.filter(holding_of(participant.match_id, participant.bot)),
            db@.holding == spend(old_db.holding, hs@, needed@.take(k as int)),
            ids_ok(db@.holding, db@.next.holding),
            db@ == (DbView { holding: db@.holding, ..old_db }),
            old_db.wf(),
        decreases m - k,
    {
        let (c, n) = needed[k];
        proof {
            assert(!sh(needed@[k as int]));
            assert(needed@.take(k + 1).drop_last() =~= needed@.take(k as int));
            assert(needed@.take(k + 1).last() == needed@[k as int]);
        }
        let i = find_holding_for(&hs, c).unwrap();
        let hid = hs[i].id;
        let ct = hs[i].count;
        let new_ct = ct - n;
        let ghost before = db@.holding;
        if new_ct == 0 {
            delete_row(&mut db.holding, hid);
            proof {
                lemma_filter_ids(before, db@.next.holding, id_differs::<Holding>(hid));
            }
        } else {
            match find_index(&db.holding, hid) {
                Some(t) => {
                    proof {
                        lemma_row_with_id_at(before, t as int);
                    }
                    let h = db.holding[t].copy();
                    let updated = Holding { id: h.id, match_id: h.match_id, bot: h.bot, letter: h.letter, count: new_ct };
                    proof {
                        lemma_replace_ids(before, db@.next.holding, updated);
                    }
                    update_row(&mut db.holding, updated);
                },
                None => {},
            }
        }
        proof {
            assert(db@ =~= (DbView { holding: db@.holding, ..old_db }));
        }
        k = k + 1;
    }
    proof {
        assert(needed@.take(m as int) =~= needed@);
    }
    let (base, bonus, total) = word_reward(word_upper);
    let ghost mid = db@;
    let updated = MatchParticipant { balance: participant.balance + total, score: participant.score + total, ..participant };
    proof {
        lemma_replace_ids(db@.match_participant, db@.next.match_participant, updated);
    }
    update_row(&mut db.match_participant, updated);
    let play = WordPlay {
        id: 0,
        match_id: participant.match_id,
        bot: participant.bot,
        word: word_upper.to_owned(),
        base_score: base,
        bonus,
        total_reward: total,
        played_at: ctx.timestamp,
    };
    proof {
        lemma_insert_ids(db@.word_play, db@.next.word_play, play);
    }
    insert_row(&mut db.word_play, &mut db.next.word_play, play);
    proof {
        assert(db@.word_play.drop_last() =~= old_db.word_play);
        assert(db@ =~= (DbView {
            holding: spend(old_db.holding, hs@, needed@),
            match_participant: replace_by_id(old_db.match_participant, updated),
            word_play: db@.word_play,
            next: Sequences { word_play: (old_db.next.word_play + 1) as u64, ..old_db.next },
            ..old_db
        }));
    }
    Ok(())
}

/// Balances and scores of all participants are within the play-word
/// headroom.
pub open spec fn modest_participants(ps: Seq<MatchParticipant>) -> bool {
    forall|i: int| 0 <= i < ps.len() ==> modest((#[trigger] ps[i]).balance) && modest(ps[i].score)
}

pub proof fn lemma_participant_in_table(ps: Seq<MatchParticipant>, match_id: u64, bot: Identity)
    requires
        participant_of(ps, match_id, bot) is Some,
        ids_ok(ps, u64::MAX),
    ensures
        ps.contains(participant_of(ps, match_id, bot)->0),
        has_id(ps, (participant_of(ps, match_id, bot)->0).id),
        participant_of(ps, match_id, bot)->0 .match_id == match_id,
        participant_of(ps, match_id, bot)->0 .bot == bot,
{
    let i = choose|i: int| first_participant_at(ps, match_id, bot, i);
    assert(ps[i].row_id() == ps[i].id);
}

proof fn lemma_upper_fixed(t: Seq<char>)
    requires
        all_upper_letters(t),
    ensures
        upper_ascii_all(t) == t,
{
    assert(upper_ascii_all(t) =~= t);
}

/// The outcome of the caller playing `word` in the match.
pub open spec fn submit_word_outcome(old_db: DbView, new_db: DbView, ctx: ReducerContext, dict: &Dictionary, match_id: u64, word: Seq<char>, r: Result<(), GameError>) -> bool {
    let up = upper_ascii_all(word);
    let p = participant_of(old_db.match_participant, match_id, ctx.sender);
    if !has_id(old_db.match_state, match_id) {
        r == Err::<(), GameError>(GameError::UnknownMatch) && new_db == old_db
    } else if row_with_id(old_db.match_state, match_id).status != MatchStatus::Running {
        r == Err::<(), GameError>(GameError::MatchNotRunning) && new_db == old_db
    } else if p is None {
        r == Err::<(), GameError>(GameError::NotInMatch) && new_db == old_db
    } else if byte_len(up) < 2 {
        r == Err::<(), GameError>(GameError::WordTooShort) && new_db == old_db
    } else if !all_upper_letters(up) {
        r == Err::<(), GameError>(GameError::WordNotAlphabetic) && new_db == old_db
    } else if !dict.lex_words().contains(up) {
        (r matches Err(GameError::NotInDictionary(w)) && w@ == up) && new_db == old_db
    } else {
        play_word_outcome(old_db, new_db, ctx.timestamp, p->0, up, r)
    }
}

/// The caller plays `word` (upper-cased) in the match.
pub fn submit_word(ctx: &ReducerContext, db: &mut Db, dict: &Dictionary, match_id: u64, word: String) -> (r: Result<(), GameError>)
    requires
        old(db)@.wf(),
        dict.wf(),
        old(db)@.next.word_play < u64::MAX,
        modest_participants(old(db)@.match_participant),
    ensures
        submit_word_outcome(old(db)@, final(db)@, *ctx, dict, match_id, word@, r),
        final(db)@.wf(),
{
    let i = match find_index(&db.match_state, match_id) {
        Some(i) => i,
        None => {
            return Err(GameError::UnknownMatch);
        },
    };
    proof {
        lemma_row_with_id_at(db@.match_state, i as int);
    }
    if db.match_state[i].status != MatchStatus::Running {
        return Err(GameError::MatchNotRunning);
    }
    let participant = match find_participant(db, match_id, ctx.sender) {
        Some(p) => p,
        None => {
            return Err(GameError::NotInMatch);
        },
    };
    proof {
        lemma_participant_in_table(db@.match_participant, match_id, ctx.sender);
    }
    let word_upper = to_ascii_uppercase(word.as_str());
    let ghost up = upper_ascii_all(word@);
    if word_upper.as_str().as_bytes().len() < 2 {
        return Err(GameError::WordTooShort);
    }
    if !is_all_upper_letters(word_upper.as_str()) {
        return Err(GameError::WordNotAlphabetic);
    }
    proof {
        lemma_upper_fixed(up);
        crate::dictionary::lemma_upper_byte_len_pub(up);
    }
    if !is_valid_word(dict, word_upper.as_str()) {
        return Err(GameError::NotInDictionary(word_upper));
    }
    proof {
        let lex = dict.lex_words();
        let j = choose|j: int| 0 <= j < lex.len() && lex[j] == up;
        assert(word_bytes(lex[j]).len() < u32::MAX);
        let ps = db@.match_participant;
        let k = choose|k: int| 0 <= k < ps.len() && ps[k] == participant;
        assert(modest(ps[k].balance) && modest(ps[k].score));
    }
    play_word(ctx, db, participant, word_upper.as_str())
}

/// The rack that a holding list makes: for each holding whose letter is not
/// empty, its first character and its count.
pub open spec fn rack_of(hs: Seq<Holding>) -> Seq<(char, u32)>
    decreases hs.len(),
{
    if hs.len() == 0 {
        Seq::empty()
    } else if hs.last().letter@.len() > 0 {
        rack_of(hs.drop_last()).push((hs.last().letter@[0], hs.last().count))
    } else {
        rack_of(hs.drop_last())
    }
}

fn rack_of_exec(hs: &Vec<Holding>) -> (r: Vec<(char, u32)>)
    ensures
        r@ == rack_of(hs@),
{
    let mut rack: Vec<(char, u32)> = Vec::new();
    let n = hs.len();
    let mut i: usize = 0;
    proof {
        assert(hs@.take(0) =~= Seq::<Holding>::empty());
    }
    while i < n
        invariant
            n == hs@.len(),
            i <= n,
            rack@ == rack_of(hs@.take(i as int)),
        decreases n - i,
    {
        let s = hs[i].letter.as_str();
        proof {
            assert(hs@.take(i + 1).drop_last() =~= hs@.take(i as int));
            assert(hs@.take(i + 1).last() == hs@[i as int]);
        }
        if s.unicode_len() > 0 {
            rack.push((s.get_char(0), hs[i].count));
        }
        i = i + 1;
    }
    proof {
        assert(hs@.take(n as int) =~= hs@);
    }
    rack
}

/// The outcome of a simulated bot's turn at playing a word: when it takes
/// part in the match and its rack spells a word of at least three letters,
/// it plays the longest such word (the first in byte order among those);
/// otherwise nothing changes.
pub open spec fn simulate_word_play_outcome(old_db: DbView, new_db: DbView, at: Timestamp, dict: &Dictionary, match_id: u64, bot: Identity) -> bool {
    let p = participant_of(old_db.match_participant, match_id, bot);
    let rack = rack_of(old_db.holding.filter(holding_of(match_id, bot)));
    let words = dict.length_words();
    if p is None {
        new_db == old_db
    } else if forall|i: int| 0 <= i < words.len() ==> !playable(word_bytes(#[trigger] words[i]), rack, 3) {
        new_db == old_db
    } else {
        exists|i: int, r: Result<(), GameError>| first_playable(words, rack, 3, i) && play_word_outcome(old_db, new_db, at, p->0, words[i], r)
    }
}

/// A simulated bot that has just won a letter plays the best word its rack
/// spells, if any.
pub fn simulate_word_play(ctx: &ReducerContext, db: &mut Db, dict: &Dictionary, match_id: u64, bot_identity: Identity)
    requires
        old(db)@.wf(),
        dict.wf(),
        old(db)@.next.word_play < u64::MAX,
        modest_participants(old(db)@.match_participant),
    ensures
        simulate_word_play_outcome(old(db)@, final(db)@, ctx.timestamp, dict, match_id, bot_identity),
        final(db)@.wf(),
{
    let participant = match find_participant(db, match_id, bot_identity) {
        Some(p) => p,
        None => {
            return;
        },
    };
    proof {
        lemma_participant_in_table(db@.match_participant, match_id, bot_identity);
        let ps = db@.match_participant;
        let k = choose|k: int| 0 <= k < ps.len() && ps[k] == participant;
        assert(modest(ps[k].balance) && modest(ps[k].score));
    }
    let holdings = holdings_of(db, match_id, bot_identity);
    let rack = rack_of_exec(&holdings);
    let word = match find_best_playable(dict, &rack, 3) {
        Some(w) => w,
        None => {
            return;
        },
    };
    let ghost i = choose|i: int| first_playable(dict.length_words(), rack@, 3, i) && word@ == dict.length_words()[i];
    proof {
        let l = dict.length_words();
        assert(word_bytes(l[i]).len() < u32::MAX);
    }
    let r = play_word(ctx, db, participant, word.as_str());
}

/// Some element satisfying `p` makes a first one exist.
proof fn lemma_first_exists<T>(s: Seq<T>, p: spec_fn(T) -> bool, q: int)
    requires
        0 <= q < s.len(),
        p(s[q]),
    ensures
        find_first(s, p) is Some,
    decreases q,
{
    if exists|j: int| 0 <= j < q && p(#[trigger] s[j]) {
        let j = choose|j: int| 0 <= j < q && p(#[trigger] s[j]);
        lemma_first_exists(s, p, j);
    } else {
        assert(is_first(s, p, q));
    }
}

/// The needed letters are distinct, each needed at least once.
proof fn lemma_needed_shape(s: Seq<char>)
    requires
        s.len() < u32::MAX,
    ensures
        forall|j: int| 0 <= j < needed_letters(s).len() ==> 1 <= (#[trigger] needed_letters(s)[j]).1 <= s.len(),
        forall|i: int, j: int| #![trigger needed_letters(s)[i], needed_letters(s)[j]]
            0 <= i < j < needed_letters(s).len() ==> needed_letters(s)[i].0 != needed_letters(s)[j].0,
    decreases s.len(),
{
    if s.len() > 0 {
        let prev = needed_letters(s.drop_last());
        lemma_needed_shape(s.drop_last());
        let c = s.last();
        match find_first(prev, same_letter(c)) {
            Some(i) => {
                let k = choose|k: int| is_first(prev, same_letter(c), k);
            },
            None => {
                assert forall|q: int| 0 <= q < prev.len() implies (#[trigger] prev[q]).0 != c by {
                    if prev[q].0 == c {
                        lemma_first_exists(prev, same_letter(c), q);
                    }
                }
            },
        }
    }
}

/// The holding that stands for needed letter `k`, before the play.
pub open spec fn spent_holding(hs: Seq<Holding>, needed: Seq<(char, u32)>, k: int) -> Holding {
    holding_for(hs, needed[k].0)->0
}

/// What spending the first `m` needed letters has done to the holdings
/// table.
spec fn spent_upto(table: Seq<Holding>, hs: Seq<Holding>, needed: Seq<(char, u32)>, m: int, t: Seq<Holding>, next: u64) -> bool {
    &&& ids_ok(t, next)
    &&& forall|i: int| 0 <= i < t.len() ==> has_id(table, (#[trigger] t[i]).id)
    &&& forall|i: int| 0 <= i < table.len() && (forall|k: int| 0 <= k < m ==> table[i].id != (#[trigger] spent_holding(hs, needed, k)).id)
        ==> t.contains(#[trigger] table[i])
    &&& forall|k: int| 0 <= k < m ==> {
        let h = #[trigger] spent_holding(hs, needed, k);
        &&& h.count == needed[k].1 ==> !has_id(t, h.id)
        &&& h.count > needed[k].1 ==> has_id(t, h.id) && row_with_id(t, h.id) == Holding { count: (h.count - needed[k].1) as u32, ..h }
    }
}

proof fn lemma_row_in_unique<R: Row>(t: Seq<R>, x: R)
    requires
        t.contains(x),
        forall|a: int, b: int| #![trigger t[a], t[b]] 0 <= a < b < t.len() ==> t[a].row_id() != t[b].row_id(),
    ensures
        has_id(t, x.row_id()),
        row_with_id(t, x.row_id()) == x,
{
    let j = choose|j: int| 0 <= j < t.len() && t[j] == x;
    lemma_row_with_id_at(t, j);
}

proof fn lemma_spend_steps(table: Seq<Holding>, hs: Seq<Holding>, needed: Seq<(char, u32)>, m: int, next: u64)
    requires
        0 <= m <= needed.len(),
        ids_ok(table, next),
        forall|k: int| 0 <= k < needed.len() ==> #[trigger] holding_for(hs, needed[k].0) is Some,
        forall|k: int| 0 <= k < needed.len() ==> table.contains(#[trigger] spent_holding(hs, needed, k)),
        forall|k: int| 0 <= k < needed.len() ==> (#[trigger] spent_holding(hs, needed, k)).count >= needed[k].1,
        forall|a: int, b: int| #![trigger spent_holding(hs, needed, a), spent_holding(hs, needed, b)]
            0 <= a < b < needed.len() ==> spent_holding(hs, needed, a).id != spent_holding(hs, needed, b).id,
    ensures
        spent_upto(table, hs, needed, m, spend(table, hs, needed.take(m)), next),
    decreases m,
{
    let t = spend(table, hs, needed.take(m));
    if m == 0 {
        assert(needed.take(0) =~= Seq::<(char, u32)>::empty());
        assert forall|i: int| 0 <= i < t.len() implies has_id(table, (#[trigger] t[i]).id) by {
            assert(table[i].row_id() == t[i].id);
        }
        assert forall|i: int| 0 <= i < table.len() implies t.contains(#[trigger] table[i]) by {
            assert(t[i] == table[i]);
        }
    } else {
        lemma_spend_steps(table, hs, needed, m - 1, next);
        let prev = spend(table, hs, needed.take(m - 1));
        assert(needed.take(m).drop_last() =~= needed.take(m - 1));
        assert(needed.take(m).last() == needed[m - 1]);
        let e = needed[m - 1];
        let h = spent_holding(hs, needed, m - 1);
        assert(t == spend_step(prev, hs, e));
        // The holding of this letter is still untouched.
        let ht = choose|ht: int| 0 <= ht < table.len() && table[ht] == h;
        assert forall|k: int| 0 <= k < m - 1 implies table[ht].id != (#[trigger] spent_holding(hs, needed, k)).id by {
        }
        assert(prev.contains(table[ht]));
        lemma_row_in_unique(prev, h);
        if h.count - e.1 == 0 {
            broadcast use vstd::seq_lib::group_filter_ensures;
            assert(t == prev.filter(id_differs::<Holding>(h.id)));
            lemma_filter_ids(prev, next, id_differs::<Holding>(h.id));
            assert forall|i: int| 0 <= i < t.len() implies has_id(table, (#[trigger] t[i]).id) by {
                prev.lemma_filter_contains_rev(id_differs::<Holding>(h.id), t[i]);
                let j = choose|j: int| 0 <= j < prev.len() && prev[j] == t[i];
            }
            assert forall|i: int| 0 <= i < table.len() && (forall|k: int| 0 <= k < m ==> table[i].id != (#[trigger] spent_holding(hs, needed, k)).id)
                implies t.contains(#[trigger] table[i]) by {
                assert(table[i].id != spent_holding(hs, needed, m - 1).id);
                assert(prev.contains(table[i]));
                let j = choose|j: int| 0 <= j < prev.len() && prev[j] == table[i];
                prev.lemma_filter_contains(id_differs::<Holding>(h.id), j);
            }
            assert forall|k: int| 0 <= k < m implies {
                let g = #[trigger] spent_holding(hs, needed, k);
                &&& g.count == needed[k].1 ==> !has_id(t, g.id)
                &&& g.count > needed[k].1 ==> has_id(t, g.id) && row_with_id(t, g.id) == Holding { count: (g.count - needed[k].1) as u32, ..g }
            } by {
                let g = spent_holding(hs, needed, k);
                if has_id(t, g.id) {
                    // A row left by the deletion was already in the table.
                    let j = choose|j: int| 0 <= j < t.len() && (#[trigger] t[j]).row_id() == g.id;
                    prev.lemma_filter_contains_rev(id_differs::<Holding>(h.id), t[j]);
                    assert(t.contains(t[j]));
                    assert(id_differs::<Holding>(h.id)(t[j]));
                    if k < m - 1 {
                        let pj = choose|pj: int| 0 <= pj < prev.len() && prev[pj] == t[j];
                        assert(has_id(prev, g.id));
                    }
                }
                if k < m - 1 && g.count > needed[k].1 {
                    let pj = choose|pj: int| 0 <= pj < prev.len() && (#[trigger] prev[pj]).row_id() == g.id;
                    lemma_row_with_id_at(prev, pj);
                    prev.lemma_filter_contains(id_differs::<Holding>(h.id), pj);
                    lemma_row_in_unique(t, prev[pj]);
                }
            }
        } else {
            let row = Holding { count: (h.count - e.1) as u32, ..row_with_id(prev, h.id) };
            assert(t == replace_by_id(prev, row));
            lemma_replace_ids(prev, next, row);
            crate::bag::lemma_row_after_replace(prev, next, row);
            assert forall|i: int| 0 <= i < t.len() implies has_id(table, (#[trigger] t[i]).id) by {
                assert(t[i].id == prev[i].id);
            }
            assert forall|i: int| 0 <= i < table.len() && (forall|k: int| 0 <= k < m ==> table[i].id != (#[trigger] spent_holding(hs, needed, k)).id)
                implies t.contains(#[trigger] table[i]) by {
                assert(table[i].id != spent_holding(hs, needed, m - 1).id);
                assert(prev.contains(table[i]));
                let j = choose|j: int| 0 <= j < prev.len() && prev[j] == table[i];
                assert(t[j] == prev[j]);
            }
            assert forall|k: int| 0 <= k < m implies {
                let g = #[trigger] spent_holding(hs, needed, k);
                &&& g.count == needed[k].1 ==> !has_id(t, g.id)
                &&& g.count > needed[k].1 ==> has_id(t, g.id) && row_with_id(t, g.id) == Holding { count: (g.count - needed[k].1) as u32, ..g }
            } by {
                let g = spent_holding(hs, needed, k);
                if k < m - 1 {
                    assert(g.id != h.id);
                    if has_id(t, g.id) {
                        let j = choose|j: int| 0 <= j < t.len() && (#[trigger] t[j]).row_id() == g.id;
                        assert(t[j] == prev[j]);
                    }
                    if g.count > needed[k].1 {
                        let pj = choose|pj: int| 0 <= pj < prev.len() && (#[trigger] prev[pj]).row_id() == g.id;
                        lemma_row_with_id_at(prev, pj);
                        assert(t[pj] == prev[pj]);
                        lemma_row_with_id_at(t, pj);
                    }
                }
            }
        }
    }
}

/// A word play that succeeds takes exactly the word's letters from the
/// player's rack: the holding that stands for each needed letter loses as
/// many tiles as the word uses, and is gone when none are left; every other
/// holding stays as it was.
pub proof fn lemma_play_spends_word(old_db: DbView, new_db: DbView, at: Timestamp, p: MatchParticipant, word: Seq<char>, r: Result<(), GameError>)
    requires
        old_db.wf(),
        play_word_outcome(old_db, new_db, at, p, word, r),
        r is Ok,
        word.len() < u32::MAX,
    ensures
        forall|k: int| 0 <= k < needed_letters(word).len() ==> {
            let h = #[trigger] spent_holding(old_db.holding.filter(holding_of(p.match_id, p.bot)), needed_letters(word), k);
            let n = needed_letters(word)[k].1;
            &&& h.count >= n
            &&& h.count == n ==> !has_id(new_db.holding, h.id)
            &&& h.count > n ==> has_id(new_db.holding, h.id) && row_with_id(new_db.holding, h.id) == Holding { count: (h.count - n) as u32, ..h }
        },
        forall|i: int| 0 <= i < old_db.holding.len()
            && (forall|k: int| 0 <= k < needed_letters(word).len()
                ==> old_db.holding[i].id != (#[trigger] spent_holding(old_db.holding.filter(holding_of(p.match_id, p.bot)), needed_letters(word), k)).id)
            ==> new_db.holding.contains(#[trigger] old_db.holding[i]),
{
    let table = old_db.holding;
    let hs = table.filter(holding_of(p.match_id, p.bot));
    let needed = needed_letters(word);
    lemma_needed_shape(word);
    if let Some(k) = find_first(needed, short_of(hs)) {
        assert(false);
    }
    assert forall|k: int| 0 <= k < needed.len() implies !short_of(hs)(#[trigger] needed[k]) by {
        if short_of(hs)(needed[k]) {
            lemma_first_exists(needed, short_of(hs), k);
        }
    }
    assert forall|k: int| 0 <= k < needed.len() implies #[trigger] holding_for(hs, needed[k].0) is Some by {
        assert(!short_of(hs)(needed[k]));
        assert(needed[k].1 >= 1);
    }
    assert forall|k: int| 0 <= k < needed.len() implies table.contains(#[trigger] spent_holding(hs, needed, k)) by {
        assert(holding_for(hs, needed[k].0) is Some);
        lemma_holding_for_member(hs, needed[k].0);
        table.lemma_filter_contains_rev(holding_of(p.match_id, p.bot), spent_holding(hs, needed, k));
    }
    assert forall|k: int| 0 <= k < needed.len() implies (#[trigger] spent_holding(hs, needed, k)).count >= needed[k].1 by {
        assert(!short_of(hs)(needed[k]));
        assert(holding_for(hs, needed[k].0) is Some);
    }
    assert forall|a: int, b: int| #![trigger spent_holding(hs, needed, a), spent_holding(hs, needed, b)]
        0 <= a < b < needed.len() implies spent_holding(hs, needed, a).id != spent_holding(hs, needed, b).id by {
        let ha = spent_holding(hs, needed, a);
        let hb = spent_holding(hs, needed, b);
        assert(holding_for(hs, needed[a].0) is Some);
        assert(holding_for(hs, needed[b].0) is Some);
        lemma_holding_for_member(hs, needed[a].0);
        lemma_holding_for_member(hs, needed[b].0);
        assert(needed[a].0 != needed[b].0);
        table.lemma_filter_contains_rev(holding_of(p.match_id, p.bot), ha);
        table.lemma_filter_contains_rev(holding_of(p.match_id, p.bot), hb);
        let ia = choose|ia: int| 0 <= ia < table.len() && table[ia] == ha;
        let ib = choose|ib: int| 0 <= ib < table.len() && table[ib] == hb;
        if ia != ib {
            if ia < ib { assert(table[ia].row_id() != table[ib].row_id()); } else { assert(table[ib].row_id() != table[ia].row_id()); }
        }
    }
    lemma_spend_steps(table, hs, needed, needed.len() as int, old_db.next.holding);
    assert(needed.take(needed.len() as int) =~= needed);
}

/// Playing a word is the same as playing it upper-cased: the outcome, the
/// result and any recorded word are those of the upper-case form.
pub proof fn lemma_submit_word_upper(old_db: DbView, new_db: DbView, ctx: ReducerContext, dict: &Dictionary, match_id: u64, word: Seq<char>, r: Result<(), GameError>)
    ensures
        submit_word_outcome(old_db, new_db, ctx, dict, match_id, word, r)
            <==> submit_word_outcome(old_db, new_db, ctx, dict, match_id, upper_ascii_all(word), r),
{
    assert(upper_ascii_all(upper_ascii_all(word)) =~= upper_ascii_all(word));
}

} // verus!
