//! A match's bag of letters: drawing a random tile, and returning an unsold
//! one.
use vstd::prelude::*;
use rand::rngs::StdRng;
use crate::types::{BagLetter, Match};
use crate::db::{Db, DbView, Row, has_id, row_with_id, replace_by_id, find_index, update_row, insert_row, lemma_row_with_id_at, lemma_insert_ids, ids_ok, is_first, find_first, lemma_find_first_at, lemma_find_first_none};
use crate::sorting::{Ranked, sort_ranked, insert_ranked, stable_sort, lemma_sort_ranked_multiset};
use crate::text::{compare_text, Comparison, text_less, same_text};
use crate::rng::random_below;

verus! {

impl Ranked for BagLetter {
    /// Letters in byte order.
    open spec fn precedes(&self, other: &Self) -> bool {
        text_less(self.letter@, other.letter@)
    }

    fn precedes_exec(&self, other: &Self) -> (b: bool) {
        proof {
            crate::text::lemma_bytes_less_irreflexive(vstd::utf8::encode_utf8(self.letter@));
        }
        compare_text(self.letter.as_str(), other.letter.as_str()) == Comparison::Less
    }
}

pub open spec fn in_bag_of(b: BagLetter, match_id: u64) -> bool {
    b.match_id == match_id && b.remaining > 0
}

pub open spec fn in_bag(match_id: u64) -> spec_fn(BagLetter) -> bool {
    |b: BagLetter| in_bag_of(b, match_id)
}

/// The match's bag rows that still hold tiles, in letter order.
pub open spec fn bag_entries(rows: Seq<BagLetter>, match_id: u64) -> Seq<BagLetter> {
    sort_ranked(rows.filter(in_bag(match_id)))
}

/// Which entry the tile at position `idx` belongs to, counting tiles entry
/// by entry in order; `None` when there are no more than `idx` tiles.
pub open spec fn pick_index(s: Seq<BagLetter>, idx: int) -> Option<int>
    decreases s.len(),
{
    if s.len() == 0 {
        None
    } else if idx < s[0].remaining {
        Some(0)
    } else {
        match pick_index(s.drop_first(), idx - s[0].remaining) {
            Some(k) => Some(k + 1),
            None => None,
        }
    }
}

pub proof fn lemma_pick_index_bounds(s: Seq<BagLetter>, idx: int)
    ensures
        pick_index(s, idx) matches Some(k) ==> 0 <= k < s.len(),
    decreases s.len(),
{
    if s.len() > 0 {
        lemma_pick_index_bounds(s.drop_first(), idx - s[0].remaining);
    }
}

/// The outcome of drawing tile `idx` of match `m`'s bag: the tile's entry
/// loses one tile, the match's bag total drops by one, and the letter is
/// returned; nothing changes when no tile is at `idx`.
pub open spec fn draw_outcome(old_db: DbView, new_db: DbView, m: Match, idx: int, r: Option<String>) -> bool {
    let e = bag_entries(old_db.bag_letter, m.id);
    match pick_index(e, idx) {
        Some(k) => {
            &&& r matches Some(l) && l@ == e[k].letter@
            &&& new_db == (DbView {
                bag_letter: replace_by_id(old_db.bag_letter, BagLetter { remaining: (e[k].remaining - 1) as u32, ..e[k] }),
                match_state: replace_by_id(old_db.match_state, Match { bag_total: (m.bag_total - 1) as u32, ..m }),
                ..old_db
            })
        },
        None => r is None && new_db == old_db,
    }
}

/// The bag rows of the match that still hold tiles, in table order.
fn bag_rows_of(db: &Db, match_id: u64) -> (r: Vec<BagLetter>)
    ensures
        r@ == db@.bag_letter.filter(in_bag(match_id)),
{
    let ghost s = db@.bag_letter;
    let mut out: Vec<BagLetter> = Vec::new();
    let n = db.bag_letter.len();
    let mut i: usize = 0;
    proof {
        reveal(Seq::filter);
        assert(s.take(0) =~= Seq::<BagLetter>::empty());
    }
    while i < n
        invariant
            n == s.len(),
            s == db@.bag_letter,
            i <= n,
            out@ == s.take(i as int).filter(in_bag(match_id)),
        decreases n - i,
    {
        let b = &db.bag_letter[i];
        if b.match_id == match_id && b.remaining > 0 {
            out.push(b.copy());
        }
        proof {
            reveal(Seq::filter);
            assert(s.take(i + 1).drop_last() =~= s.take(i as int));
        }
        i = i + 1;
    }
    proof {
        assert(s.take(n as int) =~= s);
    }
    out
}

/// Draws the tile at position `idx` of match `m`'s bag, counting tiles
/// letter by letter in letter order.
pub fn draw_letter_at(db: &mut Db, m: Match, idx: u32) -> (r: Option<String>)
    requires
        old(db)@.wf(),
        has_id(old(db)@.match_state, m.id),
        idx < m.bag_total,
    ensures
        draw_outcome(old(db)@, final(db)@, m, idx as int, r),
        final(db)@.wf(),
{
    let ghost old_db = db@;
    let entries = bag_rows_of(db, m.id);
    let ghost f = entries@;
    let sorted = stable_sort(entries);
    let ghost e = sorted@;
    proof {
        broadcast use vstd::seq_lib::group_to_multiset_ensures;
        lemma_sort_ranked_multiset(f);
        assert(e == bag_entries(old_db.bag_letter, m.id));
    }
    let n = sorted.len();
    let mut rest: u32 = idx;
    let mut i: usize = 0;
    proof {
        assert(e.skip(0) =~= e);
    }
    while i < n
        invariant
            n == e.len(),
            sorted@ == e,
            db@ == old_db,
            old_db == old(db)@,
            old_db.wf(),
            has_id(old_db.match_state, m.id),
            idx < m.bag_total,
            e.to_multiset() == f.to_multiset(),
            f == old_db.bag_letter.filter(in_bag(m.id)),
            e == bag_entries(old_db.bag_letter, m.id),
            i <= n,
            rest <= idx,
            pick_index(e, idx as int) == match pick_index(e.skip(i as int), rest as int) {
                Some(k) => Some(k + i),
                None => None::<int>,
            },
        decreases n - i,
    {
        let bag = &sorted[i];
        proof {
            assert(e.skip(i as int)[0] == e[i as int]);
            assert(e.skip(i as int).drop_first() =~= e.skip(i + 1));
        }
        if rest < bag.remaining {
            proof {
                broadcast use vstd::seq_lib::group_to_multiset_ensures;
                broadcast use vstd::seq_lib::group_filter_ensures;
                assert(e.contains(e[i as int]));
                assert(f.to_multiset().count(e[i as int]) > 0);
                assert(f.contains(e[i as int]));
                old_db.bag_letter.lemma_filter_contains_rev(in_bag(m.id), e[i as int]);
                let t = choose|t: int| 0 <= t < old_db.bag_letter.len() && old_db.bag_letter[t] == e[i as int];
                assert(old_db.bag_letter[t].row_id() == e[i as int].id);
                assert(has_id(old_db.bag_letter, e[i as int].id));
                assert(in_bag_of(e[i as int], m.id));
            }
            proof {
                assert(pick_index(e.skip(i as int), rest as int) == Some(0int));
                assert(pick_index(e, idx as int) == Some(i as int));
            }
            let letter = bag.letter.clone();
            let updated = BagLetter { id: bag.id, match_id: bag.match_id, letter: bag.letter.clone(), remaining: bag.remaining - 1 };
            update_row(&mut db.bag_letter, updated);
            update_row(&mut db.match_state, Match { bag_total: m.bag_total - 1, ..m });
            proof {
                assert(db@ =~= (DbView {
                    bag_letter: replace_by_id(old_db.bag_letter, BagLetter { remaining: (e[i as int].remaining - 1) as u32, ..e[i as int] }),
                    match_state: replace_by_id(old_db.match_state, Match { bag_total: (m.bag_total - 1) as u32, ..m }),
                    ..old_db
                }));
                lemma_replace_ids(old_db.bag_letter, old_db.next.bag_letter, BagLetter { remaining: (e[i as int].remaining - 1) as u32, ..e[i as int] });
                lemma_replace_ids(old_db.match_state, old_db.next.match_state, Match { bag_total: (m.bag_total - 1) as u32, ..m });
            }
            proof {
                assert(letter@ == e[i as int].letter@);
                let r = Some(letter);
                assert(r matches Some(l) && l@ == e[i as int].letter@);
                assert(draw_outcome(old_db, db@, m, idx as int, r));
            }
            return Some(letter);
        }
        rest = rest - bag.remaining;
        i = i + 1;
    }
    proof {
        assert(e.skip(n as int).len() == 0);
    }
    None
}

/// Replacing a row by one of the same id keeps ids distinct and below the
/// next id.
pub proof fn lemma_replace_ids<R: Row>(s: Seq<R>, next: u64, row: R)
    requires
        ids_ok(s, next),
        has_id(s, row.row_id()),
    ensures
        ids_ok(replace_by_id(s, row), next),
        replace_by_id(s, row).len() == s.len(),
        forall|i: int| 0 <= i < s.len() ==> (#[trigger] replace_by_id(s, row)[i]).row_id() == s[i].row_id(),
{
    let t = replace_by_id(s, row);
    assert forall|i: int| 0 <= i < s.len() implies (#[trigger] t[i]).row_id() == s[i].row_id() by {
    }
    assert forall|i: int, j: int| #![trigger t[i], t[j]] 0 <= i < j < t.len() implies t[i].row_id() != t[j].row_id() by {
        assert(s[i].row_id() != s[j].row_id());
    }
}

/// What a random draw from the match's bag may do: nothing when the match
/// is unknown or its bag total is 0; otherwise the draw of the tile at some
/// position below the bag total.
pub open spec fn draw_letter_outcome(old_db: DbView, new_db: DbView, match_id: u64, r: Option<String>) -> bool {
    let m = row_with_id(old_db.match_state, match_id);
    if !has_id(old_db.match_state, match_id) || m.bag_total == 0 {
        r is None && new_db == old_db
    } else {
        exists|idx: int| 0 <= idx < m.bag_total && #[trigger] draw_outcome(old_db, new_db, m, idx, r)
    }
}

/// Draws a random tile from the match's bag, if the match exists and its
/// bag total is positive: the tile's letter, after taking it out of the bag.
pub fn draw_letter(db: &mut Db, rng: &mut StdRng, match_id: u64) -> (r: Option<String>)
    requires
        old(db)@.wf(),
    ensures
        final(db)@.wf(),
        draw_letter_outcome(old(db)@, final(db)@, match_id, r),
{
    let i = match find_index(&db.match_state, match_id) {
        Some(i) => i,
        None => {
            return None;
        },
    };
    let m = db.match_state[i];
    proof {
        lemma_row_with_id_at(db@.match_state, i as int);
    }
    if m.bag_total == 0 {
        return None;
    }
    let idx = random_below(rng, m.bag_total);
    draw_letter_at(db, m, idx)
}

pub open spec fn holds_letter(b: BagLetter, match_id: u64, letter: Seq<char>) -> bool {
    b.match_id == match_id && b.letter@ == letter
}

pub open spec fn bag_of_letter(match_id: u64, letter: Seq<char>) -> spec_fn(BagLetter) -> bool {
    |b: BagLetter| holds_letter(b, match_id, letter)
}

/// The outcome of putting a tile of `letter` back into the match's bag: the
/// first bag row of that letter gains a tile, or a new row with one tile is
/// added; the match's bag total, if the match exists, grows by one.
pub open spec fn return_outcome(old_db: DbView, new_db: DbView, match_id: u64, letter: Seq<char>) -> bool {
    let bags = match find_first(old_db.bag_letter, bag_of_letter(match_id, letter)) {
        Some(k) => replace_by_id(old_db.bag_letter, BagLetter { remaining: (old_db.bag_letter[k].remaining + 1) as u32, ..old_db.bag_letter[k] }),
        None => new_db.bag_letter,
    };
    let matches = if has_id(old_db.match_state, match_id) {
        replace_by_id(old_db.match_state, Match { bag_total: (row_with_id(old_db.match_state, match_id).bag_total + 1) as u32, ..row_with_id(old_db.match_state, match_id) })
    } else {
        old_db.match_state
    };
    let next_bag = match find_first(old_db.bag_letter, bag_of_letter(match_id, letter)) {
        Some(k) => old_db.next.bag_letter,
        None => (old_db.next.bag_letter + 1) as u64,
    };
    &&& find_first(old_db.bag_letter, bag_of_letter(match_id, letter)) is None ==> {
        &&& new_db.bag_letter.len() == old_db.bag_letter.len() + 1
        &&& new_db.bag_letter.drop_last() == old_db.bag_letter
        &&& new_db.bag_letter.last().id == old_db.next.bag_letter
        &&& holds_letter(new_db.bag_letter.last(), match_id, letter)
        &&& new_db.bag_letter.last().remaining == 1
    }
    &&& new_db == (DbView { bag_letter: bags, match_state: matches, next: crate::db::Sequences { bag_letter: next_bag, ..old_db.next }, ..old_db })
}

/// Puts a tile of `letter` back into the match's bag.
pub fn return_to_bag(db: &mut Db, match_id: u64, letter: &str)
    requires
        old(db)@.wf(),
        old(db)@.next.bag_letter < u64::MAX,
        match_id < old(db)@.next.match_state,
        forall|i: int| 0 <= i < old(db)@.bag_letter.len() ==> (#[trigger] old(db)@.bag_letter[i]).remaining < u32::MAX,
        forall|i: int| 0 <= i < old(db)@.match_state.len() ==> (#[trigger] old(db)@.match_state[i]).bag_total < u32::MAX,
    ensures
        return_outcome(old(db)@, final(db)@, match_id, letter@),
        final(db)@.wf(),
{
    let ghost old_db = db@;
    let ghost p = bag_of_letter(match_id, letter@);
    let n = db.bag_letter.len();
    let mut i: usize = 0;
    while i < n
        invariant
            n == db@.bag_letter.len(),
            db@ == old_db,
            p == bag_of_letter(match_id, letter@),
            i <= n,
            forall|j: int| 0 <= j < i ==> !p(#[trigger] db@.bag_letter[j]),
        ensures
            i <= n,
            forall|j: int| 0 <= j < i ==> !p(#[trigger] db@.bag_letter[j]),
            i < n ==> p(db@.bag_letter[i as int]),
        decreases n - i,
    {
        if db.bag_letter[i].match_id == match_id && same_text(db.bag_letter[i].letter.as_str(), letter) {
            break;
        }
        i = i + 1;
    }
    if i < n {
        proof {
            assert(is_first(old_db.bag_letter, p, i as int));
            lemma_find_first_at(old_db.bag_letter, p, i as int);
            lemma_row_with_id_at(old_db.bag_letter, i as int);
        }
        let bag = db.bag_letter[i].copy();
        let updated = BagLetter { id: bag.id, match_id: bag.match_id, letter: bag.letter, remaining: bag.remaining + 1 };
        update_row(&mut db.bag_letter, updated);
        proof {
            lemma_replace_ids(old_db.bag_letter, old_db.next.bag_letter, BagLetter { remaining: (old_db.bag_letter[i as int].remaining + 1) as u32, ..old_db.bag_letter[i as int] });
        }
    } else {
        let row = BagLetter { id: 0, match_id, letter: letter.to_owned(), remaining: 1 };
        proof {
            lemma_find_first_none(old_db.bag_letter, p);
            lemma_insert_ids(old_db.bag_letter, old_db.next.bag_letter, row);
        }
        insert_row(&mut db.bag_letter, &mut db.next.bag_letter, row);
    }
    let ghost mid = db@;
    proof {
        if i < n {
            assert(mid.bag_letter == replace_by_id(old_db.bag_letter, BagLetter { remaining: (old_db.bag_letter[i as int].remaining + 1) as u32, ..old_db.bag_letter[i as int] }));
            assert(mid =~= (DbView { bag_letter: mid.bag_letter, ..old_db }));
        } else {
            assert(mid.bag_letter.drop_last() =~= old_db.bag_letter);
            assert(mid =~= (DbView { bag_letter: mid.bag_letter, next: crate::db::Sequences { bag_letter: (old_db.next.bag_letter + 1) as u64, ..old_db.next }, ..old_db }));
        }
    }
    match find_index(&db.match_state, match_id) {
        Some(k) => {
            let m = db.match_state[k];
            proof {
                lemma_row_with_id_at(db@.match_state, k as int);
                lemma_replace_ids(db@.match_state, db@.next.match_state, Match { bag_total: (m.bag_total + 1) as u32, ..m });
            }
            update_row(&mut db.match_state, Match { bag_total: m.bag_total + 1, ..m });
        },
        None => {},
    }
    proof {
        assert(db@ =~= (DbView { match_state: db@.match_state, ..mid }));
    }
}

/// The number of tiles in bag rows.
pub open spec fn bag_tiles(s: Seq<BagLetter>) -> int
    decreases s.len(),
{
    if s.len() == 0 {
        0
    } else {
        bag_tiles(s.drop_last()) + s.last().remaining
    }
}

pub proof fn lemma_bag_tiles_concat(a: Seq<BagLetter>, b: Seq<BagLetter>)
    ensures
        bag_tiles(a + b) == bag_tiles(a) + bag_tiles(b),
    decreases b.len(),
{
    if b.len() == 0 {
        assert(a + b =~= a);
    } else {
        lemma_bag_tiles_concat(a, b.drop_last());
        assert((a + b).drop_last() =~= a + b.drop_last());
    }
}

proof fn lemma_bag_tiles_single(x: BagLetter)
    ensures
        bag_tiles(seq![x]) == x.remaining,
{
    assert(seq![x].drop_last() =~= Seq::<BagLetter>::empty());
    assert(seq![x].last() == x);
    assert(bag_tiles(Seq::<BagLetter>::empty()) == 0);
}

pub proof fn lemma_bag_tiles_first(s: Seq<BagLetter>)
    requires
        s.len() > 0,
    ensures
        bag_tiles(s) == s[0].remaining + bag_tiles(s.drop_first()),
{
    lemma_bag_tiles_concat(seq![s[0]], s.drop_first());
    assert(seq![s[0]] + s.drop_first() =~= s);
    lemma_bag_tiles_single(s[0]);
}

/// A tile position below the number of tiles always falls in some entry.
pub proof fn lemma_pick_some(s: Seq<BagLetter>, idx: int)
    requires
        0 <= idx < bag_tiles(s),
    ensures
        pick_index(s, idx) is Some,
    decreases s.len(),
{
    if s.len() == 0 {
    } else {
        lemma_bag_tiles_first(s);
        if idx >= s[0].remaining {
            lemma_pick_some(s.drop_first(), idx - s[0].remaining);
        }
    }
}

proof fn lemma_insert_tiles(s: Seq<BagLetter>, x: BagLetter)
    ensures
        bag_tiles(insert_ranked(s, x)) == bag_tiles(s) + x.remaining,
    decreases s.len(),
{
    lemma_bag_tiles_single(x);
    if s.len() == 0 {
        assert(bag_tiles(s) == 0);
    } else if x.precedes(&s[0]) {
        lemma_bag_tiles_concat(seq![x], s);
    } else {
        lemma_insert_tiles(s.drop_first(), x);
        lemma_bag_tiles_concat(seq![s[0]], insert_ranked(s.drop_first(), x));
        lemma_bag_tiles_first(s);
        lemma_bag_tiles_single(s[0]);
    }
}

/// Sorting the entries keeps the number of tiles.
pub proof fn lemma_sort_tiles(s: Seq<BagLetter>)
    ensures
        bag_tiles(sort_ranked(s)) == bag_tiles(s),
    decreases s.len(),
{
    if s.len() > 0 {
        lemma_sort_tiles(s.drop_last());
        lemma_insert_tiles(sort_ranked(s.drop_last()), s.last());
    }
}

/// A draw at a position below the number of tiles in the match's bag
/// always yields a letter.
pub proof fn lemma_draw_succeeds(rows: Seq<BagLetter>, match_id: u64, idx: int)
    requires
        0 <= idx < bag_tiles(rows.filter(in_bag(match_id))),
    ensures
        pick_index(bag_entries(rows, match_id), idx) is Some,
{
    lemma_sort_tiles(rows.filter(in_bag(match_id)));
    lemma_pick_some(bag_entries(rows, match_id), idx);
}

/// The tiles left in the match's bag rows.
pub open spec fn match_tiles(rows: Seq<BagLetter>, match_id: u64) -> int
    decreases rows.len(),
{
    if rows.len() == 0 {
        0
    } else {
        match_tiles(rows.drop_last(), match_id) + if rows.last().match_id == match_id { rows.last().remaining as int } else { 0 }
    }
}

/// The match's bag total counts the tiles left in its bag rows.
pub open spec fn bag_counted(db: DbView, match_id: u64) -> bool {
    has_id(db.match_state, match_id) ==> row_with_id(db.match_state, match_id).bag_total == match_tiles(db.bag_letter, match_id)
}

/// Replacing bag row `j` by a row of the same id and match changes the
/// match's tiles by the change in that row.
proof fn lemma_tiles_replace(rows: Seq<BagLetter>, row: BagLetter, j: int, match_id: u64)
    requires
        0 <= j < rows.len(),
        rows[j].id == row.id,
        rows[j].match_id == row.match_id,
        forall|a: int, b: int| #![trigger rows[a], rows[b]] 0 <= a < b < rows.len() ==> rows[a].id != rows[b].id,
    ensures
        match_tiles(replace_by_id(rows, row), match_id) == match_tiles(rows, match_id)
            + if row.match_id == match_id { row.remaining - rows[j].remaining } else { 0 },
    decreases rows.len(),
{
    let n = rows.len() as int;
    let t = rows.drop_last();
    let rt = replace_by_id(rows, row);
    assert(rt.drop_last() =~= replace_by_id(t, row));
    if j == n - 1 {
        assert(replace_by_id(t, row) =~= t) by {
            assert forall|k: int| 0 <= k < t.len() implies #[trigger] replace_by_id(t, row)[k] == t[k] by {
                assert(rows[k].id != rows[j].id);
            }
        }
    } else {
        assert(rows[j].id != rows[n - 1].id);
        lemma_tiles_replace(t, row, j, match_id);
    }
}

/// The match's tiles after adding a row.
proof fn lemma_tiles_push(rows: Seq<BagLetter>, row: BagLetter, match_id: u64)
    ensures
        match_tiles(rows.push(row), match_id) == match_tiles(rows, match_id) + if row.match_id == match_id { row.remaining as int } else { 0 },
{
    assert(rows.push(row).drop_last() =~= rows);
}

/// The row of an id in a table after that row is replaced is the new row.
pub proof fn lemma_row_after_replace<R: Row>(s: Seq<R>, next: u64, row: R)
    requires
        ids_ok(s, next),
        has_id(s, row.row_id()),
    ensures
        has_id(replace_by_id(s, row), row.row_id()),
        row_with_id(replace_by_id(s, row), row.row_id()) == row,
{
    let j = choose|j: int| 0 <= j < s.len() && (#[trigger] s[j]).row_id() == row.row_id();
    lemma_replace_ids(s, next, row);
    let t = replace_by_id(s, row);
    assert(t[j] == row);
    lemma_row_with_id_at(t, j);
}

/// A draw keeps the match's bag total equal to the tiles in its bag: a
/// drawn tile leaves both.
pub proof fn lemma_draw_keeps_count(old_db: DbView, new_db: DbView, match_id: u64, r: Option<String>)
    requires
        old_db.wf(),
        draw_letter_outcome(old_db, new_db, match_id, r),
        bag_counted(old_db, match_id),
    ensures
        bag_counted(new_db, match_id),
{
    let m = row_with_id(old_db.match_state, match_id);
    if has_id(old_db.match_state, match_id) && m.bag_total != 0 {
        let idx = choose|idx: int| 0 <= idx < m.bag_total && #[trigger] draw_outcome(old_db, new_db, m, idx, r);
        let rows = old_db.bag_letter;
        let f = rows.filter(in_bag(m.id));
        let e = bag_entries(rows, m.id);
        let i0 = choose|i: int| 0 <= i < old_db.match_state.len() && (#[trigger] old_db.match_state[i]).row_id() == match_id;
        lemma_row_with_id_at(old_db.match_state, i0);
        if let Some(k) = pick_index(e, idx) {
            broadcast use vstd::seq_lib::group_to_multiset_ensures;
            lemma_pick_index_bounds(e, idx);
            lemma_sort_ranked_multiset(f);
            assert(e.contains(e[k]));
            assert(e.to_multiset().count(e[k]) > 0);
            assert(f.to_multiset().count(e[k]) > 0);
            assert(f.contains(e[k]));
            let fi = choose|fi: int| 0 <= fi < f.len() && f[fi] == e[k];
            rows.lemma_filter_pred(in_bag(m.id), fi);
            rows.lemma_filter_contains_rev(in_bag(m.id), e[k]);
            let j = choose|j: int| 0 <= j < rows.len() && rows[j] == e[k];
            let row = BagLetter { remaining: (e[k].remaining - 1) as u32, ..e[k] };
            lemma_tiles_replace(rows, row, j, match_id);
            let mrow = Match { bag_total: (m.bag_total - 1) as u32, ..m };
            lemma_row_after_replace(old_db.match_state, old_db.next.match_state, mrow);
        }
    }
}

/// Putting a tile back keeps the match's bag total equal to the tiles in
/// its bag: both gain one.
pub proof fn lemma_return_keeps_count(old_db: DbView, new_db: DbView, match_id: u64, letter: Seq<char>)
    requires
        old_db.wf(),
        return_outcome(old_db, new_db, match_id, letter),
        bag_counted(old_db, match_id),
        forall|i: int| 0 <= i < old_db.bag_letter.len() ==> (#[trigger] old_db.bag_letter[i]).remaining < u32::MAX,
        forall|i: int| 0 <= i < old_db.match_state.len() ==> (#[trigger] old_db.match_state[i]).bag_total < u32::MAX,
    ensures
        bag_counted(new_db, match_id),
{
    let rows = old_db.bag_letter;
    match find_first(rows, bag_of_letter(match_id, letter)) {
        Some(k) => {
            let row = BagLetter { remaining: (rows[k].remaining + 1) as u32, ..rows[k] };
            lemma_tiles_replace(rows, row, k, match_id);
        },
        None => {
            assert(new_db.bag_letter =~= rows.push(new_db.bag_letter.last()));
            lemma_tiles_push(rows, new_db.bag_letter.last(), match_id);
        },
    }
    if has_id(old_db.match_state, match_id) {
        let m = row_with_id(old_db.match_state, match_id);
        let i0 = choose|i: int| 0 <= i < old_db.match_state.len() && (#[trigger] old_db.match_state[i]).row_id() == match_id;
        lemma_row_with_id_at(old_db.match_state, i0);
        lemma_row_after_replace(old_db.match_state, old_db.next.match_state, Match { bag_total: (m.bag_total + 1) as u32, ..m });
    }
}

/// No two bag rows of the match hold the same letter.
pub open spec fn one_row_per_letter(rows: Seq<BagLetter>, match_id: u64) -> bool {
    forall|a: int, b: int| #![trigger rows[a], rows[b]]
        0 <= a < b < rows.len() && rows[a].match_id == match_id && rows[b].match_id == match_id
        ==> rows[a].letter@ != rows[b].letter@
}

/// Putting a drawn letter back undoes the draw: when the match has one bag
/// row per letter, drawing tile `idx` (as a draw from a non-empty bag does)
/// and returning its letter leaves the tables as they were.
pub proof fn lemma_return_undoes_draw(d0: DbView, d1: DbView, d2: DbView, m: Match, idx: int, l: String)
    requires
        d0.wf(),
        has_id(d0.match_state, m.id),
        m == row_with_id(d0.match_state, m.id),
        m.bag_total > 0,
        one_row_per_letter(d0.bag_letter, m.id),
        draw_outcome(d0, d1, m, idx, Some(l)),
        return_outcome(d1, d2, m.id, l@),
    ensures
        d2 == d0,
{
    broadcast use vstd::seq_lib::group_to_multiset_ensures;
    let rows = d0.bag_letter;
    let f = rows.filter(in_bag(m.id));
    let e = bag_entries(rows, m.id);
    let k = pick_index(e, idx)->0;
    lemma_pick_index_bounds(e, idx);
    lemma_sort_ranked_multiset(f);
    assert(e.contains(e[k]));
    assert(e.to_multiset().count(e[k]) > 0);
    assert(f.to_multiset().count(e[k]) > 0);
    assert(f.contains(e[k]));
    let fi = choose|fi: int| 0 <= fi < f.len() && f[fi] == e[k];
    rows.lemma_filter_pred(in_bag(m.id), fi);
    rows.lemma_filter_contains_rev(in_bag(m.id), e[k]);
    let j = choose|j: int| 0 <= j < rows.len() && rows[j] == e[k];
    let r = rows[j];
    let drawn = BagLetter { remaining: (r.remaining - 1) as u32, ..r };
    let rows1 = replace_by_id(rows, drawn);
    assert(d1.bag_letter == rows1);
    // The drawn row is the first row of its letter in the match.
    assert(rows1[j] == drawn);
    assert forall|q: int| 0 <= q < j implies !bag_of_letter(m.id, l@)(#[trigger] rows1[q]) by {
        if rows[q].id == drawn.id {
            assert(rows[q].row_id() != rows[j].row_id());
        }
        assert(rows1[q] == rows[q]);
        if rows[q].match_id == m.id && rows[q].letter@ == l@ {
            assert(rows[q].letter@ != rows[j].letter@);
        }
    }
    assert(is_first(rows1, bag_of_letter(m.id, l@), j));
    lemma_find_first_at(rows1, bag_of_letter(m.id, l@), j);
    let back = BagLetter { remaining: (rows1[j].remaining + 1) as u32, ..rows1[j] };
    assert(back == r);
    assert(d2.bag_letter =~= rows) by {
        assert forall|q: int| 0 <= q < rows.len() implies #[trigger] replace_by_id(rows1, back)[q] == rows[q] by {
            if q != j && rows[q].id == r.id {
                if q < j { assert(rows[q].row_id() != rows[j].row_id()); } else { assert(rows[j].row_id() != rows[q].row_id()); }
            }
        }
    }
    // The match's row comes back too.
    let i0 = choose|i: int| 0 <= i < d0.match_state.len() && (#[trigger] d0.match_state[i]).row_id() == m.id;
    lemma_row_with_id_at(d0.match_state, i0);
    let m1 = Match { bag_total: (m.bag_total - 1) as u32, ..m };
    lemma_row_after_replace(d0.match_state, d0.next.match_state, m1);
    let m2 = Match { bag_total: (m1.bag_total + 1) as u32, ..m1 };
    assert(m2 == m);
    assert(d2.match_state =~= d0.match_state) by {
        let ms1 = replace_by_id(d0.match_state, m1);
        assert forall|q: int| 0 <= q < d0.match_state.len() implies #[trigger] replace_by_id(ms1, m2)[q] == d0.match_state[q] by {
            if q != i0 && d0.match_state[q].id == m.id {
                if q < i0 { assert(d0.match_state[q].row_id() != d0.match_state[i0].row_id()); } else { assert(d0.match_state[i0].row_id() != d0.match_state[q].row_id()); }
            }
        }
    }
}

} // verus!
