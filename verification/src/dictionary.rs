//! The word list: lookup of a word, and the longest word a rack can spell.
use vstd::prelude::*;
use vstd::utf8::encode_utf8;
use crate::sorting::{Ranked, sort_ranked, stable_sort, strict_order, lemma_sort_ranked_sorted, lemma_sort_ranked_multiset};
use crate::text::{Comparison, bytes_less, lemma_bytes_less_irreflexive, lemma_bytes_less_asymmetric, lemma_bytes_less_total, lemma_bytes_less_transitive, compare_bytes, all_upper_letters, is_upper_letter, upper_ascii_all, to_ascii_uppercase, is_all_upper_letters};

verus! {

broadcast use vstd::string::group_string_axioms;

/// The UTF-8 bytes of a word, the form in which words are compared.
pub open spec fn word_bytes(s: Seq<char>) -> Seq<u8> {
    encode_utf8(s)
}

/// The order of the list used for the longest-word search: longer words
/// first, words of one length in byte order.
pub open spec fn longer_first(a: Seq<u8>, b: Seq<u8>) -> bool {
    a.len() > b.len() || (a.len() == b.len() && bytes_less(a, b))
}

/// Strict order of a list of words: by bytes, or longer first.
pub open spec fn word_before(by_len: bool, a: Seq<u8>, b: Seq<u8>) -> bool {
    if by_len {
        longer_first(a, b)
    } else {
        bytes_less(a, b)
    }
}

/// Every word comes no later, in the list's order, than the words after it.
pub open spec fn sorted_words(by_len: bool, w: Seq<Seq<u8>>) -> bool {
    forall|i: int, j: int| #![trigger w[i], w[j]] 0 <= i < j < w.len() ==> !word_before(by_len, w[j], w[i])
}

pub open spec fn strings_bytes(v: Seq<String>) -> Seq<Seq<u8>> {
    v.map_values(|s: String| word_bytes(s@))
}

pub open spec fn strings_chars(v: Seq<String>) -> Seq<Seq<char>> {
    v.map_values(|s: String| s@)
}

/// The word list twice over: in byte order, for lookups, and longest first,
/// for the search of the best word a rack can spell. Both hold the same
/// words, each shorter than 2^32 bytes.
pub struct Dictionary {
    by_lex: Vec<String>,
    by_length: Vec<String>,
}

impl Dictionary {
    /// The words in byte order.
    pub closed spec fn lex_words(&self) -> Seq<Seq<char>> {
        strings_chars(self.by_lex@)
    }

    /// The words, longest first.
    pub closed spec fn length_words(&self) -> Seq<Seq<char>> {
        strings_chars(self.by_length@)
    }

    /// The two lists are ordered, hold the same words, and no word is of
    /// 2^32 bytes or more.
    pub open spec fn wf(&self) -> bool {
        Self::valid_lists(self.lex_words(), self.length_words())
    }

    /// What a pair of lists must satisfy to form a dictionary.
    pub open spec fn valid_lists(lex: Seq<Seq<char>>, by_len: Seq<Seq<char>>) -> bool {
        &&& sorted_words(false, lex.map_values(|s: Seq<char>| word_bytes(s)))
        &&& sorted_words(true, by_len.map_values(|s: Seq<char>| word_bytes(s)))
        &&& forall|i: int| 0 <= i < lex.len() ==> word_bytes(#[trigger] lex[i]).len() < u32::MAX
        &&& forall|i: int| 0 <= i < by_len.len() ==> word_bytes(#[trigger] by_len[i]).len() < u32::MAX
        &&& forall|w: Seq<char>| lex.contains(w) <==> by_len.contains(w)
    }

    /// Builds a dictionary from the word list in byte order and the same
    /// words longest first; `None` when the lists are not so ordered, do
    /// not hold the same words, or hold a word of 2^32 bytes or more.
    pub fn new(by_lex: Vec<String>, by_length: Vec<String>) -> (r: Option<Dictionary>)
        ensures
            r is Some <==> Self::valid_lists(strings_chars(by_lex@), strings_chars(by_length@)),
            r matches Some(d) ==> d.wf() && d.lex_words() == strings_chars(by_lex@) && d.length_words()
                == strings_chars(by_length@),
    {
        let ok_lex = check_sorted(&by_lex, false);
        let ok_len = check_sorted(&by_length, true);
        proof {
            lemma_bytes_views(by_lex@);
            lemma_bytes_views(by_length@);
            lemma_lengths_views(by_lex@);
            lemma_lengths_views(by_length@);
        }
        if !ok_lex || !ok_len {
            return None;
        }
        let in_lex = all_found(&by_length, &by_lex, false);
        let in_len = all_found(&by_lex, &by_length, true);
        proof {
            lemma_bytes_views(by_lex@);
            lemma_bytes_views(by_length@);
            let lex = strings_chars(by_lex@);
            let bl = strings_chars(by_length@);
            if in_lex && in_len {
                assert forall|w: Seq<char>| lex.contains(w) <==> bl.contains(w) by {
                    if lex.contains(w) {
                        let i = choose|i: int| 0 <= i < lex.len() && lex[i] == w;
                        assert(strings_bytes(by_lex@)[i] == word_bytes(w));
                        assert(found_in(strings_bytes(by_length@), strings_bytes(by_lex@)[i]));
                        let j = choose|j: int| 0 <= j < by_length@.len() && strings_bytes(by_length@)[j] == word_bytes(w);
                        lemma_word_bytes_injective(bl[j], w);
                        assert(bl[j] == w);
                    }
                    if bl.contains(w) {
                        let i = choose|i: int| 0 <= i < bl.len() && bl[i] == w;
                        assert(strings_bytes(by_length@)[i] == word_bytes(w));
                        assert(found_in(strings_bytes(by_lex@), strings_bytes(by_length@)[i]));
                        let j = choose|j: int| 0 <= j < by_lex@.len() && strings_bytes(by_lex@)[j] == word_bytes(w);
                        lemma_word_bytes_injective(lex[j], w);
                        assert(lex[j] == w);
                    }
                }
            } else if !in_lex {
                let i = choose|i: int| 0 <= i < by_length@.len() && !found_in(strings_bytes(by_lex@), #[trigger] strings_bytes(by_length@)[i]);
                assert(bl.contains(bl[i]));
                if lex.contains(bl[i]) {
                    let j = choose|j: int| 0 <= j < lex.len() && lex[j] == bl[i];
                    assert(strings_bytes(by_lex@)[j] == strings_bytes(by_length@)[i]);
                }
            } else {
                let i = choose|i: int| 0 <= i < by_lex@.len() && !found_in(strings_bytes(by_length@), #[trigger] strings_bytes(by_lex@)[i]);
                assert(lex.contains(lex[i]));
                if bl.contains(lex[i]) {
                    let j = choose|j: int| 0 <= j < bl.len() && bl[j] == lex[i];
                    assert(strings_bytes(by_length@)[j] == strings_bytes(by_lex@)[i]);
                }
            }
        }
        if in_lex && in_len {
            Some(Dictionary { by_lex, by_length })
        } else {
            None
        }
    }

    /// A word list in byte order, with no word of 2^32 bytes or more.
    pub open spec fn valid_word_list(lex: Seq<Seq<char>>) -> bool {
        &&& sorted_words(false, lex.map_values(|s: Seq<char>| word_bytes(s)))
        &&& forall|i: int| 0 <= i < lex.len() ==> word_bytes(#[trigger] lex[i]).len() < u32::MAX
    }

    /// Builds a dictionary from the word list in byte order; the list
    /// longest first is made here, by a stable sort of a copy. `None`
    /// exactly when the list is not in byte order or holds a word of 2^32
    /// bytes or more.
    pub fn from_words(words: Vec<String>) -> (r: Option<Dictionary>)
        ensures
            r is Some <==> Self::valid_word_list(strings_chars(words@)),
            r matches Some(d) ==> d.wf() && d.lex_words() == strings_chars(words@) && d.length_words()
                == strings_chars(sort_ranked(words@)),
    {
        let ghost all = words@;
        let mut copy: Vec<String> = Vec::new();
        let n = words.len();
        let mut i: usize = 0;
        while i < n
            invariant
                n == words@.len(),
                i <= n,
                copy@ == words@.take(i as int),
            decreases n - i,
        {
            copy.push(words[i].clone());
            proof {
                assert(words@.take(i + 1) =~= words@.take(i as int).push(words@[i as int]));
            }
            i = i + 1;
        }
        proof {
            assert(words@.take(n as int) =~= words@);
        }
        let by_length = stable_sort(copy);
        proof {
            lemma_sorted_copy_valid(all);
        }
        Self::new(words, by_length)
    }
}

/// Longer-first precedence on strings is a strict order.
proof fn lemma_longer_first_strict()
    ensures
        strict_order::<String>(),
{
    assert forall|a: String, b: String| #[trigger] a.precedes(&b) implies !b.precedes(&a) by {
        lemma_word_before_facts(true, word_bytes(a@), word_bytes(b@));
    }
    assert forall|a: String, b: String, c: String| #[trigger] a.precedes(&b) && #[trigger] b.precedes(&c) implies a.precedes(&c) by {
        let (x, y, z) = (word_bytes(a@), word_bytes(b@), word_bytes(c@));
        lemma_word_before_facts(true, x, y);
        lemma_word_before_facts(true, y, z);
        lemma_word_before_facts(true, x, z);
        lemma_word_before_transitive(true, x, y, z);
    }
}

/// A word list and its longest-first sort form a dictionary exactly when
/// the list is in byte order and holds no over-long word.
proof fn lemma_sorted_copy_valid(words: Seq<String>)
    ensures
        Dictionary::valid_lists(strings_chars(words), strings_chars(sort_ranked(words)))
            <==> Dictionary::valid_word_list(strings_chars(words)),
{
    broadcast use vstd::seq_lib::group_to_multiset_ensures;
    let sorted = sort_ranked(words);
    lemma_sort_ranked_multiset(words);
    lemma_longer_first_strict();
    lemma_sort_ranked_sorted(words);
    let lex = strings_chars(words);
    let bl = strings_chars(sorted);
    // The sorted copy is in longest-first order.
    let wb = bl.map_values(|s: Seq<char>| word_bytes(s));
    assert forall|i: int, j: int| #![trigger wb[i], wb[j]] 0 <= i < j < wb.len() implies !word_before(true, wb[j], wb[i]) by {
        assert(!sorted[j].precedes(&sorted[i]));
    }
    // Each string of one list is in the other.
    assert forall|k: int| 0 <= k < sorted.len() implies words.contains(#[trigger] sorted[k]) by {
        assert(sorted.contains(sorted[k]));
        assert(sorted.to_multiset().count(sorted[k]) > 0);
    }
    assert forall|k: int| 0 <= k < words.len() implies sorted.contains(#[trigger] words[k]) by {
        assert(words.contains(words[k]));
        assert(words.to_multiset().count(words[k]) > 0);
    }
    assert forall|w: Seq<char>| lex.contains(w) <==> bl.contains(w) by {
        if lex.contains(w) {
            let i = choose|i: int| 0 <= i < lex.len() && lex[i] == w;
            assert(sorted.contains(words[i]));
            let j = choose|j: int| 0 <= j < sorted.len() && sorted[j] == words[i];
            assert(bl[j] == w);
        }
        if bl.contains(w) {
            let i = choose|i: int| 0 <= i < bl.len() && bl[i] == w;
            assert(words.contains(sorted[i]));
            let j = choose|j: int| 0 <= j < words.len() && words[j] == sorted[i];
            assert(lex[j] == w);
        }
    }
    if forall|i: int| 0 <= i < lex.len() ==> word_bytes(#[trigger] lex[i]).len() < u32::MAX {
        assert forall|i: int| 0 <= i < bl.len() implies word_bytes(#[trigger] bl[i]).len() < u32::MAX by {
            assert(words.contains(sorted[i]));
            let j = choose|j: int| 0 <= j < words.len() && words[j] == sorted[i];
            assert(lex[j] == bl[i]);
        }
    }
}

impl Ranked for String {
    /// Longer words first; words of one length in byte order.
    open spec fn precedes(&self, other: &Self) -> bool {
        longer_first(word_bytes(self@), word_bytes(other@))
    }

    fn precedes_exec(&self, other: &Self) -> (b: bool) {
        let a = self.as_str().as_bytes();
        let c = other.as_str().as_bytes();
        let r = compare_words(true, a, c);
        match r {
            Comparison::Less => true,
            _ => false,
        }
    }
}

proof fn lemma_lengths_views(v: Seq<String>)
    ensures
        (forall|i: int| 0 <= i < v.len() ==> (#[trigger] strings_bytes(v)[i]).len() < u32::MAX)
            <==> (forall|i: int| 0 <= i < strings_chars(v).len() ==> word_bytes(#[trigger] strings_chars(v)[i]).len() < u32::MAX),
{
    if forall|i: int| 0 <= i < v.len() ==> (#[trigger] strings_bytes(v)[i]).len() < u32::MAX {
        assert forall|i: int| 0 <= i < strings_chars(v).len() implies word_bytes(#[trigger] strings_chars(v)[i]).len() < u32::MAX by {
            assert(strings_bytes(v)[i] == word_bytes(strings_chars(v)[i]));
        }
    }
    if forall|i: int| 0 <= i < strings_chars(v).len() ==> word_bytes(#[trigger] strings_chars(v)[i]).len() < u32::MAX {
        assert forall|i: int| 0 <= i < v.len() implies (#[trigger] strings_bytes(v)[i]).len() < u32::MAX by {
            assert(strings_bytes(v)[i] == word_bytes(strings_chars(v)[i]));
        }
    }
}

proof fn lemma_word_bytes_injective(a: Seq<char>, b: Seq<char>)
    requires
        word_bytes(a) == word_bytes(b),
    ensures
        a == b,
{
    vstd::utf8::encode_utf8_decode_utf8(a);
    vstd::utf8::encode_utf8_decode_utf8(b);
}

proof fn lemma_bytes_views(v: Seq<String>)
    ensures
        strings_chars(v).map_values(|s: Seq<char>| word_bytes(s)) == strings_bytes(v),
        strings_chars(v).len() == v.len(),
        strings_bytes(v).len() == v.len(),
{
    assert(strings_chars(v).map_values(|s: Seq<char>| word_bytes(s)) =~= strings_bytes(v));
}

proof fn lemma_word_before_facts(by_len: bool, a: Seq<u8>, b: Seq<u8>)
    ensures
        !word_before(by_len, a, a),
        !(word_before(by_len, a, b) && word_before(by_len, b, a)),
        a != b ==> word_before(by_len, a, b) || word_before(by_len, b, a),
{
    lemma_bytes_less_irreflexive(a);
    lemma_bytes_less_asymmetric(a, b);
    lemma_bytes_less_total(a, b);
}

proof fn lemma_word_before_transitive(by_len: bool, a: Seq<u8>, b: Seq<u8>, c: Seq<u8>)
    requires
        !word_before(by_len, b, a),
        !word_before(by_len, c, b),
    ensures
        !word_before(by_len, c, a),
{
    lemma_word_before_facts(by_len, a, b);
    lemma_word_before_facts(by_len, b, c);
    lemma_word_before_facts(by_len, a, c);
    if a != b && b != c {
        if bytes_less(a, b) && bytes_less(b, c) {
            lemma_bytes_less_transitive(a, b, c);
        }
        if a.len() == b.len() && b.len() == c.len() {
            if bytes_less(a, b) && bytes_less(b, c) {
                lemma_bytes_less_transitive(a, b, c);
            }
        }
    }
}

/// The order of two words in a list of the given kind.
fn compare_words(by_len: bool, a: &[u8], b: &[u8]) -> (r: Comparison)
    ensures
        r == Comparison::Equal <==> a@ == b@,
        r == Comparison::Less <==> word_before(by_len, a@, b@),
        r == Comparison::Greater <==> word_before(by_len, b@, a@),
{
    proof {
        lemma_word_before_facts(by_len, a@, b@);
    }
    if by_len && a.len() != b.len() {
        if a.len() > b.len() {
            Comparison::Less
        } else {
            Comparison::Greater
        }
    } else {
        let c = compare_bytes(a, b);
        c
    }
}

/// Whether each word comes no later than the next one.
fn check_sorted(words: &Vec<String>, by_len: bool) -> (ok: bool)
    ensures
        ok <==> (sorted_words(by_len, strings_bytes(words@)) && forall|i: int|
            0 <= i < words@.len() ==> (#[trigger] strings_bytes(words@)[i]).len() < u32::MAX),
{
    let n = words.len();
    let ghost w = strings_bytes(words@);
    let mut i: usize = 0;
    while i < n
        invariant
            n == words@.len(),
            w == strings_bytes(words@),
            w.len() == n,
            i <= n,
            sorted_words(by_len, w.take(i as int)),
            forall|k: int| 0 <= k < i ==> (#[trigger] w[k]).len() < u32::MAX,
        decreases n - i,
    {
        let cur = words[i].as_str().as_bytes();
        assert(cur@ == w[i as int]);
        if cur.len() >= 4294967295 {
            return false;
        }
        if i > 0 {
            let prev = words[i - 1].as_str().as_bytes();
            assert(prev@ == w[i - 1]);
            let c = compare_words(by_len, prev, cur);
            if c == Comparison::Greater {
                proof {
                    assert(w[i as int] == w[i as int] && w[i - 1] == w[i - 1]);
                }
                return false;
            }
            proof {
                let t = w.take(i + 1);
                assert forall|a: int, b: int| #![trigger t[a], t[b]] 0 <= a < b < t.len() implies !word_before(by_len, t[b], t[a]) by {
                    if b == i {
                        if a < i - 1 {
                            assert(w.take(i as int)[a] == w[a]);
                            assert(w.take(i as int)[i - 1] == w[i - 1]);
                            lemma_word_before_transitive(by_len, w[a], w[i - 1], w[i as int]);
                        }
                    } else {
                        assert(w.take(i as int)[a] == t[a] && w.take(i as int)[b] == t[b]);
                    }
                }
            }
        } else {
            proof {
                assert(sorted_words(by_len, w.take(1)));
            }
        }
        i = i + 1;
    }
    proof {
        assert(w.take(n as int) =~= w);
    }
    true
}

/// Binary search of a word in a sorted list.
fn search(words: &Vec<String>, by_len: bool, target: &[u8]) -> (found: bool)
    requires
        sorted_words(by_len, strings_bytes(words@)),
    ensures
        found == exists|i: int| 0 <= i < words@.len() && strings_bytes(words@)[i] == target@,
{
    let ghost w = strings_bytes(words@);
    let n = words.len();
    let mut lo: usize = 0;
    let mut hi: usize = n;
    while lo < hi
        invariant
            n == words@.len(),
            w == strings_bytes(words@),
            sorted_words(by_len, w),
            lo <= hi <= n,
            forall|k: int| 0 <= k < lo ==> w[k] != target@,
            forall|k: int| hi <= k < n ==> w[k] != target@,
        decreases hi - lo,
    {
        let mid = lo + (hi - lo) / 2;
        let m = words[mid].as_str().as_bytes();
        assert(m@ == w[mid as int]);
        let c = compare_words(by_len, m, target);
        if c == Comparison::Equal {
            return true;
        } else if c == Comparison::Less {
            proof {
                assert forall|k: int| 0 <= k < mid + 1 implies w[k] != target@ by {
                    if k < mid {
                        assert(!word_before(by_len, w[mid as int], w[k]));
                        lemma_word_before_facts(by_len, w[k], w[mid as int]);
                        lemma_word_before_facts(by_len, w[mid as int], target@);
                    }
                }
            }
            lo = mid + 1;
        } else {
            proof {
                assert forall|k: int| mid <= k < n implies w[k] != target@ by {
                    if k > mid {
                        assert(!word_before(by_len, w[k], w[mid as int]));
                        lemma_word_before_facts(by_len, w[k], w[mid as int]);
                        lemma_word_before_facts(by_len, w[mid as int], target@);
                    }
                }
            }
            hi = mid;
        }
    }
    false
}

pub open spec fn found_in(w: Seq<Seq<u8>>, t: Seq<u8>) -> bool {
    exists|j: int| 0 <= j < w.len() && w[j] == t
}

/// Whether every word of `words` is found in the sorted list `other`.
fn all_found(words: &Vec<String>, other: &Vec<String>, by_len: bool) -> (ok: bool)
    requires
        sorted_words(by_len, strings_bytes(other@)),
    ensures
        ok <==> forall|i: int| 0 <= i < words@.len() ==> found_in(strings_bytes(other@), #[trigger] strings_bytes(words@)[i]),
{
    let n = words.len();
    let mut i: usize = 0;
    while i < n
        invariant
            n == words@.len(),
            sorted_words(by_len, strings_bytes(other@)),
            i <= n,
            forall|k: int| 0 <= k < i ==> found_in(strings_bytes(other@), #[trigger] strings_bytes(words@)[k]),
        decreases n - i,
    {
        let t = words[i].as_str().as_bytes();
        assert(t@ == strings_bytes(words@)[i as int]);
        if !search(other, by_len, t) {
            assert(!found_in(strings_bytes(other@), strings_bytes(words@)[i as int]));
            return false;
        }
        i = i + 1;
    }
    true
}

/// A word that the dictionary accepts: at least two letters, all of them
/// A-Z, and in the word list.
pub open spec fn accepts(d: &Dictionary, t: Seq<char>) -> bool {
    &&& t.len() >= 2
    &&& all_upper_letters(t)
    &&& d.lex_words().contains(t)
}

/// An upper-case word has one byte per letter.
pub proof fn lemma_upper_byte_len_pub(t: Seq<char>)
    requires
        all_upper_letters(t),
    ensures
        word_bytes(t).len() == t.len(),
{
    lemma_upper_byte_len(t);
}

proof fn lemma_upper_byte_len(t: Seq<char>)
    requires
        all_upper_letters(t),
    ensures
        word_bytes(t).len() == t.len(),
        vstd::utf8::is_ascii_chars(t),
{
    assert(vstd::utf8::is_ascii_chars(t));
    vstd::utf8::is_ascii_chars_encode_utf8(t);
}

/// Whether `word`, upper-cased, is a word of the dictionary.
pub fn is_valid_word(dict: &Dictionary, word: &str) -> (b: bool)
    requires
        dict.wf(),
    ensures
        b == accepts(dict, upper_ascii_all(word@)),
{
    let target = to_ascii_uppercase(word);
    let t = target.as_str();
    let ghost tv = upper_ascii_all(word@);
    if t.len() < 2 {
        proof {
            if all_upper_letters(tv) {
                lemma_upper_byte_len(tv);
            }
        }
        return false;
    }
    if !is_all_upper_letters(t) {
        return false;
    }
    proof {
        lemma_upper_byte_len(tv);
        lemma_bytes_views(dict.by_lex@);
    }
    let found = search(&dict.by_lex, false, t.as_bytes());
    proof {
        let lex = dict.lex_words();
        if found {
            let i = choose|i: int| 0 <= i < dict.by_lex@.len() && strings_bytes(dict.by_lex@)[i] == word_bytes(tv);
            lemma_word_bytes_injective(lex[i], tv);
            assert(lex[i] == tv);
        } else if lex.contains(tv) {
            let i = choose|i: int| 0 <= i < lex.len() && lex[i] == tv;
            assert(strings_bytes(dict.by_lex@)[i] == word_bytes(tv));
        }
    }
    found
}

/// The number of tiles of the letter in slot `k` (0 for 'A' ... 25 for 'Z')
/// that the rack entries add up to; entries that are not letters A-Z count
/// for nothing.
pub open spec fn rack_slot_sum(rack: Seq<(char, u32)>, k: int) -> int
    decreases rack.len(),
{
    if rack.len() == 0 {
        0
    } else {
        rack_slot_sum(rack.drop_last(), k) + if is_upper_letter(rack.last().0) && rack.last().0 as int
            - 65 == k {
            rack.last().1 as int
        } else {
            0
        }
    }
}

/// The number of tiles of letters A-Z in the rack entries.
pub open spec fn rack_upper_total(rack: Seq<(char, u32)>) -> int
    decreases rack.len(),
{
    if rack.len() == 0 {
        0
    } else {
        rack_upper_total(rack.drop_last()) + if is_upper_letter(rack.last().0) {
            rack.last().1 as int
        } else {
            0
        }
    }
}

/// A count as a saturating `u32` sum holds it.
pub open spec fn cap_u32(x: int) -> int {
    if x > u32::MAX {
        u32::MAX as int
    } else {
        x
    }
}

/// How many times the byte `b` occurs in `s`.
pub open spec fn byte_count(s: Seq<u8>, b: int) -> int
    decreases s.len(),
{
    if s.len() == 0 {
        0
    } else {
        byte_count(s.drop_last(), b) + if s.last() == b {
            1int
        } else {
            0
        }
    }
}

/// The rack can spell the word: every byte is a letter A-Z, and the rack
/// holds each letter at least as often as the word uses it.
pub open spec fn spells(w: Seq<u8>, rack: Seq<(char, u32)>) -> bool {
    &&& forall|i: int| 0 <= i < w.len() ==> 65 <= #[trigger] w[i] <= 90
    &&& forall|k: int| 0 <= k < 26 ==> #[trigger] byte_count(w, 65 + k) <= cap_u32(rack_slot_sum(rack, k))
}

/// A word the longest-word search may return: at least `min_len` bytes, no
/// longer than the rack's tile count, and spelled by the rack.
pub open spec fn playable(w: Seq<u8>, rack: Seq<(char, u32)>, min_len: int) -> bool {
    &&& w.len() >= min_len
    &&& w.len() <= cap_u32(rack_upper_total(rack))
    &&& spells(w, rack)
}

/// Word `i` of `words` is playable and no earlier word is.
pub open spec fn first_playable(words: Seq<Seq<char>>, rack: Seq<(char, u32)>, min_len: int, i: int) -> bool {
    &&& 0 <= i < words.len()
    &&& playable(word_bytes(words[i]), rack, min_len)
    &&& forall|j: int| 0 <= j < i ==> !playable(word_bytes(#[trigger] words[j]), rack, min_len)
}

proof fn lemma_rack_step(rack: Seq<(char, u32)>, i: int)
    requires
        0 <= i < rack.len(),
    ensures
        rack.take(i + 1).drop_last() == rack.take(i),
        rack.take(i + 1).last() == rack[i],
{
    assert(rack.take(i + 1).drop_last() =~= rack.take(i));
}

proof fn lemma_byte_step(s: Seq<u8>, j: int)
    requires
        0 <= j < s.len(),
    ensures
        s.take(j + 1).drop_last() == s.take(j),
        s.take(j + 1).last() == s[j],
{
    assert(s.take(j + 1).drop_last() =~= s.take(j));
}

proof fn lemma_byte_count_bound(s: Seq<u8>, b: int)
    ensures
        0 <= byte_count(s, b) <= s.len(),
    decreases s.len(),
{
    if s.len() > 0 {
        lemma_byte_count_bound(s.drop_last(), b);
    }
}

/// The per-letter tile counts and the total tile count of a rack, each
/// added up with saturation as `u32`.
fn rack_counts(rack: &Vec<(char, u32)>) -> (r: (Vec<u32>, u32))
    ensures
        r.0@.len() == 26,
        forall|k: int| 0 <= k < 26 ==> r.0@[k] == cap_u32(rack_slot_sum(rack@, k)),
        r.1 == cap_u32(rack_upper_total(rack@)),
{
    let mut counts: Vec<u32> = Vec::new();
    let mut k: usize = 0;
    while k < 26
        invariant
            k <= 26,
            counts@.len() == k,
            forall|t: int| 0 <= t < k ==> counts@[t] == 0,
        decreases 26 - k,
    {
        counts.push(0);
        k = k + 1;
    }
    let mut total: u32 = 0;
    let n = rack.len();
    let mut i: usize = 0;
    proof {
        assert(rack@.take(0) =~= Seq::<(char, u32)>::empty());
    }
    while i < n
        invariant
            n == rack@.len(),
            i <= n,
            counts@.len() == 26,
            forall|t: int| 0 <= t < 26 ==> counts@[t] == cap_u32(rack_slot_sum(rack@.take(i as int), t)),
            total == cap_u32(rack_upper_total(rack@.take(i as int))),
            forall|t: int| 0 <= t < 26 ==> rack_slot_sum(rack@.take(i as int), t) >= 0,
            rack_upper_total(rack@.take(i as int)) >= 0,
        decreases n - i,
    {
        let (c, cnt) = rack[i];
        proof {
            lemma_rack_step(rack@, i as int);
        }
        if c >= 'A' && c <= 'Z' {
            let slot = (c as u32 - 65) as usize;
            let cur = counts[slot];
            counts[slot] = cur.saturating_add(cnt);
            total = total.saturating_add(cnt);
        }
        proof {
            assert forall|t: int| 0 <= t < 26 implies #[trigger] rack_slot_sum(rack@.take(i + 1), t) >= 0 by {
                assert(rack_slot_sum(rack@.take(i + 1), t) >= rack_slot_sum(rack@.take(i as int), t));
            }
        }
        i = i + 1;
    }
    proof {
        assert(rack@.take(n as int) =~= rack@);
    }
    (counts, total)
}

/// The longest word of the dictionary that the rack can spell, with at
/// least `min_len` letters; among words of that length, the first in byte
/// order. `None` when no word of `min_len` letters or more can be spelled.
pub fn find_best_playable(dict: &Dictionary, rack: &Vec<(char, u32)>, min_len: usize) -> (r: Option<String>)
    requires
        dict.wf(),
    ensures
        match r {
            Some(w) => exists|i: int| first_playable(dict.length_words(), rack@, min_len as int, i)
                && w@ == dict.length_words()[i],
            None => forall|i: int| 0 <= i < dict.length_words().len() ==> !playable(
                word_bytes(#[trigger] dict.length_words()[i]), rack@, min_len as int),
        },
{
    let (have, total) = rack_counts(rack);
    let ghost words = dict.length_words();
    proof {
        lemma_bytes_views(dict.by_length@);
        lemma_lengths_views(dict.by_length@);
    }
    if (total as usize) < min_len {
        proof {
            assert forall|i: int| 0 <= i < words.len() implies !playable(word_bytes(#[trigger] words[i]), rack@, min_len as int) by {
            }
        }
        return None;
    }
    let n = dict.by_length.len();
    let mut k: usize = 0;
    while k < n
        invariant
            n == words.len(),
            words == dict.length_words(),
            dict.wf(),
            k <= n,
            have@.len() == 26,
            forall|t: int| 0 <= t < 26 ==> have@[t] == cap_u32(rack_slot_sum(rack@, t)),
            total == cap_u32(rack_upper_total(rack@)),
            forall|j: int| 0 <= j < k ==> !playable(word_bytes(#[trigger] words[j]), rack@, min_len as int),
        decreases n - k,
    {
        let word = dict.by_length[k].as_str();
        let bytes = word.as_bytes();
        assert(word@ == words[k as int]);
        assert(bytes@ == word_bytes(words[k as int]));
        let len = bytes.len();
        assert(len < u32::MAX) by {
            assert(word_bytes(words[k as int]).len() < u32::MAX);
        }
        if len < min_len {
            proof {
                let wb = words.map_values(|s: Seq<char>| word_bytes(s));
                assert forall|j: int| 0 <= j < n implies !playable(word_bytes(#[trigger] words[j]), rack@, min_len as int) by {
                    if j > k {
                        assert(wb[k as int] == word_bytes(words[k as int]) && wb[j] == word_bytes(words[j]));
                        assert(!longer_first(wb[j], wb[k as int]));
                    }
                }
            }
            return None;
        }
        if len as u32 > total {
            k = k + 1;
            continue;
        }
        let mut need: Vec<u32> = Vec::new();
        let mut t: usize = 0;
        while t < 26
            invariant
                t <= 26,
                need@.len() == t,
                forall|q: int| 0 <= q < t ==> need@[q] == 0,
            decreases 26 - t,
        {
            need.push(0);
            t = t + 1;
        }
        let mut ok = true;
        let mut j: usize = 0;
        proof {
            assert(bytes@.take(0) =~= Seq::<u8>::empty());
        }
        while j < len
            invariant_except_break
                ok,
            invariant
                len == bytes@.len(),
                len < u32::MAX,
                j <= len,
                need@.len() == 26,
                forall|q: int| 0 <= q < 26 ==> need@[q] == byte_count(bytes@.take(j as int), 65 + q),
                forall|q: int| 0 <= q < j ==> 65 <= #[trigger] bytes@[q] <= 90,
            ensures
                ok ==> j == len,
                !ok ==> j < len && !(65 <= bytes@[j as int] <= 90),
                need@.len() == 26,
                forall|q: int| 0 <= q < 26 ==> need@[q] == byte_count(bytes@.take(j as int), 65 + q),
                forall|q: int| 0 <= q < j ==> 65 <= #[trigger] bytes@[q] <= 90,
            decreases len - j,
        {
            let b = bytes[j];
            if b < 65 || b > 90 {
                ok = false;
                break;
            }
            let slot = (b - 65) as usize;
            proof {
                lemma_byte_step(bytes@, j as int);
                lemma_byte_count_bound(bytes@.take(j as int), 65 + slot);
            }
            let cur = need[slot];
            need[slot] = cur + 1;
            j = j + 1;
        }
        if !ok {
            proof {
                assert(!spells(bytes@, rack@));
            }
            k = k + 1;
            continue;
        }
        proof {
            assert(bytes@.take(len as int) =~= bytes@);
        }
        let mut fits = true;
        let mut q: usize = 0;
        while q < 26
            invariant
                q <= 26,
                need@.len() == 26,
                have@.len() == 26,
                fits ==> forall|p: int| 0 <= p < q ==> need@[p] <= have@[p],
                !fits ==> exists|p: int| 0 <= p < 26 && need@[p] > have@[p],
            decreases 26 - q,
        {
            if need[q] > have[q] {
                fits = false;
            }
            q = q + 1;
        }
        if fits {
            proof {
                assert forall|p: int| 0 <= p < 26 implies #[trigger] byte_count(bytes@, 65 + p) <= cap_u32(rack_slot_sum(rack@, p)) by {
                    assert(need@[p] <= have@[p]);
                }
                assert(spells(bytes@, rack@));
                assert(playable(bytes@, rack@, min_len as int));
                assert(first_playable(words, rack@, min_len as int, k as int));
            }
            return Some(dict.by_length[k].clone());
        }
        proof {
            let p = choose|p: int| 0 <= p < 26 && need@[p] > have@[p];
            assert(byte_count(bytes@, 65 + p) > cap_u32(rack_slot_sum(rack@, p)));
        }
        k = k + 1;
    }
    None
}

proof fn lemma_letter_bytes(s: Seq<char>)
    requires
        forall|i: int| 0 <= i < word_bytes(s).len() ==> 65 <= #[trigger] word_bytes(s)[i] <= 90,
    ensures
        all_upper_letters(s),
        word_bytes(s).len() == s.len(),
    decreases s.len(),
{
    if s.len() > 0 {
        let c = s[0] as u32;
        let e = vstd::utf8::encode_scalar(c);
        let rest = s.drop_first();
        assert(word_bytes(s) == e + word_bytes(rest));
        assert(e.len() > 0);
        assert(word_bytes(s)[0] == e[0]);
        if !vstd::utf8::has_width_1_encoding(c) {
            let y2 = ((c >> 6) & 0x1F) as u8;
            let y3 = ((c >> 12) & 0x0F) as u8;
            let y4 = ((c >> 18) & 0x7) as u8;
            assert((0xC0u8 | y2) >= 0xC0u8) by (bit_vector);
            assert((0xE0u8 | y3) >= 0xE0u8) by (bit_vector);
            assert((0xF0u8 | y4) >= 0xF0u8) by (bit_vector);
            assert(false);
        }
        assert(c <= 0x7f ==> (c & 0x7f) == c) by (bit_vector);
        assert(e == seq![c as u8]);
        assert(c <= 0x7f ==> (c as u8) as u32 == c) by (bit_vector);
        assert(65 <= c <= 90);
        vstd::utf8::char_u32_cast(s[0], c);
        vstd::utf8::char_is_scalar(s[0]);
        assert(s[0] as int == c as int);
        assert('A' as int == 65 && 'Z' as int == 90);
        assert(is_upper_letter(s[0]));
        assert forall|i: int| 0 <= i < word_bytes(rest).len() implies 65 <= #[trigger] word_bytes(rest)[i] <= 90 by {
            assert(word_bytes(rest)[i] == word_bytes(s)[i + 1]);
        }
        lemma_letter_bytes(rest);
        assert forall|i: int| 0 <= i < s.len() implies is_upper_letter(#[trigger] s[i]) by {
            if i > 0 {
                assert(s[i] == rest[i - 1]);
            }
        }
    }
}

/// The word that the longest-word search returns, when it asks for at
/// least two letters, is a word that `is_valid_word` accepts.
pub proof fn lemma_best_playable_is_valid(dict: &Dictionary, rack: Seq<(char, u32)>, min_len: int, i: int)
    requires
        dict.wf(),
        min_len >= 2,
        first_playable(dict.length_words(), rack, min_len, i),
    ensures
        accepts(dict, dict.length_words()[i]),
{
    let w = dict.length_words()[i];
    lemma_letter_bytes(w);
    assert(dict.length_words().contains(w));
}

/// No playable word of the dictionary is longer than the one the search
/// returns, and of the playable words of that length none comes earlier in
/// byte order.
pub proof fn lemma_best_playable_is_longest(
    dict: &Dictionary,
    rack: Seq<(char, u32)>,
    min_len: int,
    i: int,
    w: Seq<char>,
)
    requires
        dict.wf(),
        first_playable(dict.length_words(), rack, min_len, i),
        dict.lex_words().contains(w),
        playable(word_bytes(w), rack, min_len),
    ensures
        word_bytes(w).len() <= word_bytes(dict.length_words()[i]).len(),
        word_bytes(w).len() == word_bytes(dict.length_words()[i]).len() ==> !bytes_less(
            word_bytes(w),
            word_bytes(dict.length_words()[i]),
        ),
{
    let l = dict.length_words();
    assert(l.contains(w));
    let j = choose|j: int| 0 <= j < l.len() && l[j] == w;
    if j < i {
        assert(!playable(word_bytes(l[j]), rack, min_len));
    }
    if j > i {
        let wb = l.map_values(|s: Seq<char>| word_bytes(s));
        assert(wb[i] == word_bytes(l[i]) && wb[j] == word_bytes(l[j]));
        assert(!longer_first(wb[j], wb[i]));
    } else {
        lemma_bytes_less_irreflexive(word_bytes(w));
    }
}

/// The tiles of the first `m` letters A, B, ... on the rack.
spec fn slots_total(rack: Seq<(char, u32)>, m: int) -> int
    decreases m,
{
    if m <= 0 {
        0
    } else {
        slots_total(rack, m - 1) + rack_slot_sum(rack, m - 1)
    }
}

proof fn lemma_slots_total_step(rack: Seq<(char, u32)>, m: int)
    requires
        rack.len() > 0,
        0 <= m <= 26,
    ensures
        slots_total(rack, m) == slots_total(rack.drop_last(), m)
            + if is_upper_letter(rack.last().0) && rack.last().0 as int - 65 < m { rack.last().1 as int } else { 0 },
    decreases m,
{
    if m > 0 {
        lemma_slots_total_step(rack, m - 1);
    }
}

/// The rack's upper-case tiles are its tiles of the letters A to Z.
proof fn lemma_upper_total_slots(rack: Seq<(char, u32)>)
    ensures
        rack_upper_total(rack) == slots_total(rack, 26),
    decreases rack.len(),
{
    if rack.len() > 0 {
        lemma_upper_total_slots(rack.drop_last());
        lemma_slots_total_step(rack, 26);
        let c = rack.last().0;
        assert(is_upper_letter(c) ==> 0 <= c as int - 65 < 26);
    } else {
        lemma_slots_total_empty(rack, 26);
    }
}

proof fn lemma_slots_total_empty(rack: Seq<(char, u32)>, m: int)
    requires
        rack.len() == 0,
    ensures
        slots_total(rack, m) == 0,
    decreases m,
{
    if m > 0 {
        lemma_slots_total_empty(rack, m - 1);
    }
}

proof fn lemma_slots_total_mono(a: Seq<(char, u32)>, b: Seq<(char, u32)>, m: int)
    requires
        0 <= m <= 26,
        forall|k: int| 0 <= k < 26 ==> rack_slot_sum(a, k) <= #[trigger] rack_slot_sum(b, k),
    ensures
        slots_total(a, m) <= slots_total(b, m),
    decreases m,
{
    if m > 0 {
        lemma_slots_total_mono(a, b, m - 1);
        assert(rack_slot_sum(a, m - 1) <= rack_slot_sum(b, m - 1));
    }
}

proof fn lemma_first_playable_exists(words: Seq<Seq<char>>, rack: Seq<(char, u32)>, min_len: int, q: int)
    requires
        0 <= q < words.len(),
        playable(word_bytes(words[q]), rack, min_len),
    ensures
        exists|i: int| 0 <= i <= q && first_playable(words, rack, min_len, i),
    decreases q,
{
    if exists|j: int| 0 <= j < q && playable(word_bytes(#[trigger] words[j]), rack, min_len) {
        let j = choose|j: int| 0 <= j < q && playable(word_bytes(#[trigger] words[j]), rack, min_len);
        lemma_first_playable_exists(words, rack, min_len, j);
    } else {
        assert(first_playable(words, rack, min_len, q));
    }
}

/// A bigger rack never makes the best word shorter: when every letter A-Z
/// is on `bigger` at least as often as on `rack`, any word the search finds
/// for `rack` leaves a word for `bigger` at least as long.
pub proof fn lemma_bigger_rack_no_shorter(dict: &Dictionary, rack: Seq<(char, u32)>, bigger: Seq<(char, u32)>, min_len: int, i: int)
    requires
        dict.wf(),
        forall|k: int| 0 <= k < 26 ==> rack_slot_sum(rack, k) <= #[trigger] rack_slot_sum(bigger, k),
        first_playable(dict.length_words(), rack, min_len, i),
    ensures
        exists|j: int| first_playable(dict.length_words(), bigger, min_len, j)
            && word_bytes(dict.length_words()[j]).len() >= word_bytes(dict.length_words()[i]).len(),
{
    let l = dict.length_words();
    let w = word_bytes(l[i]);
    lemma_upper_total_slots(rack);
    lemma_upper_total_slots(bigger);
    lemma_slots_total_mono(rack, bigger, 26);
    assert forall|k: int| 0 <= k < 26 implies #[trigger] byte_count(w, 65 + k) <= cap_u32(rack_slot_sum(bigger, k)) by {
        assert(byte_count(w, 65 + k) <= cap_u32(rack_slot_sum(rack, k)));
        assert(rack_slot_sum(rack, k) <= rack_slot_sum(bigger, k));
    }
    assert(playable(w, bigger, min_len));
    lemma_first_playable_exists(l, bigger, min_len, i);
    let j = choose|j: int| 0 <= j <= i && first_playable(l, bigger, min_len, j);
    if j < i {
        let wb = l.map_values(|s: Seq<char>| word_bytes(s));
        assert(wb[i] == word_bytes(l[i]) && wb[j] == word_bytes(l[j]));
        assert(!longer_first(wb[i], wb[j]));
    }
}

} // verus!
