//! Letter values, the length bonus and the starting bag.
use vstd::prelude::*;
use vstd::string::StrSliceExecFns;
use crate::text::byte_len;

verus! {

/// The Scrabble face value of a letter; 0 for anything that is not an
/// upper-case letter A-Z.
pub open spec fn spec_letter_value(c: char) -> u32 {
    if c == 'A' || c == 'E' || c == 'I' || c == 'O' || c == 'U' || c == 'L' || c == 'N'
        || c == 'S' || c == 'T' || c == 'R' {
        1
    } else if c == 'D' || c == 'G' {
        2
    } else if c == 'B' || c == 'C' || c == 'M' || c == 'P' {
        3
    } else if c == 'F' || c == 'H' || c == 'V' || c == 'W' || c == 'Y' {
        4
    } else if c == 'K' {
        5
    } else if c == 'J' || c == 'X' {
        8
    } else if c == 'Q' || c == 'Z' {
        10
    } else {
        0
    }
}

pub fn letter_value(c: char) -> (v: u32)
    ensures
        v == spec_letter_value(c),
        v <= 10,
{
    match c {
        'A' | 'E' | 'I' | 'O' | 'U' | 'L' | 'N' | 'S' | 'T' | 'R' => 1,
        'D' | 'G' => 2,
        'B' | 'C' | 'M' | 'P' => 3,
        'F' | 'H' | 'V' | 'W' | 'Y' => 4,
        'K' => 5,
        'J' | 'X' => 8,
        'Q' | 'Z' => 10,
        _ => 0,
    }
}

/// The reward multiplier for a word of `len` letters, as a fraction
/// (numerator, denominator): 1x up to three letters, then 1.5x, 2x, 2.5x,
/// and 3x from seven letters on.
pub open spec fn spec_length_multiplier(len: int) -> (i64, i64) {
    if len <= 3 {
        (1, 1)
    } else if len == 4 {
        (3, 2)
    } else if len == 5 {
        (2, 1)
    } else if len == 6 {
        (5, 2)
    } else {
        (3, 1)
    }
}

pub fn length_multiplier(len: usize) -> (m: (i64, i64))
    ensures
        m == spec_length_multiplier(len as int),
{
    match len {
        0..=3 => (1, 1),
        4 => (3, 2),
        5 => (2, 1),
        6 => (5, 2),
        _ => (3, 1),
    }
}

/// The standard Scrabble distribution without blanks, letter by letter.
pub open spec fn spec_default_bag() -> Seq<(char, u32)> {
    seq![
        ('A', 9u32), ('B', 2u32), ('C', 2u32), ('D', 4u32), ('E', 12u32), ('F', 2u32),
        ('G', 3u32), ('H', 2u32), ('I', 9u32), ('J', 1u32), ('K', 1u32), ('L', 4u32),
        ('M', 2u32), ('N', 6u32), ('O', 8u32), ('P', 2u32), ('Q', 1u32), ('R', 6u32),
        ('S', 4u32), ('T', 6u32), ('U', 4u32), ('V', 2u32), ('W', 2u32), ('X', 1u32),
        ('Y', 2u32), ('Z', 1u32),
    ]
}

/// The number of tiles in a bag given as (letter, count) pairs.
pub open spec fn bag_size(bag: Seq<(char, u32)>) -> int
    decreases bag.len(),
{
    if bag.len() == 0 {
        0
    } else {
        bag_size(bag.drop_last()) + bag.last().1
    }
}

pub fn default_bag() -> (bag: Vec<(char, u32)>)
    ensures
        bag@ == spec_default_bag(),
{
    let bag: Vec<(char, u32)> = vec![
        ('A', 9), ('B', 2), ('C', 2), ('D', 4), ('E', 12), ('F', 2), ('G', 3), ('H', 2),
        ('I', 9), ('J', 1), ('K', 1), ('L', 4), ('M', 2), ('N', 6), ('O', 8), ('P', 2),
        ('Q', 1), ('R', 6), ('S', 4), ('T', 6), ('U', 4), ('V', 2), ('W', 2), ('X', 1),
        ('Y', 2), ('Z', 1),
    ];
    assert(bag@ =~= spec_default_bag());
    bag
}

/// The starting bag holds 98 tiles, one entry per letter A-Z in order, each
/// with a positive count.
pub proof fn lemma_default_bag_shape()
    ensures
        bag_size(spec_default_bag()) == 98,
        spec_default_bag().len() == 26,
        forall|i: int| 0 <= i < 26 ==> (#[trigger] spec_default_bag()[i]).0 as int == 65 + i,
        forall|i: int| 0 <= i < 26 ==> (#[trigger] spec_default_bag()[i]).1 > 0,
{
    reveal_with_fuel(bag_size, 27);
    let b = spec_default_bag();
    assert(b.drop_last().drop_last().drop_last().drop_last().drop_last().drop_last().drop_last()
        .drop_last().drop_last().drop_last().drop_last().drop_last().drop_last().drop_last()
        .drop_last().drop_last().drop_last().drop_last().drop_last().drop_last().drop_last()
        .drop_last().drop_last().drop_last().drop_last().drop_last().len() == 0);
}

/// Longer words never earn a smaller multiplier: the multiplier, as a
/// fraction, does not decrease with the word's length, and lies between 1 and 3.
pub proof fn lemma_length_multiplier_monotone(a: int, b: int)
    requires
        a <= b,
    ensures
        spec_length_multiplier(a).0 * spec_length_multiplier(b).1
            <= spec_length_multiplier(b).0 * spec_length_multiplier(a).1,
        spec_length_multiplier(a).1 > 0,
        spec_length_multiplier(a).1 <= spec_length_multiplier(a).0 <= 3 * spec_length_multiplier(a).1,
{
}

/// The sum of the letter values of a word.
pub open spec fn base_score(s: Seq<char>) -> int
    decreases s.len(),
{
    if s.len() == 0 {
        0
    } else {
        base_score(s.drop_last()) + spec_letter_value(s.last())
    }
}

/// (base score, bonus, total reward) of a word: the total is the base score
/// times the length multiplier of the word's byte length, rounded down, and
/// the bonus is what the multiplier adds.
pub open spec fn spec_word_reward(s: Seq<char>) -> (i64, i64, i64) {
    let base = base_score(s);
    let m = spec_length_multiplier(byte_len(s));
    let total = base * (m.0 as int) / (m.1 as int);
    (base as i64, (total - base) as i64, total as i64)
}

proof fn lemma_base_score_bound(s: Seq<char>)
    ensures
        0 <= base_score(s) <= 10 * s.len(),
    decreases s.len(),
{
    if s.len() > 0 {
        lemma_base_score_bound(s.drop_last());
    }
}

/// A word has at least as many bytes as characters.
pub proof fn lemma_byte_len_at_least_len(s: Seq<char>)
    ensures
        byte_len(s) >= s.len(),
    decreases s.len(),
{
    if s.len() > 0 {
        lemma_byte_len_at_least_len(s.drop_first());
        let c = s[0] as u32;
        assert(vstd::utf8::encode_utf8(s) == vstd::utf8::encode_scalar(c) + vstd::utf8::encode_utf8(s.drop_first()));
    }
}

/// The reward of playing `word`.
pub fn word_reward(word: &str) -> (r: (i64, i64, i64))
    requires
        byte_len(word@) < u32::MAX,
    ensures
        r == spec_word_reward(word@),
{
    proof {
        lemma_byte_len_at_least_len(word@);
    }
    let n = word.unicode_len();
    let mut base: i64 = 0;
    let mut i: usize = 0;
    proof {
        assert(word@.take(0) =~= Seq::<char>::empty());
    }
    while i < n
        invariant
            n == word@.len(),
            n < u32::MAX,
            i <= n,
            base == base_score(word@.take(i as int)),
            0 <= base <= 10 * i,
        decreases n - i,
    {
        let c = word.get_char(i);
        proof {
            assert(word@.take(i + 1).drop_last() =~= word@.take(i as int));
        }
        base = base + letter_value(c) as i64;
        i = i + 1;
    }
    proof {
        assert(word@.take(n as int) =~= word@);
    }
    let (num, denom) = length_multiplier(word.len());
    assert(0 <= num <= 5 && 1 <= denom <= 2);
    assert(base * num <= 50 * 4294967295) by (nonlinear_arith)
        requires
            0 <= base <= 10 * n,
            n < 4294967295,
            0 <= num <= 5,
    ;
    let total = base * num / denom;
    (base, total - base, total)
}

/// The reward is never below the base score and never above three times it.
pub proof fn lemma_reward_bounds(s: Seq<char>)
    requires
        byte_len(s) < u32::MAX,
    ensures
        spec_word_reward(s).0 <= spec_word_reward(s).2 <= 3 * spec_word_reward(s).0,
        spec_word_reward(s).1 >= 0,
        spec_word_reward(s).0 >= 0,
        spec_word_reward(s).0 <= 10 * s.len(),
        s.len() < u32::MAX,
{
    lemma_base_score_bound(s);
    lemma_byte_len_at_least_len(s);
    let base = base_score(s);
    let m = spec_length_multiplier(byte_len(s));
    let num = m.0 as int;
    let den = m.1 as int;
    assert(base * num / den >= base && base * num / den <= 3 * base) by (nonlinear_arith)
        requires
            base >= 0,
            (num == 1 && den == 1) || (num == 3 && den == 2) || (num == 2 && den == 1) || (num == 5 && den == 2) || (num == 3 && den == 1),
    ;
}

} // verus!
