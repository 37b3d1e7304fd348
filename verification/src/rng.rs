//! Random draws, through `rand`'s `StdRng`, and the shuffle built on them.
use vstd::prelude::*;
use rand::Rng;
use rand::rngs::StdRng;

verus! {

#[verifier::external_type_specification]
#[verifier::external_body]
pub struct ExStdRng(rand::rngs::StdRng);

/// `Rng::gen_range(0..high)` on `u32`: some value below `high`, which must
/// be positive (an empty range panics).
#[verifier::external_body]
pub(crate) fn random_below(rng: &mut StdRng, high: u32) -> (r: u32)
    requires
        high > 0,
    ensures
        r < high,
{
    rng.gen_range(0..high)
}

/// `Rng::gen_range(0..=high)` on `usize`: some value no greater than `high`.
#[verifier::external_body]
pub(crate) fn random_at_most(rng: &mut StdRng, high: usize) -> (r: usize)
    ensures
        r <= high,
{
    rng.gen_range(0..=high)
}

/// `s` with the elements at `i` and `j` exchanged.
pub open spec fn swap_seq<T>(s: Seq<T>, i: int, j: int) -> Seq<T> {
    s.update(i, s[j]).update(j, s[i])
}

/// Picks that a Fisher-Yates shuffle of `n` elements may use: the pick for
/// step `t` (which swaps position `n - 1 - t`) is at most `n - 1 - t`.
pub open spec fn valid_picks(n: int, picks: Seq<usize>) -> bool {
    &&& n >= 1 ==> picks.len() == n - 1
    &&& n < 1 ==> picks.len() == 0
    &&& forall|t: int| 0 <= t < picks.len() ==> #[trigger] picks[t] <= n - 1 - t
}

/// The first `t` steps of the shuffle: step `k` swaps position
/// `n - 1 - k` with position `picks[k]`.
pub open spec fn shuffle_steps<T>(s: Seq<T>, picks: Seq<usize>, t: int) -> Seq<T>
    decreases t,
{
    if t <= 0 {
        s
    } else {
        swap_seq(shuffle_steps(s, picks, t - 1), s.len() - t, picks[t - 1] as int)
    }
}

/// The Fisher-Yates shuffle of `s` with the given picks.
pub open spec fn shuffled<T>(s: Seq<T>, picks: Seq<usize>) -> Seq<T> {
    shuffle_steps(s, picks, picks.len() as int)
}

/// A shuffle only reorders: it keeps each element as often as it was there.
pub proof fn lemma_shuffle_permutes<T>(s: Seq<T>, picks: Seq<usize>, t: int)
    requires
        valid_picks(s.len() as int, picks),
        0 <= t <= picks.len(),
    ensures
        shuffle_steps(s, picks, t).to_multiset() == s.to_multiset(),
        shuffle_steps(s, picks, t).len() == s.len(),
    decreases t,
{
    broadcast use vstd::seq_lib::group_to_multiset_ensures;

    if t > 0 {
        lemma_shuffle_permutes(s, picks, t - 1);
        let p = shuffle_steps(s, picks, t - 1);
        let i = s.len() - t;
        let j = picks[t - 1] as int;
        vstd::seq_lib::to_multiset_update(p, i, p[j]);
        vstd::seq_lib::to_multiset_update(p.update(i, p[j]), j, p[i]);
        assert(p.update(i, p[j])[j] == if i == j { p[j] } else { p[j] });
        assert(p.to_multiset().remove(p[i]).insert(p[j]).remove(p[j]).insert(p[i]) =~= p.to_multiset());
    }
}

/// Shuffles `v` with the given picks.
pub fn shuffle_with<T: Copy>(v: &mut Vec<T>, picks: &Vec<usize>)
    requires
        valid_picks(old(v)@.len() as int, picks@),
    ensures
        final(v)@ == shuffled(old(v)@, picks@),
{
    let ghost s = v@;
    let n = v.len();
    let m = picks.len();
    let mut t: usize = 0;
    while t < m
        invariant
            n == s.len(),
            m == picks@.len(),
            valid_picks(n as int, picks@),
            t <= m,
            v@ == shuffle_steps(s, picks@, t as int),
            v@.len() == n,
        decreases m - t,
    {
        let i = n - 1 - t;
        let j = picks[t];
        let a = v[i];
        let b = v[j];
        v[i] = b;
        v[j] = a;
        proof {
            assert(v@ =~= swap_seq(shuffle_steps(s, picks@, t as int), s.len() - (t + 1), picks@[t as int] as int));
        }
        t = t + 1;
    }
}

/// Draws the picks of a Fisher-Yates shuffle of `n` elements: for each
/// position from the last down to the second, a position at or before it.
pub fn draw_picks(rng: &mut StdRng, n: usize) -> (picks: Vec<usize>)
    ensures
        valid_picks(n as int, picks@),
{
    let mut picks: Vec<usize> = Vec::new();
    if n == 0 {
        return picks;
    }
    let mut i: usize = n - 1;
    while i >= 1
        invariant
            n >= 1,
            i <= n - 1,
            picks@.len() == n - 1 - i,
            forall|t: int| 0 <= t < picks@.len() ==> #[trigger] picks@[t] <= n - 1 - t,
        decreases i,
    {
        let j = random_at_most(rng, i);
        picks.push(j);
        i = i - 1;
    }
    picks
}

/// Shuffles `v` in place, as `rand`'s draws decide: a Fisher-Yates shuffle
/// with some valid picks, so the result holds the same elements, each as
/// often.
pub fn shuffle<T: Copy>(v: &mut Vec<T>, rng: &mut StdRng)
    ensures
        exists|picks: Seq<usize>| valid_picks(old(v)@.len() as int, picks) && final(v)@ == #[trigger] shuffled(old(v)@, picks),
        final(v)@.len() == old(v)@.len(),
        final(v)@.to_multiset() == old(v)@.to_multiset(),
{
    let picks = draw_picks(rng, v.len());
    proof {
        lemma_shuffle_permutes(v@, picks@, picks@.len() as int);
    }
    shuffle_with(v, &picks);
    proof {
        assert(valid_picks(old(v)@.len() as int, picks@) && v@ == shuffled(old(v)@, picks@));
    }
}

} // verus!
