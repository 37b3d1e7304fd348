//! A stable insertion sort over rows that know which of two rows goes first.
use vstd::prelude::*;

verus! {

/// Rows with an order of precedence: `a.precedes(&b)` when `a` must come
/// strictly before `b`.
pub trait Ranked: Sized {
    spec fn precedes(&self, other: &Self) -> bool;

    fn precedes_exec(&self, other: &Self) -> (b: bool)
        ensures
            b == self.precedes(other),
    ;
}

/// `x` placed into `s` just before the first row that it precedes (after
/// every row that it does not precede), which keeps equal rows in the order
/// they came.
pub open spec fn insert_ranked<T: Ranked>(s: Seq<T>, x: T) -> Seq<T>
    decreases s.len(),
{
    if s.len() == 0 {
        seq![x]
    } else if x.precedes(&s[0]) {
        seq![x] + s
    } else {
        seq![s[0]] + insert_ranked(s.drop_first(), x)
    }
}

/// The stable sort of `s`: each row in turn is placed into the sorted rows
/// before it.
pub open spec fn sort_ranked<T: Ranked>(s: Seq<T>) -> Seq<T>
    decreases s.len(),
{
    if s.len() == 0 {
        Seq::empty()
    } else {
        insert_ranked(sort_ranked(s.drop_last()), s.last())
    }
}

/// The position at which `insert_ranked` puts `x`: the first row that `x`
/// precedes, or the end.
pub open spec fn insert_position<T: Ranked>(s: Seq<T>, x: T, p: int) -> bool {
    &&& 0 <= p <= s.len()
    &&& forall|j: int| 0 <= j < p ==> !x.precedes(&#[trigger] s[j])
    &&& (p < s.len() ==> x.precedes(&s[p]))
}

proof fn lemma_insert_at<T: Ranked>(s: Seq<T>, x: T, p: int)
    requires
        insert_position(s, x, p),
    ensures
        insert_ranked(s, x) == s.take(p) + seq![x] + s.skip(p),
    decreases s.len(),
{
    if s.len() == 0 {
        assert(s.take(p) + seq![x] + s.skip(p) =~= seq![x]);
    } else if x.precedes(&s[0]) {
        assert(p == 0);
        assert(s.take(p) + seq![x] + s.skip(p) =~= seq![x] + s);
    } else {
        assert(p > 0);
        let t = s.drop_first();
        assert forall|j: int| 0 <= j < p - 1 implies !x.precedes(&#[trigger] t[j]) by {
            assert(t[j] == s[j + 1]);
        }
        if p - 1 < t.len() {
            assert(t[p - 1] == s[p]);
        }
        lemma_insert_at(t, x, p - 1);
        assert(s.take(p) + seq![x] + s.skip(p) =~= seq![s[0]] + (t.take(p - 1) + seq![x] + t.skip(
            p - 1,
        )));
    }
}

/// Inserting keeps every row and adds `x` once.
pub proof fn lemma_insert_ranked_multiset<T: Ranked>(s: Seq<T>, x: T)
    ensures
        insert_ranked(s, x).to_multiset() == s.to_multiset().insert(x),
        insert_ranked(s, x).len() == s.len() + 1,
    decreases s.len(),
{
    broadcast use vstd::seq_lib::group_to_multiset_ensures;

    if s.len() == 0 {
        assert(seq![x] =~= Seq::<T>::empty().push(x));
    } else if x.precedes(&s[0]) {
        assert(seq![x] + s =~= s.insert(0, x));
        vstd::seq_lib::lemma_seq_union_to_multiset_commutative(seq![x], s);
        assert((seq![x] + s).to_multiset() =~= seq![x].to_multiset().add(s.to_multiset()));
        assert(seq![x] =~= Seq::<T>::empty().push(x));
    } else {
        let t = s.drop_first();
        lemma_insert_ranked_multiset(t, x);
        assert(s =~= seq![s[0]] + t);
        vstd::seq_lib::lemma_multiset_commutative(seq![s[0]], t);
        vstd::seq_lib::lemma_multiset_commutative(seq![s[0]], insert_ranked(t, x));
        assert(seq![s[0]] =~= Seq::<T>::empty().push(s[0]));
    }
}

/// Sorting keeps exactly the rows it was given: the result is a permutation.
pub proof fn lemma_sort_ranked_multiset<T: Ranked>(s: Seq<T>)
    ensures
        sort_ranked(s).to_multiset() == s.to_multiset(),
        sort_ranked(s).len() == s.len(),
    decreases s.len(),
{
    broadcast use vstd::seq_lib::group_to_multiset_ensures;

    if s.len() > 0 {
        lemma_sort_ranked_multiset(s.drop_last());
        lemma_insert_ranked_multiset(sort_ranked(s.drop_last()), s.last());
        assert(s =~= s.drop_last().push(s.last()));
    }
}

/// Sorting gives `x` placed into the sorted rows before it.
pub fn insert_ranked_exec<T: Ranked>(out: &mut Vec<T>, x: T)
    ensures
        final(out)@ == insert_ranked(old(out)@, x),
{
    let mut p: usize = 0;
    while p < out.len()
        invariant
            0 <= p <= out.len(),
            forall|j: int| 0 <= j < p ==> !x.precedes(&#[trigger] out@[j]),
        ensures
            0 <= p <= out.len(),
            forall|j: int| 0 <= j < p ==> !x.precedes(&#[trigger] out@[j]),
            p < out.len() ==> x.precedes(&out@[p as int]),
        decreases out.len() - p,
    {
        if x.precedes_exec(&out[p]) {
            break;
        }
        p = p + 1;
    }
    proof {
        lemma_insert_at(out@, x, p as int);
        assert(out@.insert(p as int, x) =~= out@.take(p as int) + seq![x] + out@.skip(p as int));
    }
    out.insert(p, x);
}

/// A stable sort: rows that precede others come first, and rows of equal
/// rank keep their order.
pub fn stable_sort<T: Ranked>(v: Vec<T>) -> (r: Vec<T>)
    ensures
        r@ == sort_ranked(v@),
{
    let ghost all = v@;
    let mut rest = v;
    let mut out: Vec<T> = Vec::new();
    let mut i: usize = 0;
    let n = rest.len();
    proof {
        assert(all.take(0) =~= Seq::<T>::empty());
    }
    while rest.len() > 0
        invariant
            n == all.len(),
            i + rest.len() == n,
            rest@ == all.skip(i as int),
            out@ == sort_ranked(all.take(i as int)),
        decreases rest.len(),
    {
        let x = rest.remove(0);
        proof {
            assert(x == all[i as int]);
            assert(all.take(i + 1).drop_last() =~= all.take(i as int));
            assert(rest@ =~= all.skip(i + 1));
        }
        insert_ranked_exec(&mut out, x);
        i = i + 1;
    }
    proof {
        assert(all.take(i as int) =~= all);
    }
    out
}

/// No row of `s` is preceded by a row placed after it.
pub open spec fn is_ranked<T: Ranked>(s: Seq<T>) -> bool {
    forall|i: int, j: int| #![trigger s[i], s[j]] 0 <= i < j < s.len() ==> !s[j].precedes(&s[i])
}

/// Precedence is a strict order: never both ways, and transitive.
pub open spec fn strict_order<T: Ranked>() -> bool {
    &&& forall|a: T, b: T| #[trigger] a.precedes(&b) ==> !b.precedes(&a)
    &&& forall|a: T, b: T, c: T| #[trigger] a.precedes(&b) && #[trigger] b.precedes(&c) ==> a.precedes(&c)
}

proof fn lemma_insert_ranked_sorted<T: Ranked>(s: Seq<T>, x: T)
    requires
        strict_order::<T>(),
        is_ranked(s),
    ensures
        is_ranked(insert_ranked(s, x)),
    decreases s.len(),
{
    if s.len() == 0 {
    } else if x.precedes(&s[0]) {
        let r = seq![x] + s;
        assert forall|i: int, j: int| #![trigger r[i], r[j]] 0 <= i < j < r.len() implies !r[j].precedes(&r[i]) by {
            if i == 0 {
                assert(r[j] == s[j - 1]);
                if j - 1 > 0 {
                    assert(!s[j - 1].precedes(&s[0]));
                }
                if r[j].precedes(&x) {
                    assert(s[j - 1].precedes(&s[0]));
                }
            } else {
                assert(r[j] == s[j - 1] && r[i] == s[i - 1]);
            }
        }
    } else {
        let t = s.drop_first();
        assert(is_ranked(t)) by {
            assert forall|i: int, j: int| #![trigger t[i], t[j]] 0 <= i < j < t.len() implies !t[j].precedes(&t[i]) by {
                assert(t[j] == s[j + 1] && t[i] == s[i + 1]);
            }
        }
        lemma_insert_ranked_sorted(t, x);
        lemma_insert_ranked_multiset(t, x);
        let it = insert_ranked(t, x);
        let r = seq![s[0]] + it;
        assert forall|i: int, j: int| #![trigger r[i], r[j]] 0 <= i < j < r.len() implies !r[j].precedes(&r[i]) by {
            if i == 0 {
                assert(r[j] == it[j - 1]);
                assert(it.to_multiset().count(it[j - 1]) > 0) by {
                    vstd::seq_lib::to_multiset_contains(it, it[j - 1]);
                    assert(it.contains(it[j - 1]));
                }
                assert(t.to_multiset().insert(x).count(it[j - 1]) > 0);
                if it[j - 1] == x {
                } else {
                    assert(t.to_multiset().count(it[j - 1]) > 0);
                    vstd::seq_lib::to_multiset_contains(t, it[j - 1]);
                    let k = choose|k: int| 0 <= k < t.len() && t[k] == it[j - 1];
                    assert(s[k + 1] == t[k]);
                }
            } else {
                assert(r[j] == it[j - 1] && r[i] == it[i - 1]);
            }
        }
    }
}

/// Under a strict order, the sort puts no row after one it precedes.
pub proof fn lemma_sort_ranked_sorted<T: Ranked>(s: Seq<T>)
    requires
        strict_order::<T>(),
    ensures
        is_ranked(sort_ranked(s)),
    decreases s.len(),
{
    if s.len() > 0 {
        lemma_sort_ranked_sorted(s.drop_last());
        lemma_insert_ranked_sorted(sort_ranked(s.drop_last()), s.last());
    }
}

} // verus!
