//! Ordering by a ranking relation: each element is inserted before the first
//! one it ranks before.  With a transitive, irreflexive relation the result
//! is sorted, heaviest first.

use vstd::prelude::*;

verus! {

/// Inserts `x` before the first element it ranks before.
pub open spec fn insert_ranked<T>(s: Seq<T>, x: T, before: spec_fn(T, T) -> bool) -> Seq<T>
    decreases s.len(),
{
    if s.len() == 0 {
        seq![x]
    } else if before(x, s[0]) {
        seq![x] + s
    } else {
        seq![s[0]] + insert_ranked(s.drop_first(), x, before)
    }
}

/// The elements ordered by `before`, inserting each in turn.
pub open spec fn ranked_by<T>(s: Seq<T>, before: spec_fn(T, T) -> bool) -> Seq<T>
    decreases s.len(),
{
    if s.len() == 0 {
        Seq::empty()
    } else {
        insert_ranked(ranked_by(s.drop_last(), before), s.last(), before)
    }
}

/// No element ranks before one that precedes it.
pub open spec fn sorted_by<T>(s: Seq<T>, before: spec_fn(T, T) -> bool) -> bool {
    forall|i: int, j: int| 0 <= i < j < s.len() ==> !before(#[trigger] s[j], #[trigger] s[i])
}

/// `before` is a strict order: irreflexive and transitive.
pub open spec fn strict_order<T>(before: spec_fn(T, T) -> bool) -> bool {
    &&& forall|a: T| !#[trigger] before(a, a)
    &&& forall|a: T, b: T, c: T| #[trigger] before(a, b) && #[trigger] before(b, c) ==> before(a, c)
}

pub proof fn lemma_insert_ranked_at<T>(s: Seq<T>, x: T, before: spec_fn(T, T) -> bool, p: int)
    requires
        0 <= p <= s.len(),
        forall|k: int| 0 <= k < p ==> !before(x, #[trigger] s[k]),
        p < s.len() ==> before(x, s[p]),
    ensures
        insert_ranked(s, x, before) == s.insert(p, x),
    decreases p,
{
    if p == 0 {
        assert(insert_ranked(s, x, before) =~= s.insert(0, x));
    } else {
        let t = s.drop_first();
        assert(!before(x, s[0]));
        assert forall|k: int| 0 <= k < p - 1 implies !before(x, #[trigger] t[k]) by {
            assert(t[k] == s[k + 1]);
        }
        lemma_insert_ranked_at(t, x, before, p - 1);
        assert(insert_ranked(s, x, before) =~= s.insert(p, x));
    }
}

/// Inserting keeps a sorted list sorted and adds exactly `x`.
pub proof fn lemma_insert_ranked_sorted<T>(s: Seq<T>, x: T, before: spec_fn(T, T) -> bool)
    requires
        strict_order(before),
        sorted_by(s, before),
    ensures
        sorted_by(insert_ranked(s, x, before), before),
        insert_ranked(s, x, before).len() == s.len() + 1,
        insert_ranked(s, x, before).to_multiset() == s.to_multiset().insert(x),
    decreases s.len(),
{
    broadcast use vstd::seq_lib::group_to_multiset_ensures;

    let r = insert_ranked(s, x, before);
    if s.len() == 0 {
        assert(r =~= seq![x]);
        assert(s =~= Seq::<T>::empty());
        assert(seq![x] =~= Seq::<T>::empty().push(x));
    } else if before(x, s[0]) {
        assert(r =~= seq![x] + s);
        assert forall|i: int, j: int| 0 <= i < j < r.len() implies !before(
            #[trigger] r[j],
            #[trigger] r[i],
        ) by {
            if i == 0 {
                assert(r[j] == s[j - 1]);
                if before(s[j - 1], x) {
                    if j - 1 == 0 {
                        assert(before(s[0], s[0]));
                    } else {
                        assert(before(s[j - 1], s[0]));
                        assert(!before(s[j - 1], s[0]));
                    }
                }
            } else {
                assert(r[i] == s[i - 1] && r[j] == s[j - 1]);
            }
        }
        assert(r =~= s.insert(0, x));
        s.to_multiset_ensures();
        assert(s.insert(0, x).to_multiset() =~= s.to_multiset().insert(x)) by {
            vstd::seq_lib::to_multiset_insert(s, 0, x);
        }
    } else {
        let t = s.drop_first();
        assert forall|i: int, j: int| 0 <= i < j < t.len() implies !before(
            #[trigger] t[j],
            #[trigger] t[i],
        ) by {
            assert(t[i] == s[i + 1] && t[j] == s[j + 1]);
        }
        lemma_insert_ranked_sorted(t, x, before);
        let rt = insert_ranked(t, x, before);
        assert(r =~= seq![s[0]] + rt);
        assert forall|i: int, j: int| 0 <= i < j < r.len() implies !before(
            #[trigger] r[j],
            #[trigger] r[i],
        ) by {
            if i == 0 {
                let y = rt[j - 1];
                assert(r[j] == y);
                assert(rt.to_multiset().count(y) > 0) by {
                    rt.to_multiset_ensures();
                    assert(rt.contains(y));
                }
                assert(t.to_multiset().insert(x).count(y) > 0);
                if y != x {
                    assert(t.to_multiset().count(y) > 0);
                    t.to_multiset_ensures();
                    assert(t.contains(y));
                    let m = choose|m: int| 0 <= m < t.len() && t[m] == y;
                    assert(s[m + 1] == y);
                }
            } else {
                assert(r[i] == rt[i - 1] && r[j] == rt[j - 1]);
            }
        }
        assert(s =~= seq![s[0]] + t);
        vstd::seq_lib::lemma_multiset_commutative(seq![s[0]], t);
        vstd::seq_lib::lemma_multiset_commutative(seq![s[0]], rt);
        assert(seq![s[0]].to_multiset() =~= vstd::multiset::Multiset::empty().insert(s[0])) by {
            assert(seq![s[0]] =~= Seq::<T>::empty().push(s[0]));
            vstd::seq_lib::to_multiset_build(Seq::<T>::empty(), s[0]);
        }
    }
}

/// With a strict order, ranking sorts: nothing follows an element it ranks
/// before, and the result holds exactly the given elements.
pub proof fn lemma_ranked_sorted<T>(s: Seq<T>, before: spec_fn(T, T) -> bool)
    requires
        strict_order(before),
    ensures
        sorted_by(ranked_by(s, before), before),
        ranked_by(s, before).len() == s.len(),
        ranked_by(s, before).to_multiset() == s.to_multiset(),
    decreases s.len(),
{
    broadcast use vstd::seq_lib::group_to_multiset_ensures;

    if s.len() > 0 {
        lemma_ranked_sorted(s.drop_last(), before);
        lemma_insert_ranked_sorted(ranked_by(s.drop_last(), before), s.last(), before);
        assert(s =~= s.drop_last().push(s.last()));
        vstd::seq_lib::to_multiset_build(s.drop_last(), s.last());
    } else {
        assert(ranked_by(s, before) =~= s);
    }
}

/// A prefix of a sorted list is sorted.
pub proof fn lemma_sorted_prefix<T>(s: Seq<T>, before: spec_fn(T, T) -> bool, n: int)
    requires
        sorted_by(s, before),
        0 <= n <= s.len(),
    ensures
        sorted_by(s.take(n), before),
{
    assert forall|i: int, j: int| 0 <= i < j < s.take(n).len() implies !before(
        #[trigger] s.take(n)[j],
        #[trigger] s.take(n)[i],
    ) by {
        assert(s.take(n)[i] == s[i] && s.take(n)[j] == s[j]);
    }
}


/// Elements that tie (neither ranks before the other) rank alike against
/// every third element, as with an order by a key.
pub open spec fn tie_compatible<T>(before: spec_fn(T, T) -> bool) -> bool {
    forall|a: T, b: T, c: T|
        #![trigger before(a, b), before(a, c), before(b, c)]
        #![trigger before(a, b), before(c, a), before(c, b)]
        !before(a, b) && !before(b, a) ==> before(a, c) == before(b, c) && before(c, a) == before(c, b)
}

/// The elements that tie with `c`.
pub open spec fn ties_with<T>(before: spec_fn(T, T) -> bool, c: T) -> spec_fn(T) -> bool {
    |x: T| !before(x, c) && !before(c, x)
}

proof fn lemma_filter_single<T>(x: T, pred: spec_fn(T) -> bool)
    ensures
        seq![x].filter(pred) == if pred(x) {
            seq![x]
        } else {
            Seq::<T>::empty()
        },
{
    reveal(Seq::filter);
    assert(seq![x].drop_last() =~= Seq::<T>::empty());
    assert(seq![x].drop_last().filter(pred) =~= Seq::<T>::empty());
    assert(seq![x].last() == x);
    if pred(x) {
        assert(Seq::<T>::empty().push(x) =~= seq![x]);
    }
}

proof fn lemma_filter_none<T>(s: Seq<T>, pred: spec_fn(T) -> bool)
    requires
        forall|i: int| 0 <= i < s.len() ==> !pred(#[trigger] s[i]),
    ensures
        s.filter(pred) == Seq::<T>::empty(),
    decreases s.len(),
{
    reveal(Seq::filter);
    if s.len() > 0 {
        let t = s.drop_last();
        assert forall|i: int| 0 <= i < t.len() implies !pred(#[trigger] t[i]) by {
            assert(t[i] == s[i]);
        }
        lemma_filter_none(t, pred);
        assert(!pred(s[s.len() - 1]));
    }
}

proof fn lemma_insert_ranked_filter<T>(r: Seq<T>, x: T, before: spec_fn(T, T) -> bool, c: T)
    requires
        strict_order(before),
        tie_compatible(before),
        sorted_by(r, before),
    ensures
        insert_ranked(r, x, before).filter(ties_with(before, c)) == if (ties_with(before, c))(x) {
            r.filter(ties_with(before, c)).push(x)
        } else {
            r.filter(ties_with(before, c))
        },
    decreases r.len(),
{
    let p = ties_with(before, c);
    broadcast use Seq::filter_distributes_over_add;

    lemma_filter_single(x, p);
    if r.len() == 0 {
        assert(r.filter(p) =~= Seq::<T>::empty()) by {
            lemma_filter_none(r, p);
        }
        assert(Seq::<T>::empty().push(x) =~= seq![x]);
    } else if before(x, r[0]) {
        assert(insert_ranked(r, x, before) == seq![x] + r);
        if p(x) {
            assert forall|i: int| 0 <= i < r.len() implies !p(#[trigger] r[i]) by {
                if p(r[i]) {
                    let z = r[i];
                    assert(!before(z, x) && !before(x, z));
                    assert(before(z, r[0]) == before(x, r[0]));
                    if i == 0 {
                        assert(before(r[0], r[0]));
                    } else {
                        assert(!before(r[i], r[0]));
                    }
                }
            }
            lemma_filter_none(r, p);
            assert(seq![x] + Seq::<T>::empty() =~= Seq::<T>::empty().push(x));
        } else {
            assert(Seq::<T>::empty() + r.filter(p) =~= r.filter(p));
        }
    } else {
        let t = r.drop_first();
        assert forall|i: int, j: int| 0 <= i < j < t.len() implies !before(#[trigger] t[j], #[trigger] t[i]) by {
            assert(t[i] == r[i + 1] && t[j] == r[j + 1]);
        }
        lemma_insert_ranked_filter(t, x, before, c);
        assert(insert_ranked(r, x, before) == seq![r[0]] + insert_ranked(t, x, before));
        assert(r =~= seq![r[0]] + t);
        lemma_filter_single(r[0], p);
        let head = seq![r[0]].filter(p);
        if p(x) {
            assert(head + t.filter(p).push(x) =~= (head + t.filter(p)).push(x));
        }
    }
}

/// Ranking is stable: the elements that tie with any given element come out
/// in the order they went in.
pub proof fn lemma_ranked_stable<T>(s: Seq<T>, before: spec_fn(T, T) -> bool, c: T)
    requires
        strict_order(before),
        tie_compatible(before),
    ensures
        ranked_by(s, before).filter(ties_with(before, c)) == s.filter(ties_with(before, c)),
    decreases s.len(),
{
    reveal(Seq::filter);
    if s.len() > 0 {
        lemma_ranked_stable(s.drop_last(), before, c);
        lemma_ranked_sorted(s.drop_last(), before);
        lemma_insert_ranked_filter(ranked_by(s.drop_last(), before), s.last(), before, c);
    }
}

} // verus!
