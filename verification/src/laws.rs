//! General properties of the heap's contracts, stated over the multiset
//! model that every operation is specified against.

use vstd::multiset::Multiset;
use vstd::prelude::*;

use crate::node::is_max_of;

verus! {

broadcast use vstd::multiset::group_multiset_axioms;

/// The greatest item of a multiset is unique in value: any two items that
/// both dominate the whole content are equal. Together with the contracts
/// of `push` and `peek`, this pins `peek` down to the maximum of whatever
/// has been pushed.
pub proof fn lemma_max_unique(m: Multiset<u64>, a: u64, b: u64)
    requires
        is_max_of(a, m),
        is_max_of(b, m),
    ensures
        a == b,
{
}

/// Pushing an item moves the maximum to the greater of the old maximum and
/// the new item: under a run of pushes with no removals, the maximum that
/// `peek` reports is the maximum of everything pushed so far.
pub proof fn lemma_max_after_insert(m: Multiset<u64>, a: u64, y: u64)
    requires
        is_max_of(a, m),
    ensures
        is_max_of(if y >= a { y } else { a }, m.insert(y)),
{
}

/// The greatest item of a non-empty sequence of pushes.
pub open spec fn seq_max(s: Seq<u64>) -> u64
    recommends
        s.len() > 0,
    decreases s.len(),
{
    if s.len() <= 1 {
        s[0]
    } else if s.last() >= seq_max(s.drop_last()) {
        s.last()
    } else {
        seq_max(s.drop_last())
    }
}

/// For any non-empty sequence of pushed items, the greatest of them is the
/// maximum of the resulting content: a heap built from the sequence answers
/// `peek` with exactly `seq_max` of it.
pub proof fn lemma_seq_max_is_max(s: Seq<u64>)
    requires
        s.len() > 0,
    ensures
        is_max_of(seq_max(s), s.to_multiset()),
    decreases s.len(),
{
    broadcast use vstd::seq_lib::group_to_multiset_ensures;

    if s.len() == 1 {
        assert(s == Seq::<u64>::empty().push(s[0]));
        Seq::<u64>::empty().to_multiset_ensures();
        assert(Seq::<u64>::empty().to_multiset() =~= Multiset::<u64>::empty());
        assert(s.to_multiset() =~= Multiset::<u64>::empty().insert(s[0]));
    } else {
        let t = s.drop_last();
        lemma_seq_max_is_max(t);
        assert(s == t.push(s.last()));
        assert(s.to_multiset() == t.to_multiset().insert(s.last()));
        lemma_max_after_insert(t.to_multiset(), seq_max(t), s.last());
    }
}

/// The stored count rises by exactly one for each push and falls by
/// exactly one for each successful removal, so the reported length always
/// equals pushes so far minus successful removals so far.
pub proof fn lemma_len_bookkeeping(m: Multiset<u64>, x: u64, r: u64)
    requires
        is_max_of(r, m),
    ensures
        m.insert(x).len() == m.len() + 1,
        m.remove(r).len() == m.len() - 1,
{
    assert(Multiset::singleton(r).subset_of(m)) by {
        assert(forall|y: u64| Multiset::singleton(r).count(y) > 0 ==> y == r);
    }
}

/// The content a build reaches depends only on the multiset of the pushed
/// sequence: pushing any permutation of the same items onto equal heaps
/// produces equal content.
pub proof fn lemma_build_permutation_invariant(init: Multiset<u64>, s1: Seq<u64>, s2: Seq<u64>)
    requires
        s1.to_multiset() == s2.to_multiset(),
    ensures
        init.add(s1.to_multiset()) == init.add(s2.to_multiset()),
{
}

/// Every non-empty multiset has a greatest item.
pub proof fn lemma_max_exists(m: Multiset<u64>)
    requires
        m.len() > 0,
    ensures
        exists|x: u64| is_max_of(x, m),
    decreases m.len(),
{
    let v = m.choose();
    let rest = m.remove(v);
    if rest.len() == 0 {
        assert forall|y: u64| m.count(y) > 0 implies y <= v by {
            if y != v {
                assert(rest.count(y) == m.count(y));
                assert(rest.count(y) <= rest.len());
            }
        }
        assert(is_max_of(v, m));
    } else {
        lemma_max_exists(rest);
        let w = choose|x: u64| is_max_of(x, rest);
        if w >= v {
            assert forall|y: u64| m.count(y) > 0 implies y <= w by {
                if y != v {
                    assert(rest.count(y) == m.count(y));
                }
            }
            assert(is_max_of(w, m));
        } else {
            assert forall|y: u64| m.count(y) > 0 implies y <= v by {
                if y != v {
                    assert(rest.count(y) == m.count(y));
                    assert(y <= w);
                }
            }
            assert(is_max_of(v, m));
        }
    }
}

/// Removing the greatest item never uncovers a greater one: successive
/// maxima are non-increasing, so repeated `pop` yields items in
/// non-increasing order.
pub proof fn lemma_pop_nonincreasing(m: Multiset<u64>, a: u64, b: u64)
    requires
        is_max_of(a, m),
        is_max_of(b, m.remove(a)),
    ensures
        b <= a,
{
    assert(m.remove(a).count(b) > 0);
    assert(m.count(b) >= m.remove(a).count(b));
}

/// The greatest item of a non-empty multiset, as a value.
pub open spec fn max_of(m: Multiset<u64>) -> u64 {
    choose|x: u64| is_max_of(x, m)
}

/// The sequence obtained by repeatedly removing the greatest item until
/// nothing is left: the sequence that repeated `pop` produces.
pub open spec fn drain_seq(m: Multiset<u64>) -> Seq<u64>
    decreases m.len(),
    via drain_seq_decreases
{
    if m.len() == 0 {
        Seq::empty()
    } else {
        seq![max_of(m)] + drain_seq(m.remove(max_of(m)))
    }
}

#[via_fn]
proof fn drain_seq_decreases(m: Multiset<u64>) {
    if m.len() != 0 {
        lemma_max_exists(m);
        lemma_remove_max_len(m);
    }
}

/// Removing the greatest item of a non-empty multiset shrinks it by one.
proof fn lemma_remove_max_len(m: Multiset<u64>)
    requires
        m.len() > 0,
        exists|x: u64| is_max_of(x, m),
    ensures
        m.count(max_of(m)) > 0,
        m.remove(max_of(m)).len() == m.len() - 1,
{
    let x = max_of(m);
    assert(is_max_of(x, m));
    assert(Multiset::singleton(x).subset_of(m)) by {
        assert(forall|y: u64|
            Multiset::singleton(x).count(y) > 0 ==> y == x);
    }
}

/// Every element of a sequence occurs in its multiset.
proof fn lemma_index_in_multiset(s: Seq<u64>, i: int)
    requires
        0 <= i < s.len(),
    ensures
        s.to_multiset().count(s[i]) > 0,
{
    broadcast use vstd::seq_lib::group_to_multiset_ensures;

    assert(s.contains(s[i]));
}

/// What `pop` returns is exactly the head of the drain sequence: popping an
/// item that dominates the content takes one step along `drain_seq`, so a
/// run of pops replays `drain_seq` of the starting content.
pub proof fn lemma_pop_follows_drain_seq(m: Multiset<u64>, x: u64)
    requires
        is_max_of(x, m),
    ensures
        drain_seq(m) == seq![x] + drain_seq(m.remove(x)),
{
    assert(m.count(x) > 0);
    assert(m.len() >= m.count(x));
    lemma_max_unique(m, x, max_of(m));
}

/// The sequence is non-increasing from left to right.
pub open spec fn sorted_descending(s: Seq<u64>) -> bool {
    forall|i: int, j: int| 0 <= i <= j < s.len() ==> s[i] >= s[j]
}

/// Pushing any finite multiset of items and then popping until empty
/// produces exactly that multiset, sorted in descending order: the drain
/// sequence holds the same items and is non-increasing.
pub proof fn lemma_drain_seq_sorts(m: Multiset<u64>)
    ensures
        drain_seq(m).to_multiset() == m,
        drain_seq(m).len() == m.len(),
        sorted_descending(drain_seq(m)),
    decreases m.len(),
{
    broadcast use vstd::seq_lib::group_to_multiset_ensures;

    if m.len() == 0 {
        assert(drain_seq(m) == Seq::<u64>::empty());
        assert(Seq::<u64>::empty().to_multiset() =~= m) by {
            Seq::<u64>::empty().to_multiset_ensures();
        }
    } else {
        lemma_max_exists(m);
        lemma_remove_max_len(m);
        let x = max_of(m);
        let rest = m.remove(x);
        let s = drain_seq(m);
        let tail = drain_seq(rest);
        lemma_drain_seq_sorts(rest);
        assert(s == seq![x] + tail);
        vstd::seq_lib::lemma_multiset_commutative(seq![x], tail);
        assert(seq![x].to_multiset() =~= Multiset::singleton(x)) by {
            assert(seq![x] == Seq::<u64>::empty().push(x));
            Seq::<u64>::empty().to_multiset_ensures();
            assert(Seq::<u64>::empty().to_multiset().len() == 0);
            assert(Seq::<u64>::empty().to_multiset() =~= Multiset::<u64>::empty());
        }
        assert(s.to_multiset() =~= m);
        assert(sorted_descending(s)) by {
            assert forall|i: int, j: int| 0 <= i <= j < s.len() implies s[i] >= s[j] by {
                if i == 0 {
                    if j > 0 {
                        assert(s[j] == tail[j - 1]);
                        lemma_index_in_multiset(tail, j - 1);
                        assert(rest.count(tail[j - 1]) > 0);
                        assert(m.count(tail[j - 1]) >= rest.count(tail[j - 1]));
                        assert(s[j] <= x);
                    }
                } else {
                    assert(s[i] == tail[i - 1] && s[j] == tail[j - 1]);
                }
            }
        }
    }
}

} // verus!
