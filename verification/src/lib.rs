//! A priority queue based on a binomial heap.
//!
//! The heap stores `u64` items and offers the classic binomial-heap
//! operations: amortized O(1) `push`, O(log n) `pop` and `peek`, and an
//! O(log n) `append` that merges two independently built heaps. Every
//! operation is specified against the multiset of stored items; `peek` and
//! `pop` are proved to deliver the greatest of them.

use vstd::multiset::Multiset;
use vstd::prelude::*;

pub mod laws;
pub mod node;

use node::IntoIter;
use node::Iter;
use node::is_max_of;
use node::opt_ms;
use node::opt_wf;
use node::strict;

verus! {

broadcast use {vstd::multiset::group_multiset_axioms, vstd::seq_lib::group_to_multiset_ensures};

/// A priority queue based on a binomial heap.
///
/// Holds a forest of binomial trees together with the exact number of
/// stored items. The abstract view (`self@`) is the multiset of items.
pub struct BinomialHeap {
    root: Option<Box<node::Node>>,
    len: usize,
}

impl View for BinomialHeap {
    type V = Multiset<u64>;

    closed spec fn view(&self) -> Multiset<u64> {
        opt_ms(self.root)
    }
}

impl BinomialHeap {
    /// The forest is well-formed and the counter matches the content.
    pub closed spec fn wf(self) -> bool {
        &&& opt_wf(self.root)
        &&& self.len == opt_ms(self.root).len()
    }

    /// Ranks strictly increase along the root list: the binomial-heap
    /// root-list invariant. It holds of every heap built by `new`, `push`,
    /// `append` and `extend` alone; `pop` folds the removed root's children
    /// (whose ranks descend) back in unreversed and so does not restore it.
    /// No observable result depends on it.
    pub closed spec fn rank_sorted(self) -> bool {
        strict(self.root)
    }

    /// Returns a new, empty heap.
    pub fn new() -> (r: Self)
        ensures
            r.wf(),
            r.rank_sorted(),
            r@ == Multiset::<u64>::empty(),
    {
        proof {
            node::lemma_opt_unfold(None::<Box<node::Node>>);
            node::lemma_rank_unfold(None::<Box<node::Node>>);
        }
        BinomialHeap { root: None, len: 0 }
    }

    /// Checks if the heap is empty.
    pub fn is_empty(&self) -> (r: bool)
        requires
            self.wf(),
        ensures
            r <==> self@.len() == 0,
    {
        proof {
            node::lemma_opt_unfold(self.root);
            if self.root.is_some() {
                node::lemma_chain_unfold(*self.root.unwrap());
            }
        }
        self.root.is_none()
    }

    /// Returns the number of items in the heap.
    pub fn len(&self) -> (r: usize)
        requires
            self.wf(),
        ensures
            r == self@.len(),
    {
        self.len
    }

    /// Returns an iterator that yields references to the items of the heap
    /// in arbitrary order.
    pub fn iter(&self) -> (r: Iter<'_>)
        requires
            self.wf(),
        ensures
            r.wf(),
            r.pending() == self@,
            r.len == self@.len(),
    {
        node::iter(&self.root, self.len)
    }

    /// Returns a reference to the greatest item in the heap, or `None` if
    /// the heap is empty.
    pub fn peek(&self) -> (r: Option<&u64>)
        requires
            self.wf(),
        ensures
            r.is_none() <==> self@.len() == 0,
            match r {
                None => self@.len() == 0,
                Some(x) => is_max_of(*x, self@),
            },
    {
        proof {
            node::lemma_opt_unfold(self.root);
            if self.root.is_some() {
                node::lemma_chain_unfold(*self.root.unwrap());
            }
        }
        node::peek(&self.root)
    }

    /// Pushes the given item onto the heap.
    pub fn push(&mut self, item: u64)
        requires
            old(self).wf(),
            old(self)@.len() < usize::MAX,
        ensures
            final(self).wf(),
            final(self)@ == old(self)@.insert(item),
            old(self).rank_sorted() ==> final(self).rank_sorted(),
    {
        node::push(&mut self.root, item);
        self.len = self.len + 1;
    }

    /// Moves the given heap's items into this heap, leaving the given heap
    /// empty.
    pub fn append(&mut self, other: &mut Self)
        requires
            old(self).wf(),
            old(other).wf(),
            old(self)@.len() + old(other)@.len() <= usize::MAX,
        ensures
            final(self).wf(),
            final(other).wf(),
            final(self)@ == old(self)@.add(old(other)@),
            final(other)@ == Multiset::<u64>::empty(),
            old(self).rank_sorted() && old(other).rank_sorted() ==> final(self).rank_sorted(),
            final(other).rank_sorted(),
    {
        if self.root.is_none() {
            core::mem::swap(self, other);
            proof {
                node::lemma_opt_unfold(old(self).root);
                node::lemma_rank_unfold(old(self).root);
                assert(self@ =~= old(self)@.add(old(other)@));
            }
        } else {
            let mut r0 = self.root.take().unwrap();
            proof {
                node::lemma_opt_unfold(old(self).root);
                node::lemma_opt_unfold(old(other).root);
            }
            let o = other.root.take();
            node::append(&mut r0, o);
            self.root = Some(r0);
            self.len = self.len + other.len;
            other.len = 0;
            proof {
                node::lemma_opt_unfold(self.root);
                node::lemma_opt_unfold(None::<Box<node::Node>>);
                node::lemma_rank_unfold(None::<Box<node::Node>>);
            }
        }
    }

    /// Pushes the given item onto the heap, then removes the greatest item
    /// in the heap and returns it.
    pub fn push_pop(&mut self, item: u64) -> (r: u64)
        requires
            old(self).wf(),
            old(self)@.len() < usize::MAX,
        ensures
            final(self).wf(),
            is_max_of(r, old(self)@.insert(item)),
            final(self)@ == old(self)@.insert(item).remove(r),
    {
        self.push(item);
        let r = self.pop();
        proof {
            assert(old(self)@.insert(item).len() > 0);
        }
        r.unwrap()
    }

    /// Removes the greatest item in the heap, then pushes the given item
    /// onto the heap. Returns the item that was removed, or `None` if the
    /// heap was empty.
    pub fn replace(&mut self, item: u64) -> (r: Option<u64>)
        requires
            old(self).wf(),
        ensures
            final(self).wf(),
            match r {
                None => {
                    &&& old(self)@.len() == 0
                    &&& final(self)@ == old(self)@.insert(item)
                },
                Some(x) => {
                    &&& is_max_of(x, old(self)@)
                    &&& final(self)@ == old(self)@.remove(x).insert(item)
                },
            },
    {
        let max = self.pop();
        self.push(item);
        max
    }

    /// Removes the greatest item in the heap and returns it, or `None` if
    /// the heap was empty.
    pub fn pop(&mut self) -> (r: Option<u64>)
        requires
            old(self).wf(),
        ensures
            final(self).wf(),
            r.is_none() <==> old(self)@.len() == 0,
            match r {
                None => {
                    &&& old(self)@.len() == 0
                    &&& final(self)@ == old(self)@
                },
                Some(x) => {
                    &&& is_max_of(x, old(self)@)
                    &&& final(self)@ == old(self)@.remove(x)
                },
            },
    {
        proof {
            node::lemma_opt_unfold(old(self).root);
        }
        node::pop(&mut self.root, &mut self.len)
    }

    /// Removes all items from the heap.
    pub fn clear(&mut self)
        ensures
            final(self).wf(),
            final(self).rank_sorted(),
            final(self)@ == Multiset::<u64>::empty(),
    {
        *self = Self::new();
    }

    /// Removes all items from the heap and returns an iterator that yields
    /// them in arbitrary order. The heap is empty as soon as this returns,
    /// whether or not the iterator is ever consumed.
    pub fn drain(&mut self) -> (r: Drain)
        requires
            old(self).wf(),
        ensures
            final(self).wf(),
            final(self)@ == Multiset::<u64>::empty(),
            r.wf(),
            r.pending() == old(self)@,
    {
        let root = self.root.take();
        let len = self.len;
        self.len = 0;
        proof {
            node::lemma_opt_unfold(None::<Box<node::Node>>);
        }
        Drain { iter: node::into_iter(root, len) }
    }

    /// Pushes every item of the given sequence onto the heap, in sequence
    /// order.
    pub fn extend(&mut self, items: Vec<u64>)
        requires
            old(self).wf(),
            old(self)@.len() + items@.len() <= usize::MAX,
        ensures
            final(self).wf(),
            final(self)@ == old(self)@.add(items@.to_multiset()),
            old(self).rank_sorted() ==> final(self).rank_sorted(),
    {
        let n = items.len();
        let mut i: usize = 0;
        while i < n
            invariant
                self.wf(),
                0 <= i <= n,
                n == items@.len(),
                self@ == old(self)@.add(items@.take(i as int).to_multiset()),
                old(self)@.len() + items@.len() <= usize::MAX,
                old(self).rank_sorted() ==> self.rank_sorted(),
            decreases n - i,
        {
            proof {
                items@.take(i as int).to_multiset_ensures();
                assert(self@.len() < usize::MAX);
            }
            self.push(items[i]);
            proof {
                assert(items@.take(i + 1) =~= items@.take(i as int).push(items@[i as int]));
            }
            i = i + 1;
        }
        proof {
            assert(items@.take(n as int) =~= items@);
        }
    }

    /// Builds a heap holding every item of the given sequence. The result
    /// depends only on the multiset of items, not on their order.
    pub fn from_iter(items: Vec<u64>) -> (r: Self)
        ensures
            r.wf(),
            r.rank_sorted(),
            r@ == items@.to_multiset(),
    {
        let mut heap = Self::new();
        let n = items.len();
        proof {
            assert(heap@.len() + items@.len() <= usize::MAX);
        }
        heap.extend(items);
        heap
    }

    /// Consumes the heap, returning an iterator that yields every stored
    /// item in arbitrary order.
    pub fn into_iter(self) -> (r: IntoIter)
        requires
            self.wf(),
        ensures
            r.wf(),
            r.pending() == self@,
            r.len == self@.len(),
    {
        node::into_iter(self.root, self.len)
    }
}

impl Default for BinomialHeap {
    /// Returns a new, empty heap.
    fn default() -> (r: Self)
        ensures
            r.wf(),
            r.rank_sorted(),
            r@ == Multiset::<u64>::empty(),
    {
        Self::new()
    }
}

/// An iterator that drains a `BinomialHeap`, yielding its items in
/// arbitrary order. Acquired through [`BinomialHeap::drain`].
pub struct Drain {
    iter: IntoIter,
}

impl Drain {
    /// The multiset of items this iterator has yet to yield.
    pub closed spec fn pending(self) -> Multiset<u64> {
        self.iter.pending()
    }

    /// The remaining count matches the pending items.
    pub closed spec fn wf(self) -> bool {
        self.iter.wf()
    }

    /// Yields some not-yet-yielded item, or `None` once every item has been
    /// yielded.
    pub fn next(&mut self) -> (r: Option<u64>)
        requires
            old(self).wf(),
        ensures
            final(self).wf(),
            match r {
                None => {
                    &&& old(self).pending().len() == 0
                    &&& final(self).pending() == old(self).pending()
                },
                Some(x) => {
                    &&& old(self).pending().count(x) > 0
                    &&& final(self).pending() == old(self).pending().remove(x)
                },
            },
    {
        self.iter.next()
    }

    /// The exact number of items still to be yielded.
    pub fn len(&self) -> (r: usize)
        requires
            self.wf(),
        ensures
            r == self.pending().len(),
    {
        self.iter.len()
    }

    /// Exact bounds on the number of items still to be yielded.
    pub fn size_hint(&self) -> (r: (usize, Option<usize>))
        requires
            self.wf(),
        ensures
            r.0 == self.pending().len(),
            r.1 == Some(r.0),
    {
        self.iter.size_hint()
    }
}

} // verus!
