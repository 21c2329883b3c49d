//! The tree engine of the binomial heap: the recursive node representation
//! together with the link, merge, coalesce and remove-max algorithms.
//!
//! A forest (root list) is a chain of trees connected through `next`; a
//! tree's children hang off `child`. The heap's contents are modelled as a
//! `Multiset<u64>`, and every operation is specified by how it transforms
//! that multiset.

use vstd::multiset::Multiset;
use vstd::prelude::*;

verus! {

broadcast use vstd::multiset::group_multiset_axioms;

/// The root of a binomial tree of rank `order`. `next` links to the next
/// sibling tree in a root or child list; `child` links to the first (highest
/// order) child.
pub struct Node {
    pub item: u64,
    pub order: usize,
    pub next: Option<Box<Node>>,
    pub child: Option<Box<Node>>,
}

/// 2^k, used to relate a tree's order to the number of items it holds.
pub open spec fn two_to(k: nat) -> nat
    decreases k,
{
    if k == 0 {
        1
    } else {
        2 * two_to((k - 1) as nat)
    }
}

/// Every rank is strictly below the size of a tree of that rank.
pub proof fn lemma_order_lt_two_to(k: nat)
    ensures
        k < two_to(k),
    decreases k,
{
    if k > 0 {
        lemma_order_lt_two_to((k - 1) as nat);
    }
}

/// The items stored in the chain headed by `o`, or nothing if `o` is absent.
pub open spec fn opt_ms(o: Option<Box<Node>>) -> Multiset<u64>
    decreases o, 0int,
{
    match o {
        None => Multiset::empty(),
        Some(b) => chain_ms(*b),
    }
}

/// The items stored in the single tree rooted at `n` (its siblings excluded).
pub open spec fn tree_ms(n: Node) -> Multiset<u64>
    decreases n, 0int,
{
    Multiset::singleton(n.item).add(opt_ms(n.child))
}

/// The items stored in `n`'s tree and in all trees after it in its chain.
pub open spec fn chain_ms(n: Node) -> Multiset<u64>
    decreases n, 1int,
{
    tree_ms(n).add(opt_ms(n.next))
}

/// Every item of `m` is at most `x`.
pub open spec fn all_le(m: Multiset<u64>, x: u64) -> bool {
    forall|y: u64| m.count(y) > 0 ==> y <= x
}

/// `x` occurs in `m` and no item of `m` exceeds it.
pub open spec fn is_max_of(x: u64, m: Multiset<u64>) -> bool {
    &&& m.count(x) > 0
    &&& all_le(m, x)
}

/// Well-formedness of an optional chain.
pub open spec fn opt_wf(o: Option<Box<Node>>) -> bool
    decreases o, 0int,
{
    match o {
        None => true,
        Some(b) => wf(*b),
    }
}

/// The child list of a rank-`k` node carries ranks `k-1`, `k-2`, …, `0` in
/// that order: the binomial shape of the tree.
pub open spec fn kids_orders(o: Option<Box<Node>>, k: int) -> bool
    decreases o,
{
    match o {
        None => k == 0,
        Some(c) => c.order as int == k - 1 && kids_orders(c.next, k - 1),
    }
}

/// Well-formedness of a chain of trees: every node dominates all items
/// below it (the max-heap property), and every node's children carry the
/// ranks its own rank demands, so a tree of rank `k` holds exactly 2^k
/// items.
pub open spec fn wf(n: Node) -> bool
    decreases n, 1int,
{
    &&& opt_wf(n.child)
    &&& opt_wf(n.next)
    &&& all_le(opt_ms(n.child), n.item)
    &&& kids_orders(n.child, n.order as int)
}

/// A rank-`k` tree holds exactly 2^k items; its child list alone holds
/// 2^k - 1 of them.
pub proof fn lemma_kids_size(o: Option<Box<Node>>, k: int)
    requires
        opt_wf(o),
        kids_orders(o, k),
    ensures
        k >= 0,
        opt_ms(o).len() == two_to(k as nat) - 1,
    decreases o,
{
    match o {
        None => {}
        Some(c) => {
            lemma_kids_size(c.child, c.order as int);
            lemma_kids_size(c.next, k - 1);
            assert(opt_ms(o) == chain_ms(*c));
            assert(chain_ms(*c) == tree_ms(*c).add(opt_ms(c.next)));
            assert(tree_ms(*c).len() == two_to(c.order as nat));
        }
    }
}

/// The exact size of a well-formed tree.
pub proof fn lemma_tree_size(n: Node)
    requires
        wf(n),
    ensures
        tree_ms(n).len() == two_to(n.order as nat),
{
    lemma_kids_size(n.child, n.order as int);
}

/// The sum of 2^order over every tree of a forest.
pub open spec fn forest_rank_sum(o: Option<Box<Node>>) -> nat
    decreases o,
{
    match o {
        None => 0,
        Some(c) => two_to(c.order as nat) + forest_rank_sum(c.next),
    }
}

/// The number of items a forest stores always equals the sum of 2^order
/// over its trees.
pub proof fn lemma_forest_count(o: Option<Box<Node>>)
    requires
        opt_wf(o),
    ensures
        opt_ms(o).len() == forest_rank_sum(o),
    decreases o,
{
    match o {
        None => {}
        Some(c) => {
            lemma_tree_size(*c);
            lemma_forest_count(c.next);
            assert(opt_ms(o) == tree_ms(*c).add(opt_ms(c.next)));
        }
    }
}

/// The number of trees in `n`'s chain.
pub open spec fn chain_len(n: Node) -> nat
    decreases n,
{
    1 + match n.next {
        None => 0nat,
        Some(s) => chain_len(*s),
    }
}

/// The number of trees in an optional chain.
pub open spec fn opt_chain_len(o: Option<Box<Node>>) -> nat {
    match o {
        None => 0,
        Some(b) => chain_len(*b),
    }
}

/// Ranks strictly increase along the chain: the binomial-heap root-list
/// invariant proper. It holds of every forest built by `push` and `append`
/// alone; reinserting a removed root's children (whose ranks descend)
/// trades it away, which costs nothing towards what the heap returns.
pub open spec fn strict(o: Option<Box<Node>>) -> bool
    decreases o,
{
    match o {
        None => true,
        Some(c) => {
            &&& match c.next {
                None => true,
                Some(d) => c.order < d.order,
            }
            &&& strict(c.next)
        },
    }
}

/// Ranks never decrease along the chain and no rank appears three times in
/// a row: what a merge of two strictly increasing root lists guarantees,
/// and what the repairing pass relies on.
pub open spec fn nodup3(o: Option<Box<Node>>) -> bool
    decreases o,
{
    match o {
        None => true,
        Some(c) => {
            &&& match c.next {
                None => true,
                Some(d) => c.order <= d.order && match d.next {
                    None => true,
                    Some(e) => !(c.order == d.order && d.order == e.order),
                },
            }
            &&& nodup3(c.next)
        },
    }
}

/// The shape the repairing pass sees at each step: non-decreasing at the
/// head, and no tripled rank from the second tree on. The head window
/// itself may hold three equal ranks, which linking two equal-rank trees in
/// front of an equal-rank pair can produce.
pub open spec fn head_ok(o: Option<Box<Node>>) -> bool {
    match o {
        None => true,
        Some(c) => {
            &&& match c.next {
                None => true,
                Some(d) => c.order <= d.order,
            }
            &&& nodup3(c.next)
        },
    }
}

/// The first two trees of the chain share a rank.
pub open spec fn dup_head(o: Option<Box<Node>>) -> bool {
    match o {
        Some(c) => match c.next {
            Some(d) => c.order == d.order,
            None => false,
        },
        None => false,
    }
}

/// The first three trees of the chain share a rank. The repairing pass
/// then defers the first of them and links the pair behind it, so only in
/// this shape may the head keep its rank.
pub open spec fn trip_head(o: Option<Box<Node>>) -> bool {
    match o {
        Some(c) => match c.next {
            Some(d) => match d.next {
                Some(e) => c.order == d.order && d.order == e.order,
                None => false,
            },
            None => false,
        },
        None => false,
    }
}

/// Definitional unrolling of the rank-order predicates at one link of the
/// chain.
pub proof fn lemma_rank_unfold(o: Option<Box<Node>>)
    ensures
        o.is_none() ==> strict(o) && nodup3(o) && head_ok(o),
        o.is_some() ==> (strict(o) <==> ((match o.unwrap().next {
            None => true,
            Some(d) => o.unwrap().order < d.order,
        }) && strict(o.unwrap().next))),
        o.is_some() ==> (nodup3(o) <==> ((match o.unwrap().next {
            None => true,
            Some(d) => o.unwrap().order <= d.order && match d.next {
                None => true,
                Some(e) => !(o.unwrap().order == d.order && d.order == e.order),
            },
        }) && nodup3(o.unwrap().next))),
{
}

/// A strictly increasing chain is in particular non-decreasing with no
/// tripled rank, and acceptable to the repairing pass.
pub proof fn lemma_strict_nodup3(o: Option<Box<Node>>)
    ensures
        strict(o) ==> nodup3(o),
        nodup3(o) ==> head_ok(o),
    decreases o,
{
    match o {
        None => {}
        Some(c) => {
            lemma_strict_nodup3(c.next);
        }
    }
}

/// Definitional unrolling of the chain measures at one node, packaged so
/// that proofs can open a chain without running out of recursion fuel.
pub proof fn lemma_chain_unfold(n: Node)
    ensures
        chain_ms(n) == tree_ms(n).add(opt_ms(n.next)),
        chain_len(n) == 1 + opt_chain_len(n.next),
        wf(n) <==> (opt_wf(n.child) && opt_wf(n.next) && all_le(opt_ms(n.child), n.item)
            && kids_orders(n.child, n.order as int)),
{
}

/// Definitional unrolling of the optional-chain measures.
pub proof fn lemma_opt_unfold(o: Option<Box<Node>>)
    ensures
        o.is_none() ==> opt_ms(o) == Multiset::<u64>::empty(),
        o.is_none() ==> opt_wf(o),
        o.is_none() ==> opt_chain_len(o) == 0,
        o.is_some() ==> opt_ms(o) == chain_ms(*o.unwrap()),
        o.is_some() ==> (opt_wf(o) <==> wf(*o.unwrap())),
        o.is_some() ==> opt_chain_len(o) == chain_len(*o.unwrap()),
{
}

/// Makes `b` the first child of `a`, producing a tree of the next rank.
fn link(a: &mut Node, b: Box<Node>)
    requires
        wf(*old(a)),
        wf(*b),
        b.next.is_none(),
        old(a).order == b.order,
        old(a).item >= b.item,
        old(a).order < usize::MAX,
    ensures
        wf(*final(a)),
        final(a).item == old(a).item,
        final(a).next == old(a).next,
        final(a).order == old(a).order + 1,
        tree_ms(*final(a)) == tree_ms(*old(a)).add(tree_ms(*b)),
{
    let mut b = b;
    let ghost b0 = *b;
    let ghost a0 = *old(a);
    b.next = a.child.take();
    let ghost b1 = *b;
    a.child = Some(b);
    a.order = a.order + 1;
    proof {
        assert(opt_ms(a.child) == tree_ms(b0).add(opt_ms(a0.child))) by {
            assert(tree_ms(b1) == tree_ms(b0));
        }
        assert(tree_ms(*a) =~= tree_ms(a0).add(tree_ms(b0)));
        assert(wf(b1));
        assert(kids_orders(a.child, a.order as int));
        assert(wf(*a));
    }
}

/// Merges the sibling list `b` into the sibling list rooted at `a`, keeping
/// the result ordered by non-decreasing rank when both inputs are. The
/// result may hold trees of equal rank and must be repaired by `coalesce`.
fn merge(a: &mut Box<Node>, b: Box<Node>)
    requires
        wf(**old(a)),
        wf(*b),
    ensures
        wf(**final(a)),
        chain_ms(**final(a)) == chain_ms(**old(a)).add(chain_ms(*b)),
        chain_len(**final(a)) == chain_len(**old(a)) + chain_len(*b),
        (**final(a)).order == (**old(a)).order || (**final(a)).order == b.order,
        (**final(a)).order <= (**old(a)).order && (**final(a)).order <= b.order,
        strict(Some(*old(a))) && strict(Some(b)) ==> nodup3(Some(*final(a))),
        strict(Some(*old(a))) && strict(Some(b)) && dup_head(Some(*final(a)))
            ==> (**old(a)).order == b.order,
    decreases chain_len(**old(a)) + chain_len(*b),
{
    let mut b = b;
    let ghost binit = *b;
    if a.order > b.order {
        core::mem::swap(a, &mut b);
    }
    let ghost a0 = **a;
    let ghost b0 = *b;
    proof {
        assert(chain_ms(a0).add(chain_ms(b0)) =~= chain_ms(**old(a)).add(chain_ms(binit)));
        lemma_rank_unfold(Some(*old(a)));
        lemma_rank_unfold(Some(Box::new(binit)));
    }
    match a.next.take() {
        None => {
            a.next = Some(b);
            proof {
                assert(chain_ms(**a) =~= chain_ms(a0).add(chain_ms(b0)));
                if strict(Some(*old(a))) && strict(Some(Box::new(binit))) {
                    lemma_rank_unfold(Some(Box::new(b0)));
                    lemma_strict_nodup3(Some(Box::new(b0)));
                    lemma_rank_unfold(Some(*a));
                    assert(nodup3(Some(*a)));
                }
            }
        }
        Some(mut rest) => {
            proof {
                if strict(Some(*old(a))) && strict(Some(Box::new(binit))) {
                    assert(strict(Some(rest)));
                    assert(strict(Some(Box::new(b0))));
                }
            }
            let ghost rest0 = *rest;
            merge(&mut rest, b);
            let ghost rest1 = *rest;
            a.next = Some(rest);
            proof {
                assert(chain_ms(**a) =~= chain_ms(a0).add(chain_ms(b0)));
                if strict(Some(*old(a))) && strict(Some(Box::new(binit))) {
                    lemma_rank_unfold(Some(Box::new(rest1)));
                    lemma_rank_unfold(Some(*a));
                    assert(a0.order < rest0.order);
                    assert(rest1.order == rest0.order || rest1.order == b0.order);
                    assert(nodup3(Some(Box::new(rest1))));
                    assert(match rest1.next {
                        None => true,
                        Some(e) => !((**a).order == rest1.order && rest1.order == e.order),
                    }) by {
                        if rest1.next.is_some() && (**a).order == rest1.order
                            && rest1.order == rest1.next.unwrap().order {
                            assert(dup_head(Some(Box::new(rest1))));
                            assert(rest0.order == b0.order);
                        }
                    }
                    assert(nodup3(Some(*a)));
                }
            }
        }
    }
}

/// Repairs a merged root list: a single left-to-right pass that links
/// adjacent trees of equal rank, restoring rank-uniqueness. When three
/// consecutive trees share a rank, the first is passed over and the pair
/// behind it is linked, which keeps the repaired prefix valid.
fn coalesce(a: &mut Box<Node>)
    requires
        wf(**old(a)),
        chain_ms(**old(a)).len() <= usize::MAX,
    ensures
        wf(**final(a)),
        chain_ms(**final(a)) == chain_ms(**old(a)),
        (**final(a)).order >= (**old(a)).order,
        head_ok(Some(*old(a))) ==> strict(Some(*final(a))),
        head_ok(Some(*old(a))) && dup_head(Some(*old(a))) && !trip_head(Some(*old(a)))
            ==> (**final(a)).order > (**old(a)).order,
    decreases chain_len(**old(a)),
{
    let ghost a0 = **a;
    let ghost h = head_ok(Some(*old(a)));
    match a.next.take() {
        None => {
            proof {
                lemma_rank_unfold(Some(*a));
            }
        }
        Some(mut b) => {
            let ghost bb = *b;
            let third = match &b.next {
                Some(c) => c.order == b.order,
                None => false,
            };
            if a.order != b.order || third {
                proof {
                    assert(chain_ms(bb).len() <= chain_ms(a0).len());
                    if h {
                        lemma_strict_nodup3(Some(Box::new(bb)));
                        assert(head_ok(Some(Box::new(bb))));
                        lemma_rank_unfold(Some(Box::new(bb)));
                    }
                }
                coalesce(&mut b);
                let ghost b1 = *b;
                a.next = Some(b);
                proof {
                    assert(chain_ms(**a) =~= chain_ms(a0));
                    if h {
                        assert(a0.order < b1.order) by {
                            if a0.order != bb.order {
                                assert(a0.order < bb.order);
                            } else {
                                assert(dup_head(Some(Box::new(bb))));
                                assert(!trip_head(Some(Box::new(bb))));
                            }
                        }
                        lemma_rank_unfold(Some(*a));
                        assert(strict(Some(*a)));
                    }
                }
            } else if a.item >= b.item {
                a.next = b.next.take();
                proof {
                    lemma_chain_unfold(a0);
                    lemma_opt_unfold(a0.next);
                    assert(wf(bb));
                    lemma_chain_unfold(bb);
                    assert(tree_ms(**a) == tree_ms(a0));
                    assert(tree_ms(**a).len() <= chain_ms(a0).len());
                    lemma_tree_size(a0);
                    lemma_order_lt_two_to(a.order as nat);
                    lemma_chain_unfold(**a);
                    assert(wf(**a));
                    lemma_chain_unfold(*b);
                    assert(wf(*b));
                }
                link(&mut **a, b);
                proof {
                    lemma_chain_unfold(**a);
                    lemma_opt_unfold(bb.next);
                    assert(tree_ms(*b) == tree_ms(bb));
                    assert(chain_ms(**a) =~= chain_ms(a0));
                    assert(chain_len(**a) < chain_len(a0));
                    if h {
                        assert(head_ok(Some(*a))) by {
                            lemma_rank_unfold(Some(Box::new(bb)));
                        }
                    }
                }
                coalesce(a);
            } else {
                let tail = b.next.take();
                core::mem::swap(a, &mut b);
                a.next = tail;
                proof {
                    lemma_chain_unfold(a0);
                    lemma_opt_unfold(a0.next);
                    assert(wf(bb));
                    lemma_chain_unfold(bb);
                    assert(tree_ms(**a) == tree_ms(bb));
                    assert(tree_ms(**a).len() <= chain_ms(a0).len());
                    lemma_tree_size(bb);
                    lemma_order_lt_two_to(a.order as nat);
                    lemma_chain_unfold(**a);
                    assert(wf(**a));
                    lemma_chain_unfold(*b);
                    assert(tree_ms(*b) == tree_ms(a0));
                    assert(wf(*b));
                }
                link(&mut **a, b);
                proof {
                    lemma_chain_unfold(**a);
                    lemma_opt_unfold(bb.next);
                    assert(chain_ms(**a) =~= chain_ms(a0));
                    assert(chain_len(**a) < chain_len(a0));
                    if h {
                        assert(head_ok(Some(*a))) by {
                            lemma_rank_unfold(Some(Box::new(bb)));
                        }
                    }
                }
                coalesce(a);
            }
        }
    }
}

/// Returns a reference to the greatest item among the roots of `n`'s chain,
/// which by the max-heap property is the greatest item stored anywhere in it.
fn peek_chain(n: &Node) -> (r: &u64)
    requires
        wf(*n),
    ensures
        is_max_of(*r, chain_ms(*n)),
    decreases chain_len(*n),
{
    proof {
        lemma_chain_unfold(*n);
        lemma_opt_unfold(n.next);
    }
    match &n.next {
        None => &n.item,
        Some(s) => {
            let m = peek_chain(&**s);
            if *m > n.item {
                m
            } else {
                &n.item
            }
        }
    }
}

/// Merges the forest `other` into the forest rooted at `root`, then repairs
/// the root list so that ranks are unique again.
pub fn append(root: &mut Box<Node>, other: Option<Box<Node>>)
    requires
        wf(**old(root)),
        opt_wf(other),
        chain_ms(**old(root)).len() + opt_ms(other).len() <= usize::MAX,
    ensures
        wf(**final(root)),
        chain_ms(**final(root)) == chain_ms(**old(root)).add(opt_ms(other)),
        strict(Some(*old(root))) && strict(other) ==> strict(Some(*final(root))),
{
    proof {
        lemma_opt_unfold(other);
        lemma_rank_unfold(other);
    }
    match other {
        None => {
            proof {
                assert(chain_ms(**root) =~= chain_ms(**old(root)).add(opt_ms(other)));
            }
        }
        Some(b) => {
            let ghost b0 = *b;
            merge(root, b);
            proof {
                if strict(Some(*old(root))) && strict(Some(Box::new(b0))) {
                    lemma_strict_nodup3(Some(*root));
                }
            }
            coalesce(root);
        }
    }
}

/// Inserts `item` as a fresh rank-0 tree and repairs the forest.
pub fn push(root: &mut Option<Box<Node>>, item: u64)
    requires
        opt_wf(*old(root)),
        opt_ms(*old(root)).len() < usize::MAX,
    ensures
        opt_wf(*final(root)),
        opt_ms(*final(root)) == opt_ms(*old(root)).insert(item),
        strict(*old(root)) ==> strict(*final(root)),
{
    let node = Box::new(Node { item, order: 0, next: None, child: None });
    proof {
        lemma_chain_unfold(*node);
        lemma_opt_unfold(None::<Box<Node>>);
        assert(tree_ms(*node) =~= Multiset::singleton(item));
        assert(chain_ms(*node) =~= Multiset::singleton(item));
        assert(wf(*node));
        lemma_rank_unfold(Some(node));
        assert(strict(Some(node)));
    }
    match root.take() {
        None => {
            *root = Some(node);
            proof {
                lemma_opt_unfold(*root);
                assert(opt_ms(*root) =~= opt_ms(*old(root)).insert(item));
            }
        }
        Some(mut r0) => {
            proof {
                lemma_opt_unfold(*old(root));
            }
            append(&mut r0, Some(node));
            *root = Some(r0);
            proof {
                lemma_opt_unfold(*root);
                assert(opt_ms(*root) =~= opt_ms(*old(root)).insert(item));
            }
        }
    }
}

/// Returns a reference to the greatest item in the forest, or `None` when
/// the forest is empty.
pub fn peek(root: &Option<Box<Node>>) -> (r: Option<&u64>)
    requires
        opt_wf(*root),
    ensures
        match r {
            None => root.is_none(),
            Some(x) => is_max_of(*x, opt_ms(*root)),
        },
{
    proof {
        lemma_opt_unfold(*root);
    }
    match root {
        None => None,
        Some(b) => Some(peek_chain(&**b)),
    }
}

/// Detaches the root holding the greatest item from the forest, returning it
/// with its child list intact and its `next` cleared; every other tree keeps
/// its position. Returns `None` when the forest is empty.
fn remove_max(a: &mut Option<Box<Node>>) -> (r: Option<Box<Node>>)
    requires
        opt_wf(*old(a)),
    ensures
        match r {
            None => old(a).is_none() && final(a).is_none(),
            Some(m) => {
                &&& m.next.is_none()
                &&& wf(*m)
                &&& is_max_of(m.item, opt_ms(*old(a)))
                &&& opt_wf(*final(a))
                &&& opt_ms(*old(a)) == opt_ms(*final(a)).add(tree_ms(*m))
            },
        },
        strict(*old(a)) ==> strict(*final(a)),
        strict(*old(a)) && final(a).is_some()
            ==> final(a).unwrap().order >= old(a).unwrap().order,
    decreases opt_chain_len(*old(a)),
{
    proof {
        lemma_opt_unfold(*old(a));
        lemma_rank_unfold(*old(a));
    }
    match a.take() {
        None => None,
        Some(mut max) => {
            let ghost m0 = *max;
            proof {
                lemma_chain_unfold(m0);
                lemma_opt_unfold(m0.next);
            }
            match max.next.take() {
                None => {
                    proof {
                        lemma_opt_unfold(*a);
                        assert(opt_ms(*old(a)) =~= opt_ms(*a).add(tree_ms(*max)));
                    }
                    Some(max)
                }
                Some(rest) => {
                    let ghost r0 = *rest;
                    let best = peek_chain(&rest);
                    if *best > max.item {
                        let mut rest_opt = Some(rest);
                        proof {
                            lemma_opt_unfold(rest_opt);
                        }
                        proof {
                            lemma_rank_unfold(rest_opt);
                        }
                        let m = remove_max(&mut rest_opt);
                        max.next = rest_opt;
                        let ghost m1 = *max;
                        *a = Some(max);
                        proof {
                            lemma_opt_unfold(*a);
                            lemma_chain_unfold(m1);
                            lemma_opt_unfold(m1.next);
                            let mm = m.unwrap();
                            assert(is_max_of(mm.item, chain_ms(r0)));
                            assert(opt_ms(*old(a)) =~= opt_ms(*a).add(tree_ms(*mm)));
                            assert(is_max_of(mm.item, opt_ms(*old(a))));
                            if strict(*old(a)) {
                                lemma_rank_unfold(*a);
                                lemma_rank_unfold(m1.next);
                                assert(strict(*a));
                            }
                        }
                        m
                    } else {
                        *a = Some(rest);
                        proof {
                            lemma_opt_unfold(*a);
                            assert(opt_ms(*old(a)) =~= opt_ms(*a).add(tree_ms(*max)));
                            assert(is_max_of(max.item, opt_ms(*old(a))));
                            if strict(*old(a)) {
                                lemma_rank_unfold(*a);
                            }
                        }
                        Some(max)
                    }
                }
            }
        }
    }
}

/// Removes the greatest item from the forest, folds the removed root's
/// children back in, and keeps `len` equal to the number of stored items.
pub fn pop(root: &mut Option<Box<Node>>, len: &mut usize) -> (r: Option<u64>)
    requires
        opt_wf(*old(root)),
        *old(len) == opt_ms(*old(root)).len(),
    ensures
        opt_wf(*final(root)),
        *final(len) == opt_ms(*final(root)).len(),
        match r {
            None => {
                &&& old(root).is_none()
                &&& final(root).is_none()
                &&& *final(len) == *old(len)
            },
            Some(x) => {
                &&& is_max_of(x, opt_ms(*old(root)))
                &&& opt_ms(*final(root)) == opt_ms(*old(root)).remove(x)
                &&& *final(len) == *old(len) - 1
            },
        },
{
    match remove_max(root) {
        None => None,
        Some(m) => {
            let m = *m;
            let ghost mm = m;
            proof {
                lemma_chain_unfold(mm);
                lemma_opt_unfold(mm.child);
                lemma_opt_unfold(*root);
                assert(tree_ms(mm).len() >= 1);
            }
            let Node { item, child, order: _, next: _ } = m;
            match (root.take(), child) {
                (None, c) => {
                    *root = c;
                }
                (r0, None) => {
                    *root = r0;
                }
                (Some(mut r0), Some(c)) => {
                    proof {
                        lemma_opt_unfold(Some(c));
                    }
                    append(&mut r0, Some(c));
                    *root = Some(r0);
                }
            }
            *len = *len - 1;
            proof {
                lemma_opt_unfold(*root);
                lemma_opt_unfold(mm.child);
                assert(opt_ms(*root) =~= opt_ms(*old(root)).remove(item));
            }
            Some(item)
        }
    }
}

/// The items still owed by a stack of borrowed pending nodes: each entry
/// stands for its own tree, its siblings and everything below them.
pub open spec fn stack_ms(s: Seq<&Node>) -> Multiset<u64>
    decreases s.len(),
{
    if s.len() == 0 {
        Multiset::empty()
    } else {
        stack_ms(s.drop_last()).add(chain_ms(*s.last()))
    }
}

/// Every pending node heads a well-formed chain.
pub open spec fn stack_wf(s: Seq<&Node>) -> bool {
    forall|i: int| 0 <= i < s.len() ==> wf(*#[trigger] s[i])
}

/// The items still owed by a stack of owned pending nodes.
pub open spec fn stack_ms_owned(s: Seq<Box<Node>>) -> Multiset<u64>
    decreases s.len(),
{
    if s.len() == 0 {
        Multiset::empty()
    } else {
        stack_ms_owned(s.drop_last()).add(chain_ms(*s.last()))
    }
}

/// Every owned pending node heads a well-formed chain.
pub open spec fn stack_wf_owned(s: Seq<Box<Node>>) -> bool {
    forall|i: int| 0 <= i < s.len() ==> wf(*#[trigger] s[i])
}

/// An iterator that yields references to the items of a heap in arbitrary
/// order, driven by an explicit stack of pending subtrees.
pub struct Iter<'a> {
    pub nodes: Vec<&'a Node>,
    pub len: usize,
}

impl<'a> Iter<'a> {
    /// The multiset of items this iterator has yet to yield.
    pub open spec fn pending(self) -> Multiset<u64> {
        stack_ms(self.nodes@)
    }

    /// The remaining count matches the pending items, which are all drawn
    /// from well-formed chains.
    pub open spec fn wf(self) -> bool {
        &&& stack_wf(self.nodes@)
        &&& self.len == self.pending().len()
    }

    /// Yields a reference to some not-yet-yielded item, or `None` once every
    /// item has been yielded.
    pub fn next(&mut self) -> (r: Option<&'a u64>)
        requires
            old(self).wf(),
        ensures
            final(self).wf(),
            match r {
                None => {
                    &&& old(self).pending().len() == 0
                    &&& final(self).pending() == old(self).pending()
                    &&& final(self).len == old(self).len
                },
                Some(x) => {
                    &&& old(self).pending().count(*x) > 0
                    &&& final(self).pending() == old(self).pending().remove(*x)
                    &&& final(self).len == old(self).len - 1
                },
            },
    {
        let ghost s0 = self.nodes@;
        match self.nodes.pop() {
            None => {
                proof {
                    assert(self.pending().len() == 0);
                }
                None
            }
            Some(node) => {
                proof {
                    lemma_chain_unfold(*node);
                    lemma_opt_unfold(node.next);
                    lemma_opt_unfold(node.child);
                    assert(stack_ms(s0) == stack_ms(s0.drop_last()).add(chain_ms(*node)));
                }
                match &node.next {
                    None => {}
                    Some(nx) => {
                        let ghost s1 = self.nodes@;
                        self.nodes.push(&**nx);
                        proof {
                            assert(self.nodes@.drop_last() =~= s1);
                            assert(stack_ms(self.nodes@)
                                == stack_ms(s1).add(chain_ms(*node.next.unwrap())));
                        }
                    }
                }
                match &node.child {
                    None => {}
                    Some(c) => {
                        let ghost s2 = self.nodes@;
                        self.nodes.push(&**c);
                        proof {
                            assert(self.nodes@.drop_last() =~= s2);
                            assert(stack_ms(self.nodes@)
                                == stack_ms(s2).add(chain_ms(*node.child.unwrap())));
                        }
                    }
                }
                proof {
                    assert(stack_ms(self.nodes@) =~= stack_ms(s0).remove(node.item));
                    assert(stack_wf(self.nodes@));
                }
                self.len = self.len - 1;
                Some(&node.item)
            }
        }
    }

    /// The exact number of items still to be yielded.
    pub fn len(&self) -> (r: usize)
        ensures
            r == self.len,
    {
        self.len
    }

    /// Exact bounds on the number of items still to be yielded.
    pub fn size_hint(&self) -> (r: (usize, Option<usize>))
        ensures
            r.0 == self.len,
            r.1 == Some(self.len),
    {
        (self.len, Some(self.len))
    }
}

/// An iterator that consumes a heap's forest, yielding every stored item by
/// value in arbitrary order.
pub struct IntoIter {
    pub nodes: Vec<Box<Node>>,
    pub len: usize,
}

impl IntoIter {
    /// The multiset of items this iterator has yet to yield.
    pub open spec fn pending(self) -> Multiset<u64> {
        stack_ms_owned(self.nodes@)
    }

    /// The remaining count matches the pending items, which are all drawn
    /// from well-formed chains.
    pub open spec fn wf(self) -> bool {
        &&& stack_wf_owned(self.nodes@)
        &&& self.len == self.pending().len()
    }

    /// Yields some not-yet-yielded item, or `None` once every item has been
    /// yielded.
    pub fn next(&mut self) -> (r: Option<u64>)
        requires
            old(self).wf(),
        ensures
            final(self).wf(),
            match r {
                None => {
                    &&& old(self).pending().len() == 0
                    &&& final(self).pending() == old(self).pending()
                    &&& final(self).len == old(self).len
                },
                Some(x) => {
                    &&& old(self).pending().count(x) > 0
                    &&& final(self).pending() == old(self).pending().remove(x)
                    &&& final(self).len == old(self).len - 1
                },
            },
    {
        let ghost s0 = self.nodes@;
        match self.nodes.pop() {
            None => {
                proof {
                    assert(self.pending().len() == 0);
                }
                None
            }
            Some(node) => {
                let node = *node;
                let ghost n0 = node;
                proof {
                    lemma_chain_unfold(n0);
                    lemma_opt_unfold(n0.next);
                    lemma_opt_unfold(n0.child);
                    assert(stack_ms_owned(s0) == stack_ms_owned(s0.drop_last()).add(chain_ms(n0)));
                }
                let Node { item, next, child, order: _ } = node;
                match next {
                    None => {}
                    Some(nx) => {
                        let ghost s1 = self.nodes@;
                        self.nodes.push(nx);
                        proof {
                            assert(self.nodes@.drop_last() =~= s1);
                            assert(stack_ms_owned(self.nodes@)
                                == stack_ms_owned(s1).add(chain_ms(*n0.next.unwrap())));
                        }
                    }
                }
                match child {
                    None => {}
                    Some(c) => {
                        let ghost s2 = self.nodes@;
                        self.nodes.push(c);
                        proof {
                            assert(self.nodes@.drop_last() =~= s2);
                            assert(stack_ms_owned(self.nodes@)
                                == stack_ms_owned(s2).add(chain_ms(*n0.child.unwrap())));
                        }
                    }
                }
                proof {
                    assert(stack_ms_owned(self.nodes@) =~= stack_ms_owned(s0).remove(n0.item));
                    assert(stack_wf_owned(self.nodes@));
                }
                self.len = self.len - 1;
                Some(item)
            }
        }
    }

    /// The exact number of items still to be yielded.
    pub fn len(&self) -> (r: usize)
        ensures
            r == self.len,
    {
        self.len
    }

    /// Exact bounds on the number of items still to be yielded.
    pub fn size_hint(&self) -> (r: (usize, Option<usize>))
        ensures
            r.0 == self.len,
            r.1 == Some(self.len),
    {
        (self.len, Some(self.len))
    }
}

/// Builds a borrowing traversal over the forest; `len` must be the exact
/// number of stored items.
pub fn iter<'a>(root: &'a Option<Box<Node>>, len: usize) -> (r: Iter<'a>)
    requires
        opt_wf(*root),
        len == opt_ms(*root).len(),
    ensures
        r.wf(),
        r.pending() == opt_ms(*root),
        r.len == len,
{
    proof {
        lemma_opt_unfold(*root);
    }
    let mut nodes: Vec<&Node> = Vec::new();
    proof {
        assert(stack_ms(nodes@) == Multiset::<u64>::empty());
    }
    match root {
        None => {}
        Some(b) => {
            let ghost s0 = nodes@;
            nodes.push(&**b);
            proof {
                assert(nodes@.drop_last() =~= s0);
                assert(*nodes@.last() == **b);
                assert(stack_ms(nodes@) == stack_ms(s0).add(chain_ms(**b)));
            }
        }
    }
    proof {
        assert(stack_ms(nodes@) =~= opt_ms(*root));
    }
    Iter { nodes, len }
}

/// Builds a consuming traversal over the forest; `len` must be the exact
/// number of stored items.
pub fn into_iter(root: Option<Box<Node>>, len: usize) -> (r: IntoIter)
    requires
        opt_wf(root),
        len == opt_ms(root).len(),
    ensures
        r.wf(),
        r.pending() == opt_ms(root),
        r.len == len,
{
    proof {
        lemma_opt_unfold(root);
    }
    let mut nodes: Vec<Box<Node>> = Vec::new();
    proof {
        assert(stack_ms_owned(nodes@) == Multiset::<u64>::empty());
    }
    match root {
        None => {}
        Some(b) => {
            let ghost b0 = *b;
            let ghost s0 = nodes@;
            nodes.push(b);
            proof {
                assert(nodes@.drop_last() =~= s0);
                assert(*nodes@.last() == b0);
                assert(stack_ms_owned(nodes@) == stack_ms_owned(s0).add(chain_ms(b0)));
            }
        }
    }
    proof {
        assert(stack_ms_owned(nodes@) =~= opt_ms(root));
    }
    IntoIter { nodes, len }
}

} // verus!
